//! The expression tree the evaluator walks. The parser that produces it from
//! tokens is an external collaborator; tests build it directly.
use std::rc::Rc;
use vstd::prelude::*;
use crate::token::{BitOp, CompOp, NumOp};

verus! {

/// A literal constant. A numeric constant carries its IEEE-754 binary64
/// encoding; a regular-expression literal keeps its source and flags but
/// evaluates to a placeholder.
#[derive(Debug)]
pub enum Const {
    CNull,
    CUndefined,
    CNum(u64),
    CInt(i32),
    CString(Vec<u8>),
    CBool(bool),
    CRegExp(Vec<u8>, bool, bool),
}

/// An expression. Function bodies are shared so that a declared function can
/// carry its body out of the tree.
#[derive(Debug)]
pub enum Expr {
    /// A literal.
    ConstExpr(Const),
    /// Children evaluated left to right; the value is the last child's.
    BlockExpr(Vec<Expr>),
    /// A name resolved through the scope stack, then the global object.
    LocalExpr(Vec<u8>),
    /// `obj.field`
    GetConstFieldExpr(Box<Expr>, Vec<u8>),
    /// `obj[expr]`
    GetFieldExpr(Box<Expr>, Box<Expr>),
    /// A call; a field-access callee supplies the receiver.
    CallExpr(Box<Expr>, Vec<Expr>),
    /// `while (cond) body`
    WhileLoopExpr(Box<Expr>, Box<Expr>),
    /// `if (cond) then else alt`
    IfExpr(Box<Expr>, Box<Expr>, Option<Box<Expr>>),
    /// `switch (disc) { case c: block ... default: d }`
    SwitchExpr(Box<Expr>, Vec<(Expr, Vec<Expr>)>, Option<Box<Expr>>),
    /// `{ key: value, ... }`
    ObjectDeclExpr(Vec<(Vec<u8>, Expr)>),
    /// `[a, b, ...]`
    ArrayDeclExpr(Vec<Expr>),
    /// `function name(params) body`
    FunctionDeclExpr(Option<Vec<u8>>, Vec<Vec<u8>>, Rc<Expr>),
    /// `a + b` and the other numeric operators
    NumOpExpr(NumOp, Box<Expr>, Box<Expr>),
    /// `a & b` and the other bitwise operators
    BitOpExpr(BitOp, Box<Expr>, Box<Expr>),
    /// `a < b` and the other comparisons
    CompOpExpr(CompOp, Box<Expr>, Box<Expr>),
    /// `new F(args)`
    ConstructExpr(Box<Expr>, Vec<Expr>),
    /// `return expr`
    ReturnExpr(Option<Box<Expr>>),
    /// `throw expr`
    ThrowExpr(Box<Expr>),
    /// `target = value`
    AssignExpr(Box<Expr>, Box<Expr>),
}

/// Relies on `Clone for std::rc::Rc`: a clone is a second handle to the same
/// allocation, equal to the original.
#[verifier::external_body]
pub fn rc_clone_expr(v: &Rc<Expr>) -> (res: Rc<Expr>)
    ensures
        res == *v,
{
    Rc::clone(v)
}

} // verus!
