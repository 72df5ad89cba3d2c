//! Tokens: the lexer's output, tagged with source positions.
use vstd::prelude::*;

verus! {

/// The type of string used
#[derive(Clone, Copy, PartialEq, Eq, Structural, Debug)]
pub enum StringType {
    /// Double-quoted
    DoubleQuote,
    /// Single-quoted
    SingleQuote,
}

/// The type of comment used
#[derive(Clone, Copy, PartialEq, Eq, Structural, Debug)]
pub enum CommentType {
    /// Multi-line comment
    MultiLineComment,
    /// Single-line comment
    SingleLineComment,
}

/// The type of number used
#[derive(Clone, Copy, PartialEq, Eq, Structural, Debug)]
pub enum NumberType {
    /// Decimal number
    DecimalNumber,
    /// Hexadecimal number
    HexadecimalNumber,
    /// Octal number
    OctalNumber,
}

/// A numeric operation between two values
#[derive(Clone, Copy, PartialEq, Eq, Structural, Debug)]
pub enum NumOp {
    OpAdd,
    OpSub,
    OpMul,
    OpDiv,
    OpMod,
}

/// A bitwise operation between two values
#[derive(Clone, Copy, PartialEq, Eq, Structural, Debug)]
pub enum BitOp {
    BitAnd,
    BitOr,
    BitXor,
    BitShl,
    BitShr,
}

/// A comparison between two values
#[derive(Clone, Copy, PartialEq, Eq, Structural, Debug)]
pub enum CompOp {
    CompEqual,
    CompNotEqual,
    CompLessThan,
    CompGreaterThan,
    CompLessThanOrEqual,
    CompGreaterThanOrEqual,
}

/// A logical operation between two boolean-coerced values
#[derive(Clone, Copy, PartialEq, Eq, Structural, Debug)]
pub enum LogOp {
    LogAnd,
    LogOr,
}

/// The payload of a token. A numeric literal carries the IEEE-754 binary64
/// encoding of its value; identifiers, strings and comments carry bytes.
#[derive(Debug)]
pub enum TokenData {
    TIdent(Vec<u8>),
    TNumber(u64),
    TString(Vec<u8>),
    TComment(Vec<u8>),
    TSemicolon,
    TColon,
    TDot,
    TEqual,
    TOpenParen,
    TCloseParen,
    TComma,
    TOpenBlock,
    TCloseBlock,
    TOpenArray,
    TCloseArray,
    TQuestion,
    TArrow,
    TNumOp(NumOp),
    TBitOp(BitOp),
    TCompOp(CompOp),
    TLogOp(LogOp),
}

/// The mathematical shape of a token payload.
pub enum TokenDataV {
    TIdent(Seq<u8>),
    TNumber(u64),
    TString(Seq<u8>),
    TComment(Seq<u8>),
    TSemicolon,
    TColon,
    TDot,
    TEqual,
    TOpenParen,
    TCloseParen,
    TComma,
    TOpenBlock,
    TCloseBlock,
    TOpenArray,
    TCloseArray,
    TQuestion,
    TArrow,
    TNumOp(NumOp),
    TBitOp(BitOp),
    TCompOp(CompOp),
    TLogOp(LogOp),
}

impl View for TokenData {
    type V = TokenDataV;

    open spec fn view(&self) -> TokenDataV {
        match self {
            TokenData::TIdent(s) => TokenDataV::TIdent(s@),
            TokenData::TNumber(b) => TokenDataV::TNumber(*b),
            TokenData::TString(s) => TokenDataV::TString(s@),
            TokenData::TComment(s) => TokenDataV::TComment(s@),
            TokenData::TSemicolon => TokenDataV::TSemicolon,
            TokenData::TColon => TokenDataV::TColon,
            TokenData::TDot => TokenDataV::TDot,
            TokenData::TEqual => TokenDataV::TEqual,
            TokenData::TOpenParen => TokenDataV::TOpenParen,
            TokenData::TCloseParen => TokenDataV::TCloseParen,
            TokenData::TComma => TokenDataV::TComma,
            TokenData::TOpenBlock => TokenDataV::TOpenBlock,
            TokenData::TCloseBlock => TokenDataV::TCloseBlock,
            TokenData::TOpenArray => TokenDataV::TOpenArray,
            TokenData::TCloseArray => TokenDataV::TCloseArray,
            TokenData::TQuestion => TokenDataV::TQuestion,
            TokenData::TArrow => TokenDataV::TArrow,
            TokenData::TNumOp(op) => TokenDataV::TNumOp(*op),
            TokenData::TBitOp(op) => TokenDataV::TBitOp(*op),
            TokenData::TCompOp(op) => TokenDataV::TCompOp(*op),
            TokenData::TLogOp(op) => TokenDataV::TLogOp(*op),
        }
    }
}

/// A single token of source, with the line and column at which it was
/// emitted.
#[derive(Debug)]
pub struct Token {
    pub data: TokenData,
    pub line: u64,
    pub column: u64,
}

/// The mathematical shape of a token.
pub struct TokenV {
    pub data: TokenDataV,
    pub line: nat,
    pub column: nat,
}

impl View for Token {
    type V = TokenV;

    open spec fn view(&self) -> TokenV {
        TokenV { data: self.data@, line: self.line as nat, column: self.column as nat }
    }
}

impl Token {
    /// Pack a payload with its position.
    pub fn new(data: TokenData, line: u64, column: u64) -> (t: Token)
        ensures
            t@.data == data@,
            t@.line == line as nat,
            t@.column == column as nat,
    {
        Token { data, line, column }
    }
}

/// What stopped the lexer: an unparseable numeric literal, an invalid escape
/// or an escape that names no Unicode scalar value.
#[derive(Clone, Copy, PartialEq, Eq, Structural, Debug)]
pub enum LexErrorKind {
    BadNumber,
    BadEscape,
    BadScalar,
}

/// A fatal lexer error with its source position.
#[derive(Clone, Copy, PartialEq, Eq, Structural, Debug)]
pub struct LexError {
    pub kind: LexErrorKind,
    pub line: u64,
    pub column: u64,
}

} // verus!
