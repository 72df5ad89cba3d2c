//! End-to-end evaluator scenarios.
use std::rc::Rc;
use js::ast::{Const, Expr};
use js::exec::Interpreter;
use js::token::{CompOp, NumOp, BitOp};
use js::value::Value;

fn num(x: f64) -> Expr {
    Expr::ConstExpr(Const::CNum(x.to_bits()))
}

fn local(n: &[u8]) -> Expr {
    Expr::LocalExpr(n.to_vec())
}

fn assign(t: Expr, v: Expr) -> Expr {
    Expr::AssignExpr(Box::new(t), Box::new(v))
}

fn nop(op: NumOp, a: Expr, b: Expr) -> Expr {
    Expr::NumOpExpr(op, Box::new(a), Box::new(b))
}

fn field(o: Expr, f: &[u8]) -> Expr {
    Expr::GetConstFieldExpr(Box::new(o), f.to_vec())
}

fn expect_num(r: Result<Value, Value>, x: f64) {
    match r {
        Ok(Value::Number(b)) => assert_eq!(b, x.to_bits()),
        other => panic!("expected a number, got {:?}", other),
    }
}

#[test]
fn arithmetic_precedence() {
    // 1 + 2 * 3 evaluates to 7
    let mut it = Interpreter::new();
    let e = nop(NumOp::OpAdd, num(1.0), nop(NumOp::OpMul, num(2.0), num(3.0)));
    expect_num(it.run(&e), 7.0);
}

#[test]
fn object_literal_fields() {
    // var x = {a:1, b:2}; x.a + x.b evaluates to 3
    let mut it = Interpreter::new();
    let obj = Expr::ObjectDeclExpr(vec![(b"a".to_vec(), num(1.0)), (b"b".to_vec(), num(2.0))]);
    let e = Expr::BlockExpr(vec![
        assign(local(b"x"), obj),
        nop(NumOp::OpAdd, field(local(b"x"), b"a"), field(local(b"x"), b"b")),
    ]);
    expect_num(it.run(&e), 3.0);
}

#[test]
fn array_index_and_length() {
    // var a = [10, 20, 30]; a[1] + a.length evaluates to 23
    let mut it = Interpreter::new();
    let arr = Expr::ArrayDeclExpr(vec![num(10.0), num(20.0), num(30.0)]);
    let e = Expr::BlockExpr(vec![
        assign(local(b"a"), arr),
        nop(
            NumOp::OpAdd,
            Expr::GetFieldExpr(Box::new(local(b"a")), Box::new(num(1.0))),
            field(local(b"a"), b"length"),
        ),
    ]);
    expect_num(it.run(&e), 23.0);
}

#[test]
fn function_call_square() {
    // function f(n) { return n * n; } f(5) + f(6) evaluates to 61
    let mut it = Interpreter::new();
    let body = Rc::new(Expr::ReturnExpr(Some(Box::new(nop(
        NumOp::OpMul,
        local(b"n"),
        local(b"n"),
    )))));
    let e = Expr::BlockExpr(vec![
        Expr::FunctionDeclExpr(Some(b"f".to_vec()), vec![b"n".to_vec()], body),
        nop(
            NumOp::OpAdd,
            Expr::CallExpr(Box::new(local(b"f")), vec![num(5.0)]),
            Expr::CallExpr(Box::new(local(b"f")), vec![num(6.0)]),
        ),
    ]);
    expect_num(it.run(&e), 61.0);
}

#[test]
fn constructor_binds_this() {
    // function C(x) { this.x = x; } var o = new C(7); o.x evaluates to 7
    let mut it = Interpreter::new();
    let body = Rc::new(assign(field(local(b"this"), b"x"), local(b"x")));
    let e = Expr::BlockExpr(vec![
        Expr::FunctionDeclExpr(Some(b"C".to_vec()), vec![b"x".to_vec()], body),
        assign(
            local(b"o"),
            Expr::ConstructExpr(Box::new(local(b"C")), vec![num(7.0)]),
        ),
        field(local(b"o"), b"x"),
    ]);
    expect_num(it.run(&e), 7.0);
}

#[test]
fn while_loop_concatenates() {
    // var s = ""; var i = 0; while (i < 3) { s = s + i; i = i + 1; } s
    let mut it = Interpreter::new();
    let cond = Expr::CompOpExpr(CompOp::CompLessThan, Box::new(local(b"i")), Box::new(num(3.0)));
    let body = Expr::BlockExpr(vec![
        assign(local(b"s"), nop(NumOp::OpAdd, local(b"s"), local(b"i"))),
        assign(local(b"i"), nop(NumOp::OpAdd, local(b"i"), num(1.0))),
    ]);
    let e = Expr::BlockExpr(vec![
        assign(local(b"s"), Expr::ConstExpr(Const::CString(Vec::new()))),
        assign(local(b"i"), num(0.0)),
        Expr::WhileLoopExpr(Box::new(cond), Box::new(body)),
        local(b"s"),
    ]);
    match it.run(&e) {
        Ok(Value::StringVal(s)) => assert_eq!(s, b"012".to_vec()),
        other => panic!("expected a string, got {:?}", other),
    }
}

#[test]
fn constants_evaluate_to_themselves() {
    let mut it = Interpreter::new();
    assert!(matches!(it.run(&Expr::ConstExpr(Const::CNull)), Ok(Value::Null)));
    assert!(matches!(it.run(&Expr::ConstExpr(Const::CUndefined)), Ok(Value::Undefined)));
    assert!(matches!(it.run(&Expr::ConstExpr(Const::CBool(true))), Ok(Value::Boolean(true))));
    expect_num(it.run(&Expr::ConstExpr(Const::CNum(2.5f64.to_bits()))), 2.5);
    expect_num(it.run(&Expr::ConstExpr(Const::CInt(-12))), -12.0);
    match it.run(&Expr::ConstExpr(Const::CString(b"hi".to_vec()))) {
        Ok(Value::StringVal(s)) => assert_eq!(s, b"hi".to_vec()),
        other => panic!("expected a string, got {:?}", other),
    }
    assert!(matches!(
        it.run(&Expr::ConstExpr(Const::CRegExp(b"a+".to_vec(), false, false))),
        Ok(Value::Boolean(true))
    ));
}

#[test]
fn reading_a_local_is_pure() {
    let mut it = Interpreter::new();
    it.set_global(b"x".to_vec(), Value::Number(4.0f64.to_bits()));
    let r1 = it.run(&local(b"x"));
    let r2 = it.run(&local(b"x"));
    match (r1, r2) {
        (Ok(Value::Number(a)), Ok(Value::Number(b))) => {
            assert_eq!(a, 4.0f64.to_bits());
            assert_eq!(a, b);
        },
        other => panic!("expected numbers, got {:?}", other),
    }
}

#[test]
fn prototype_fall_through_and_shadowing() {
    // obj.p = 1; child.__proto__ = obj: child.p reads 1; child.p = 2
    // shadows without touching obj.p.
    let mut it = Interpreter::new();
    let setup = Expr::BlockExpr(vec![
        assign(local(b"obj"), Expr::ObjectDeclExpr(vec![])),
        assign(local(b"child"), Expr::ObjectDeclExpr(vec![])),
        assign(field(local(b"obj"), b"p"), num(1.0)),
        assign(field(local(b"child"), b"__proto__"), local(b"obj")),
        field(local(b"child"), b"p"),
    ]);
    expect_num(it.run(&setup), 1.0);
    expect_num(it.run(&assign(field(local(b"child"), b"p"), num(2.0))), 2.0);
    expect_num(it.run(&field(local(b"child"), b"p")), 2.0);
    expect_num(it.run(&field(local(b"obj"), b"p")), 1.0);
}

#[test]
fn assignment_writes_the_global() {
    let mut it = Interpreter::new();
    let r = it.run(&assign(local(b"x"), num(5.0)));
    expect_num(r, 5.0);
    match it.get_global(b"x".to_vec()) {
        Value::Number(b) => assert_eq!(b, 5.0f64.to_bits()),
        other => panic!("expected a number, got {:?}", other),
    }
}

#[test]
fn throw_propagates_and_skips_the_rest() {
    let mut it = Interpreter::new();
    let e = Expr::BlockExpr(vec![
        num(1.0),
        Expr::ThrowExpr(Box::new(num(42.0))),
        assign(local(b"leak"), num(9.0)),
    ]);
    match it.run(&e) {
        Err(Value::Number(b)) => assert_eq!(b, 42.0f64.to_bits()),
        other => panic!("expected a thrown number, got {:?}", other),
    }
    // the statement after the throw never ran
    assert!(matches!(it.get_global(b"leak".to_vec()), Value::Undefined));
}

#[test]
fn division_and_remainder() {
    let mut it = Interpreter::new();
    expect_num(it.run(&nop(NumOp::OpDiv, num(1.0), num(2.0))), 0.5);
    expect_num(it.run(&nop(NumOp::OpDiv, num(1.0), num(0.0))), f64::INFINITY);
    expect_num(it.run(&nop(NumOp::OpMod, num(7.0), num(2.0))), 1.0);
    expect_num(it.run(&nop(NumOp::OpMod, num(-7.0), num(2.0))), -1.0);
    expect_num(it.run(&nop(NumOp::OpSub, num(1.5), num(0.25))), 1.25);
}

#[test]
fn string_coercion_in_multiplication() {
    // "6" * 7 coerces the string through the numeric parser
    let mut it = Interpreter::new();
    let s = Expr::ConstExpr(Const::CString(b"6".to_vec()));
    expect_num(it.run(&nop(NumOp::OpMul, s, num(7.0))), 42.0);
    let f = Expr::ConstExpr(Const::CString(b"-2.5".to_vec()));
    expect_num(it.run(&nop(NumOp::OpMul, f, num(2.0))), -5.0);
}

#[test]
fn bitwise_operators_give_integers() {
    let mut it = Interpreter::new();
    let bop = |op, a: f64, b: f64| {
        Expr::BitOpExpr(op, Box::new(num(a)), Box::new(num(b)))
    };
    assert!(matches!(it.run(&bop(BitOp::BitAnd, 6.0, 3.0)), Ok(Value::Integer(2))));
    assert!(matches!(it.run(&bop(BitOp::BitOr, 6.0, 3.0)), Ok(Value::Integer(7))));
    assert!(matches!(it.run(&bop(BitOp::BitXor, 6.0, 3.0)), Ok(Value::Integer(5))));
    assert!(matches!(it.run(&bop(BitOp::BitShl, 3.0, 2.0)), Ok(Value::Integer(12))));
    assert!(matches!(it.run(&bop(BitOp::BitShr, -8.0, 1.0)), Ok(Value::Integer(-4))));
    // truncation toward zero of a fractional operand
    assert!(matches!(it.run(&bop(BitOp::BitOr, -1.5, 0.0)), Ok(Value::Integer(-1))));
}

#[test]
fn switch_matches_equal_case() {
    let mut it = Interpreter::new();
    let e = Expr::SwitchExpr(
        Box::new(num(2.0)),
        vec![
            (num(1.0), vec![num(10.0)]),
            (num(2.0), vec![num(20.0)]),
        ],
        Some(Box::new(num(99.0))),
    );
    expect_num(it.run(&e), 20.0);
    let d = Expr::SwitchExpr(Box::new(num(5.0)), vec![(num(1.0), vec![num(10.0)])], Some(
        Box::new(num(99.0)),
    ));
    expect_num(it.run(&d), 99.0);
}

#[test]
fn console_log_appends_a_line() {
    let mut it = Interpreter::new();
    let call = Expr::CallExpr(
        Box::new(field(local(b"console"), b"log")),
        vec![
            Expr::ConstExpr(Const::CString(b"hi".to_vec())),
            num(3.0),
        ],
    );
    assert!(matches!(it.run(&call), Ok(Value::Undefined)));
    assert_eq!(it.out, b"hi 3\n".to_vec());
}

#[test]
fn math_max_picks_the_largest() {
    let mut it = Interpreter::new();
    let call = Expr::CallExpr(
        Box::new(field(local(b"Math"), b"max")),
        vec![num(2.0), num(9.0), num(-3.0)],
    );
    expect_num(it.run(&call), 9.0);
    let empty = Expr::CallExpr(Box::new(field(local(b"Math"), b"max")), vec![]);
    expect_num(it.run(&empty), f64::NEG_INFINITY);
}

#[test]
fn calling_a_non_function_throws_undefined() {
    let mut it = Interpreter::new();
    let e = Expr::CallExpr(Box::new(num(1.0)), vec![]);
    assert!(matches!(it.run(&e), Err(Value::Undefined)));
}

#[test]
fn number_rendering_round_trips() {
    // concatenation renders numbers: integers in plain decimal, NaN and the
    // infinities by name, fractions through the software float's writer
    let catted = |x: f64| {
        let mut it = Interpreter::new();
        let empty = Expr::ConstExpr(Const::CString(Vec::new()));
        match it.run(&nop(NumOp::OpAdd, empty, num(x))) {
            Ok(Value::StringVal(s)) => s,
            other => panic!("expected a string, got {:?}", other),
        }
    };
    assert_eq!(catted(7.0), b"7".to_vec());
    assert_eq!(catted(-12.0), b"-12".to_vec());
    assert_eq!(catted(0.0), b"0".to_vec());
    assert_eq!(catted(f64::NAN), b"NaN".to_vec());
    assert_eq!(catted(f64::INFINITY), b"Infinity".to_vec());
    assert_eq!(catted(f64::NEG_INFINITY), b"-Infinity".to_vec());
    // a fraction's rendering parses back to the same encoding
    let s = catted(0.1);
    assert_eq!(js::value::str_to_num_exec(&s), 0.1f64.to_bits());
}
