//! The runtime value model: a tagged sum over the primitive kinds and
//! handles into the interpreter's object and function stores, with the
//! coercion rules, equality, and the binary operators.
use vstd::prelude::*;
use crate::dbl::{
    NAN_BITS, add_bits, bits_of_i53, bits_of_int53, bits_of_nat53, bits_of_u53, d_eexp, d_int_mag,
    d_is_int, d_is_nan, d_is_special, d_is_zero, d_le, d_lt, d_neg, d_num_eq, d_sign, d_to_int32,
    dbl_add, dbl_div, dbl_fmod, dbl_mul, dbl_neg_bits, dbl_of_dec_str, dbl_sub, dec_str,
    dec_str_of_bits, dec_str_of_dbl, digits_val, div_bits, fmod_bits, int_val_of_bits, le_bits,
    lt_bits, mul_bits, num_eq_bits, of_dec_str_bits, parse_digits, push_dec, sign_bits, sub_bits,
    to_i32_bits,
};
use crate::token::{BitOp, CompOp, NumOp};

verus! {

/// A runtime value. Numbers carry their IEEE-754 binary64 encoding; strings
/// are owned byte strings; objects and functions are handles into the
/// interpreter's stores, shared by copying the index.
#[derive(Debug)]
pub enum Value {
    Null,
    Undefined,
    Boolean(bool),
    Number(u64),
    Integer(i32),
    StringVal(Vec<u8>),
    Object(usize),
    Function(usize),
}

/// The mathematical shape of a runtime value.
pub enum ValueV {
    Null,
    Undefined,
    Boolean(bool),
    Number(u64),
    Integer(i32),
    StringVal(Seq<u8>),
    Object(int),
    Function(int),
}

impl View for Value {
    type V = ValueV;

    open spec fn view(&self) -> ValueV {
        match self {
            Value::Null => ValueV::Null,
            Value::Undefined => ValueV::Undefined,
            Value::Boolean(b) => ValueV::Boolean(*b),
            Value::Number(n) => ValueV::Number(*n),
            Value::Integer(i) => ValueV::Integer(*i),
            Value::StringVal(s) => ValueV::StringVal(s@),
            Value::Object(id) => ValueV::Object(*id as int),
            Value::Function(id) => ValueV::Function(*id as int),
        }
    }
}

/// Copy a byte string.
pub fn dup_bytes(v: &Vec<u8>) -> (r: Vec<u8>)
    ensures
        r@ == v@,
{
    let mut r: Vec<u8> = Vec::new();
    let mut i: usize = 0;
    while i < v.len()
        invariant
            i <= v.len(),
            r@ == v@.subrange(0, i as int),
        decreases v.len() - i,
    {
        r.push(v[i]);
        i = i + 1;
        proof {
            assert(r@ =~= v@.subrange(0, i as int));
        }
    }
    proof {
        assert(r@ =~= v@);
    }
    r
}

impl Value {
    /// Copy a value; handles stay handles to the same object.
    pub fn duplicate(&self) -> (r: Value)
        ensures
            r@ == self@,
    {
        match self {
            Value::Null => Value::Null,
            Value::Undefined => Value::Undefined,
            Value::Boolean(b) => Value::Boolean(*b),
            Value::Number(n) => Value::Number(*n),
            Value::Integer(i) => Value::Integer(*i),
            Value::StringVal(s) => Value::StringVal(dup_bytes(s)),
            Value::Object(id) => Value::Object(*id),
            Value::Function(id) => Value::Function(*id),
        }
    }
}

/// Compare two byte strings.
pub fn bytes_eq(a: &Vec<u8>, b: &Vec<u8>) -> (r: bool)
    ensures
        r == (a@ == b@),
{
    if a.len() != b.len() {
        proof {
            assert(a@ != b@) by {
                assert(a@.len() != b@.len());
            }
        }
        return false;
    }
    let mut i: usize = 0;
    while i < a.len()
        invariant
            i <= a.len(),
            a@.len() == b@.len(),
            forall|j: int| 0 <= j < i ==> a@[j] == b@[j],
        decreases a.len() - i,
    {
        if a[i] != b[i] {
            proof {
                assert(a@[i as int] != b@[i as int]);
            }
            return false;
        }
        i = i + 1;
    }
    proof {
        assert(a@ =~= b@);
    }
    true
}

pub open spec fn lit_null() -> Seq<u8> {
    seq![110u8, 117u8, 108u8, 108u8]
}

pub open spec fn lit_undefined() -> Seq<u8> {
    seq![117u8, 110u8, 100u8, 101u8, 102u8, 105u8, 110u8, 101u8, 100u8]
}

pub open spec fn lit_true() -> Seq<u8> {
    seq![116u8, 114u8, 117u8, 101u8]
}

pub open spec fn lit_false() -> Seq<u8> {
    seq![102u8, 97u8, 108u8, 115u8, 101u8]
}

pub open spec fn lit_nan() -> Seq<u8> {
    seq![78u8, 97u8, 78u8]
}

pub open spec fn lit_infinity() -> Seq<u8> {
    seq![73u8, 110u8, 102u8, 105u8, 110u8, 105u8, 116u8, 121u8]
}

pub open spec fn lit_object_object() -> Seq<u8> {
    seq![
        91u8,
        111u8,
        98u8,
        106u8,
        101u8,
        99u8,
        116u8,
        32u8,
        79u8,
        98u8,
        106u8,
        101u8,
        99u8,
        116u8,
        93u8,
    ]
}

pub open spec fn lit_function() -> Seq<u8> {
    seq![102u8, 117u8, 110u8, 99u8, 116u8, 105u8, 111u8, 110u8]
}

/// Whether a value coerces to true: everything but Null, Undefined, false,
/// the zero and NaN numbers and the empty string.
pub open spec fn is_truthy(v: ValueV) -> bool {
    match v {
        ValueV::Null => false,
        ValueV::Undefined => false,
        ValueV::Boolean(b) => b,
        ValueV::Number(n) => !(d_is_nan(n) || d_is_zero(n)),
        ValueV::Integer(_) => true,
        ValueV::StringVal(s) => s.len() != 0,
        ValueV::Object(_) => true,
        ValueV::Function(_) => true,
    }
}

/// Boolean coercion.
pub fn is_true(v: &Value) -> (r: bool)
    ensures
        r == is_truthy(v@),
{
    match v {
        Value::Null => false,
        Value::Undefined => false,
        Value::Boolean(b) => *b,
        Value::Number(n) => {
            let e = (*n / 0x10_0000_0000_0000) % 0x800;
            let f = *n % 0x10_0000_0000_0000;
            !((e == 0x7ff && f != 0) || (e == 0 && f == 0))
        },
        Value::Integer(_) => true,
        Value::StringVal(s) => s.len() != 0,
        Value::Object(_) => true,
        Value::Function(_) => true,
    }
}

/// Equality of values: structural on primitives of one kind, numeric between
/// the two numeric kinds, handle identity on objects and functions. A NaN
/// equals nothing.
pub open spec fn val_eq(a: ValueV, b: ValueV) -> bool {
    match (a, b) {
        (ValueV::Null, ValueV::Null) => true,
        (ValueV::Undefined, ValueV::Undefined) => true,
        (ValueV::Boolean(x), ValueV::Boolean(y)) => x == y,
        (ValueV::Number(x), ValueV::Number(y)) => d_num_eq(x, y),
        (ValueV::Integer(x), ValueV::Integer(y)) => x == y,
        (ValueV::Number(x), ValueV::Integer(y)) => d_num_eq(x, bits_of_i53(y as int)),
        (ValueV::Integer(x), ValueV::Number(y)) => d_num_eq(bits_of_i53(x as int), y),
        (ValueV::StringVal(x), ValueV::StringVal(y)) => x == y,
        (ValueV::Object(x), ValueV::Object(y)) => x == y,
        (ValueV::Function(x), ValueV::Function(y)) => x == y,
        _ => false,
    }
}

/// Equality coercion.
pub fn value_eq(a: &Value, b: &Value) -> (r: bool)
    ensures
        r == val_eq(a@, b@),
{
    match (a, b) {
        (Value::Null, Value::Null) => true,
        (Value::Undefined, Value::Undefined) => true,
        (Value::Boolean(x), Value::Boolean(y)) => *x == *y,
        (Value::Number(x), Value::Number(y)) => num_eq_bits(*x, *y),
        (Value::Integer(x), Value::Integer(y)) => *x == *y,
        (Value::Number(x), Value::Integer(y)) => num_eq_bits(*x, bits_of_int53(*y as i64)),
        (Value::Integer(x), Value::Number(y)) => num_eq_bits(bits_of_int53(*x as i64), *y),
        (Value::StringVal(x), Value::StringVal(y)) => bytes_eq(x, y),
        (Value::Object(x), Value::Object(y)) => *x == *y,
        (Value::Function(x), Value::Function(y)) => *x == *y,
        _ => false,
    }
}

/// How many bytes of the string are a dot.
pub open spec fn count_dots(s: Seq<u8>) -> nat
    decreases s.len(),
{
    if s.len() == 0 {
        0
    } else {
        count_dots(s.drop_last()) + if s.last() == 46 {
            1nat
        } else {
            0nat
        }
    }
}

/// A numeric string body: nonempty, only digits and dots, at most one dot,
/// at least one digit.
pub open spec fn num_body_ok(s: Seq<u8>) -> bool {
    &&& s.len() > 0
    &&& forall|i: int| 0 <= i < s.len() ==> (48 <= #[trigger] s[i] <= 57 || s[i] == 46)
    &&& count_dots(s) <= 1
    &&& count_dots(s) < s.len()
}

/// Put a valid numeric body into the form the decimal parser accepts: a
/// leading or trailing dot gains or loses nothing.
pub open spec fn norm_num(s: Seq<u8>) -> Seq<u8> {
    let a = if s[0] == 46 {
        seq![48u8] + s
    } else {
        s
    };
    if a.last() == 46 {
        a.drop_last()
    } else {
        a
    }
}

/// Every all-digit string has a value.
pub proof fn lemma_all_digits_some(s: Seq<u8>)
    requires
        forall|i: int| 0 <= i < s.len() ==> 48 <= #[trigger] s[i] <= 57,
    ensures
        digits_val(s, 10) is Some,
    decreases s.len(),
{
    if s.len() > 0 {
        lemma_all_digits_some(s.drop_last());
        assert(48 <= s[s.len() - 1] <= 57);
    }
}

/// The number a string denotes: an optional sign, digits, an optional
/// fraction; anything else is NaN.
pub open spec fn str_to_num(s: Seq<u8>) -> u64 {
    let neg = s.len() > 0 && s[0] == 45;
    let t = if s.len() > 0 && (s[0] == 45 || s[0] == 43) {
        s.skip(1)
    } else {
        s
    };
    if !num_body_ok(t) {
        NAN_BITS
    } else {
        let core = if count_dots(t) == 0 {
            match digits_val(t, 10) {
                Some(v) => if v < 0x20_0000_0000_0000 {
                    bits_of_nat53(v)
                } else {
                    dbl_of_dec_str(norm_num(t))
                },
                None => NAN_BITS,
            }
        } else {
            dbl_of_dec_str(norm_num(t))
        };
        if neg {
            d_neg(core)
        } else {
            core
        }
    }
}

/// Numeric coercion of a byte string.
pub fn str_to_num_exec(s: &Vec<u8>) -> (r: u64)
    ensures
        r == str_to_num(s@),
{
    let mut neg = false;
    let mut start: usize = 0;
    if s.len() > 0 && (s[0] == 45 || s[0] == 43) {
        neg = s[0] == 45;
        start = 1;
    }
    // copy the body and scan it
    let mut t: Vec<u8> = Vec::new();
    let mut dots: u64 = 0;
    let mut ok = true;
    let mut i: usize = start;
    while i < s.len()
        invariant
            start <= i <= s.len(),
            t@ == s@.subrange(start as int, i as int),
            dots as nat == count_dots(t@),
            ok == (forall|j: int|
                0 <= j < t@.len() ==> (48 <= #[trigger] t@[j] <= 57 || t@[j] == 46)),
            dots <= i,
        decreases s.len() - i,
    {
        let c = s[i];
        let ghost told = t@;
        let ghost okold = ok;
        t.push(c);
        proof {
            assert(t@.drop_last() =~= told);
            assert(forall|j: int| 0 <= j < told.len() ==> t@[j] == told[j]);
        }
        if c == 46 {
            dots = dots + 1;
        } else if !(48 <= c && c <= 57) {
            ok = false;
        }
        i = i + 1;
        proof {
            assert(t@ =~= s@.subrange(start as int, i as int));
            if okold && (48 <= c <= 57 || c == 46) {
                assert forall|j: int| 0 <= j < t@.len() implies (48 <= #[trigger] t@[j] <= 57
                    || t@[j] == 46) by {
                    if j < told.len() {
                        assert(t@[j] == told[j]);
                    } else {
                        assert(t@[j] == c);
                    }
                }
            } else if okold {
                assert(!(48 <= t@[t@.len() - 1] <= 57 || t@[t@.len() - 1] == 46));
            } else {
                let j0 = choose|j: int|
                    !(0 <= j < told.len() ==> (48 <= #[trigger] told[j] <= 57 || told[j] == 46));
                assert(0 <= j0 < told.len());
                assert(t@[j0] == told[j0]);
                assert(!(48 <= t@[j0] <= 57 || t@[j0] == 46));
            }
        }
    }
    proof {
        if start == 0 {
            assert(t@ =~= s@);
        } else {
            assert(t@ =~= s@.skip(1));
        }
    }
    if !(ok && t.len() > 0 && dots <= 1 && (dots as usize) < t.len()) {
        proof {
            assert(!num_body_ok(t@));
        }
        return NAN_BITS;
    }
    proof {
        assert(num_body_ok(t@));
    }
    let core: u64 = if dots == 0 {
        proof {
            assert(forall|j: int| 0 <= j < t@.len() ==> 48 <= #[trigger] t@[j] <= 57) by {
                assert(count_dots(t@) == 0);
                assert forall|j: int| 0 <= j < t@.len() implies 48 <= #[trigger] t@[j] <= 57 by {
                    if t@[j] == 46 {
                        lemma_dot_counted(t@, j);
                    }
                }
            }
            lemma_all_digits_some(t@);
        }
        match parse_digits(&t, 10) {
            Some(v) => {
                if v < 0x20_0000_0000_0000 {
                    bits_of_u53(v as u64)
                } else {
                    let u = normalize_num(&t);
                    of_dec_str_bits(&u)
                }
            },
            None => {
                let u = normalize_num(&t);
                of_dec_str_bits(&u)
            },
        }
    } else {
        let u = normalize_num(&t);
        of_dec_str_bits(&u)
    };
    if neg {
        dbl_neg_bits(core)
    } else {
        core
    }
}

/// A dot in an all-counted string is counted.
proof fn lemma_dot_counted(s: Seq<u8>, j: int)
    requires
        0 <= j < s.len(),
        s[j] == 46,
    ensures
        count_dots(s) >= 1,
    decreases s.len(),
{
    if j == s.len() - 1 {
    } else {
        lemma_dot_counted(s.drop_last(), j);
    }
}

/// Build the normalized form of a valid numeric body.
pub(crate) fn normalize_num(t: &Vec<u8>) -> (u: Vec<u8>)
    requires
        t@.len() > 0,
    ensures
        u@ == norm_num(t@),
{
    let mut a: Vec<u8> = Vec::new();
    if t[0] == 46 {
        a.push(48);
    }
    let mut i: usize = 0;
    let ghost pre: Seq<u8> = if t@[0] == 46 {
        seq![48u8]
    } else {
        Seq::empty()
    };
    while i < t.len()
        invariant
            i <= t.len(),
            a@ == pre + t@.subrange(0, i as int),
        decreases t.len() - i,
    {
        a.push(t[i]);
        i = i + 1;
        proof {
            assert(a@ =~= pre + t@.subrange(0, i as int));
        }
    }
    proof {
        if t@[0] == 46 {
            assert(a@ =~= seq![48u8] + t@);
        } else {
            assert(a@ =~= t@);
        }
    }
    if a[a.len() - 1] == 46 {
        let _ = a.pop();
        proof {
            assert(a@ =~= norm_num(t@));
        }
    }
    a
}

/// Numeric coercion: strings parse, booleans and null are small integers,
/// undefined and the reference kinds are NaN.
pub open spec fn to_num_v(v: ValueV) -> u64 {
    match v {
        ValueV::Null => 0,
        ValueV::Undefined => NAN_BITS,
        ValueV::Boolean(b) => if b {
            bits_of_nat53(1)
        } else {
            0
        },
        ValueV::Number(n) => n,
        ValueV::Integer(i) => bits_of_i53(i as int),
        ValueV::StringVal(s) => str_to_num(s),
        ValueV::Object(_) => NAN_BITS,
        ValueV::Function(_) => NAN_BITS,
    }
}

/// Numeric coercion.
pub fn to_number(v: &Value) -> (r: u64)
    ensures
        r == to_num_v(v@),
{
    match v {
        Value::Null => 0,
        Value::Undefined => NAN_BITS,
        Value::Boolean(b) => if *b {
            bits_of_u53(1)
        } else {
            0
        },
        Value::Number(n) => *n,
        Value::Integer(i) => bits_of_int53(*i as i64),
        Value::StringVal(s) => str_to_num_exec(s),
        Value::Object(_) => NAN_BITS,
        Value::Function(_) => NAN_BITS,
    }
}

/// The decimal rendering of a number encoding: NaN and the infinities by
/// name, integral values in plain decimal, anything else in the software
/// float's round-trippable decimal form.
pub open spec fn num_to_str(b: u64) -> Seq<u8> {
    if d_is_nan(b) {
        lit_nan()
    } else if d_is_special(b) {
        if d_sign(b) {
            seq![45u8] + lit_infinity()
        } else {
            lit_infinity()
        }
    } else if d_is_int(b) && d_eexp(b) <= 1085 {
        if d_int_mag(b) == 0 {
            seq![48u8]
        } else if d_sign(b) {
            seq![45u8] + dec_str(d_int_mag(b))
        } else {
            dec_str(d_int_mag(b))
        }
    } else {
        dec_str_of_dbl(b)
    }
}

/// Render a number encoding.
pub fn num_to_string(b: u64) -> (r: Vec<u8>)
    ensures
        r@ == num_to_str(b),
{
    let e = (b / 0x10_0000_0000_0000) % 0x800;
    let f = b % 0x10_0000_0000_0000;
    let s = sign_bits(b);
    if e == 0x7ff {
        let mut r: Vec<u8> = Vec::new();
        if f != 0 {
            r.push(78);
            r.push(97);
            r.push(78);
            proof {
                assert(r@ =~= lit_nan());
            }
            return r;
        }
        if s {
            r.push(45);
        }
        r.push(73);
        r.push(110);
        r.push(102);
        r.push(105);
        r.push(110);
        r.push(105);
        r.push(116);
        r.push(121);
        proof {
            if s {
                assert(r@ =~= seq![45u8] + lit_infinity());
            } else {
                assert(r@ =~= lit_infinity());
            }
        }
        return r;
    }
    match int_val_of_bits(b) {
        Some((sg, mag)) => {
            let mut r: Vec<u8> = Vec::new();
            if mag == 0 {
                r.push(48);
                proof {
                    assert(r@ =~= seq![48u8]);
                }
                return r;
            }
            if sg {
                r.push(45);
            }
            push_dec(mag, &mut r);
            proof {
                if sg {
                    assert(r@ =~= seq![45u8] + dec_str(d_int_mag(b)));
                } else {
                    assert(r@ =~= dec_str(d_int_mag(b)));
                }
            }
            r
        },
        None => dec_str_of_bits(b),
    }
}

/// The decimal rendering of a 32-bit integer value.
pub open spec fn int_to_str(i: i32) -> Seq<u8> {
    if i < 0 {
        seq![45u8] + dec_str((-(i as int)) as nat)
    } else {
        dec_str(i as nat)
    }
}

/// Render a 32-bit integer.
pub fn int_to_string(i: i32) -> (r: Vec<u8>)
    ensures
        r@ == int_to_str(i),
{
    let mut r: Vec<u8> = Vec::new();
    if i < 0 {
        r.push(45);
        let m = -(i as i64);
        push_dec(m as u64, &mut r);
        proof {
            assert(r@ =~= seq![45u8] + dec_str((-(i as int)) as nat));
        }
    } else {
        push_dec(i as u64, &mut r);
        proof {
            assert(r@ =~= dec_str(i as nat));
        }
    }
    r
}

/// String coercion: primitives by their names, numbers in decimal, objects
/// as `[object Object]`, functions as `function`.
pub open spec fn to_str_v(v: ValueV) -> Seq<u8> {
    match v {
        ValueV::Null => lit_null(),
        ValueV::Undefined => lit_undefined(),
        ValueV::Boolean(b) => if b {
            lit_true()
        } else {
            lit_false()
        },
        ValueV::Number(n) => num_to_str(n),
        ValueV::Integer(i) => int_to_str(i),
        ValueV::StringVal(s) => s,
        ValueV::Object(_) => lit_object_object(),
        ValueV::Function(_) => lit_function(),
    }
}

/// String coercion.
pub fn to_string(v: &Value) -> (r: Vec<u8>)
    ensures
        r@ == to_str_v(v@),
{
    match v {
        Value::Null => {
            let mut r: Vec<u8> = Vec::new();
            r.push(110);
            r.push(117);
            r.push(108);
            r.push(108);
            proof {
                assert(r@ =~= lit_null());
            }
            r
        },
        Value::Undefined => {
            let mut r: Vec<u8> = Vec::new();
            r.push(117);
            r.push(110);
            r.push(100);
            r.push(101);
            r.push(102);
            r.push(105);
            r.push(110);
            r.push(101);
            r.push(100);
            proof {
                assert(r@ =~= lit_undefined());
            }
            r
        },
        Value::Boolean(b) => {
            let mut r: Vec<u8> = Vec::new();
            if *b {
                r.push(116);
                r.push(114);
                r.push(117);
                r.push(101);
                proof {
                    assert(r@ =~= lit_true());
                }
            } else {
                r.push(102);
                r.push(97);
                r.push(108);
                r.push(115);
                r.push(101);
                proof {
                    assert(r@ =~= lit_false());
                }
            }
            r
        },
        Value::Number(n) => num_to_string(*n),
        Value::Integer(i) => int_to_string(*i),
        Value::StringVal(s) => dup_bytes(s),
        Value::Object(_) => {
            let mut r: Vec<u8> = Vec::new();
            r.push(91);
            r.push(111);
            r.push(98);
            r.push(106);
            r.push(101);
            r.push(99);
            r.push(116);
            r.push(32);
            r.push(79);
            r.push(98);
            r.push(106);
            r.push(101);
            r.push(99);
            r.push(116);
            r.push(93);
            proof {
                assert(r@ =~= lit_object_object());
            }
            r
        },
        Value::Function(_) => {
            let mut r: Vec<u8> = Vec::new();
            r.push(102);
            r.push(117);
            r.push(110);
            r.push(99);
            r.push(116);
            r.push(105);
            r.push(111);
            r.push(110);
            proof {
                assert(r@ =~= lit_function());
            }
            r
        },
    }
}

/// The numeric operators. `+` concatenates when either side is a string;
/// the rest coerce both sides to numbers and apply the IEEE-754 operation;
/// `%` is the truncated-division remainder.
pub open spec fn num_op_v(op: NumOp, a: ValueV, b: ValueV) -> ValueV {
    match op {
        NumOp::OpAdd => if (a matches ValueV::StringVal(_)) || (b matches ValueV::StringVal(_)) {
            ValueV::StringVal(to_str_v(a) + to_str_v(b))
        } else {
            ValueV::Number(dbl_add(to_num_v(a), to_num_v(b)))
        },
        NumOp::OpSub => ValueV::Number(dbl_sub(to_num_v(a), to_num_v(b))),
        NumOp::OpMul => ValueV::Number(dbl_mul(to_num_v(a), to_num_v(b))),
        NumOp::OpDiv => ValueV::Number(dbl_div(to_num_v(a), to_num_v(b))),
        NumOp::OpMod => ValueV::Number(dbl_fmod(to_num_v(a), to_num_v(b))),
    }
}

/// Apply a numeric operator.
pub fn apply_num_op(op: NumOp, a: &Value, b: &Value) -> (r: Value)
    ensures
        r@ == num_op_v(op, a@, b@),
{
    match op {
        NumOp::OpAdd => {
            let a_is_str = matches!(a, Value::StringVal(_));
            let b_is_str = matches!(b, Value::StringVal(_));
            if a_is_str || b_is_str {
                let mut s = to_string(a);
                let t = to_string(b);
                let mut j: usize = 0;
                while j < t.len()
                    invariant
                        j <= t.len(),
                        s@ == to_str_v(a@) + t@.subrange(0, j as int),
                        t@ == to_str_v(b@),
                    decreases t.len() - j,
                {
                    s.push(t[j]);
                    j = j + 1;
                    proof {
                        assert(s@ =~= to_str_v(a@) + t@.subrange(0, j as int));
                    }
                }
                proof {
                    assert(s@ =~= to_str_v(a@) + to_str_v(b@));
                }
                Value::StringVal(s)
            } else {
                Value::Number(add_bits(to_number(a), to_number(b)))
            }
        },
        NumOp::OpSub => Value::Number(sub_bits(to_number(a), to_number(b))),
        NumOp::OpMul => Value::Number(mul_bits(to_number(a), to_number(b))),
        NumOp::OpDiv => Value::Number(div_bits(to_number(a), to_number(b))),
        NumOp::OpMod => Value::Number(fmod_bits(to_number(a), to_number(b))),
    }
}

/// The bitwise operators: both sides through ToInt32, the shifts masked to
/// five bits, an Integer out.
pub open spec fn bit_op_v(op: BitOp, a: ValueV, b: ValueV) -> ValueV {
    let x = d_to_int32(to_num_v(a)) as i32;
    let y = d_to_int32(to_num_v(b)) as i32;
    match op {
        BitOp::BitAnd => ValueV::Integer(x & y),
        BitOp::BitOr => ValueV::Integer(x | y),
        BitOp::BitXor => ValueV::Integer(x ^ y),
        BitOp::BitShl => ValueV::Integer(x << (y & 31)),
        BitOp::BitShr => ValueV::Integer(x >> (y & 31)),
    }
}

/// Apply a bitwise operator.
pub fn apply_bit_op(op: BitOp, a: &Value, b: &Value) -> (r: Value)
    ensures
        r@ == bit_op_v(op, a@, b@),
{
    let x = to_i32_bits(to_number(a));
    let y = to_i32_bits(to_number(b));
    proof {
        assert(x == d_to_int32(to_num_v(a@)) as i32);
        assert(y == d_to_int32(to_num_v(b@)) as i32);
    }
    match op {
        BitOp::BitAnd => Value::Integer(x & y),
        BitOp::BitOr => Value::Integer(x | y),
        BitOp::BitXor => Value::Integer(x ^ y),
        BitOp::BitShl => {
            let sh = y & 31;
            proof {
                assert(0 <= (y & 31) < 32) by (bit_vector);
            }
            Value::Integer(x << sh)
        },
        BitOp::BitShr => {
            let sh = y & 31;
            proof {
                assert(0 <= (y & 31) < 32) by (bit_vector);
            }
            Value::Integer(x >> sh)
        },
    }
}

/// The comparison operators: equality by value equality, order by numeric
/// coercion and IEEE-754 comparison.
pub open spec fn comp_op_v(op: CompOp, a: ValueV, b: ValueV) -> ValueV {
    match op {
        CompOp::CompEqual => ValueV::Boolean(val_eq(a, b)),
        CompOp::CompNotEqual => ValueV::Boolean(!val_eq(a, b)),
        CompOp::CompLessThan => ValueV::Boolean(d_lt(to_num_v(a), to_num_v(b))),
        CompOp::CompGreaterThan => ValueV::Boolean(d_lt(to_num_v(b), to_num_v(a))),
        CompOp::CompLessThanOrEqual => ValueV::Boolean(d_le(to_num_v(a), to_num_v(b))),
        CompOp::CompGreaterThanOrEqual => ValueV::Boolean(d_le(to_num_v(b), to_num_v(a))),
    }
}

/// Apply a comparison operator.
pub fn apply_comp_op(op: CompOp, a: &Value, b: &Value) -> (r: Value)
    ensures
        r@ == comp_op_v(op, a@, b@),
{
    match op {
        CompOp::CompEqual => Value::Boolean(value_eq(a, b)),
        CompOp::CompNotEqual => Value::Boolean(!value_eq(a, b)),
        CompOp::CompLessThan => Value::Boolean(lt_bits(to_number(a), to_number(b))),
        CompOp::CompGreaterThan => Value::Boolean(lt_bits(to_number(b), to_number(a))),
        CompOp::CompLessThanOrEqual => Value::Boolean(le_bits(to_number(a), to_number(b))),
        CompOp::CompGreaterThanOrEqual => Value::Boolean(le_bits(to_number(b), to_number(a))),
    }
}

} // verus!
