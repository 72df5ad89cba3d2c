//! Bit-level model of IEEE-754 binary64 numbers.
//!
//! The runtime `Number` value of the language is carried everywhere as its
//! 64-bit encoding (`u64`), so that the value model, the lexer and the
//! evaluator can state and prove exact facts about numbers without any
//! floating-point type. A number's fields (sign, exponent, fraction) and its
//! mathematical value are defined here by plain integer arithmetic; rounding
//! arithmetic itself is delegated to a software IEEE-754 implementation
//! behind the trusted wrappers at the bottom of this file.
use rustc_apfloat::Float;
use vstd::prelude::*;
use vstd::arithmetic::power2::*;
use vstd::arithmetic::div_mod::*;
use vstd::arithmetic::mul::*;

verus! {

/// Bits of the canonical quiet NaN.
pub const NAN_BITS: u64 = 0x7ff8_0000_0000_0000;

/// Bits of positive infinity.
pub const INF_BITS: u64 = 0x7ff0_0000_0000_0000;

/// Bits of negative infinity.
pub const NEG_INF_BITS: u64 = 0xfff0_0000_0000_0000;

/// The sign bit of an encoded double.
pub open spec fn d_sign(b: u64) -> bool {
    b as nat / 0x8000_0000_0000_0000 == 1
}

/// The 11-bit biased exponent field.
pub open spec fn d_exp(b: u64) -> nat {
    (b as nat / 0x10_0000_0000_0000) % 0x800
}

/// The 52-bit fraction field.
pub open spec fn d_frac(b: u64) -> nat {
    b as nat % 0x10_0000_0000_0000
}

/// The exponent field reserved for infinities and NaNs.
pub open spec fn d_is_special(b: u64) -> bool {
    d_exp(b) == 0x7ff
}

pub open spec fn d_is_nan(b: u64) -> bool {
    d_is_special(b) && d_frac(b) != 0
}

pub open spec fn d_is_inf(b: u64) -> bool {
    d_is_special(b) && d_frac(b) == 0
}

pub open spec fn d_is_zero(b: u64) -> bool {
    d_exp(b) == 0 && d_frac(b) == 0
}

/// The full significand: the fraction with the implicit leading bit of a
/// normal number made explicit.
pub open spec fn d_mant(b: u64) -> nat {
    if d_exp(b) == 0 {
        d_frac(b)
    } else {
        0x10_0000_0000_0000 + d_frac(b)
    }
}

/// The effective exponent: subnormals share the exponent of the smallest
/// normal numbers.
pub open spec fn d_eexp(b: u64) -> nat {
    if d_exp(b) == 0 {
        1
    } else {
        d_exp(b)
    }
}

/// The magnitude of the encoded value, scaled by 2^1075 so that it is an
/// integer. An infinity scales to 2^52 * 2^2047, above every finite value.
pub open spec fn d_scaled_mag(b: u64) -> nat {
    d_mant(b) * pow2(d_eexp(b))
}

/// The encoded value scaled by 2^1075; meaningful unless `b` is a NaN.
pub open spec fn d_scaled(b: u64) -> int {
    if d_sign(b) {
        -(d_scaled_mag(b) as int)
    } else {
        d_scaled_mag(b) as int
    }
}

/// Whether `b` encodes a finite number of integral value.
pub open spec fn d_is_int(b: u64) -> bool {
    !d_is_special(b) && d_scaled_mag(b) % pow2(1075) == 0
}

/// The magnitude of an integral value.
pub open spec fn d_int_mag(b: u64) -> nat {
    d_scaled_mag(b) / pow2(1075)
}

/// The value of an integral double.
pub open spec fn d_int_val(b: u64) -> int {
    if d_sign(b) {
        -(d_int_mag(b) as int)
    } else {
        d_int_mag(b) as int
    }
}

/// The finite value truncated toward zero; NaNs and infinities go to 0.
pub open spec fn d_trunc(b: u64) -> int {
    if d_is_special(b) {
        0
    } else if d_sign(b) {
        -((d_scaled_mag(b) / pow2(1075)) as int)
    } else {
        (d_scaled_mag(b) / pow2(1075)) as int
    }
}

/// The ToInt32 coercion used by the bitwise operators: truncate toward zero,
/// reduce modulo 2^32, reinterpret as a signed 32-bit value.
pub open spec fn d_to_int32(b: u64) -> int {
    if d_is_special(b) {
        0
    } else {
        let u = d_trunc(b) % 0x1_0000_0000;
        if u >= 0x8000_0000 {
            u - 0x1_0000_0000
        } else {
            u
        }
    }
}

/// IEEE-754 `<` on encodings: false whenever a NaN is involved, and the two
/// zeros are equal.
pub open spec fn d_lt(a: u64, b: u64) -> bool {
    !d_is_nan(a) && !d_is_nan(b) && d_scaled(a) < d_scaled(b)
}

/// IEEE-754 `<=` on encodings.
pub open spec fn d_le(a: u64, b: u64) -> bool {
    !d_is_nan(a) && !d_is_nan(b) && d_scaled(a) <= d_scaled(b)
}

/// IEEE-754 `==` on encodings: the two zeros are equal, NaN equals nothing.
pub open spec fn d_num_eq(a: u64, b: u64) -> bool {
    !d_is_nan(a) && !d_is_nan(b) && d_scaled(a) == d_scaled(b)
}

/// 2^e as a machine word.
pub fn pow2_u64(e: u64) -> (r: u64)
    requires
        e < 64,
    ensures
        r as nat == pow2(e as nat),
{
    let mut r: u64 = 1;
    let mut i: u64 = 0;
    proof {
        lemma2_to64();
    }
    while i < e
        invariant
            i <= e < 64,
            r as nat == pow2(i as nat),
        decreases e - i,
    {
        proof {
            lemma2_to64();
            lemma2_to64_rest();
            if (i as nat) < 63 {
                lemma_pow2_strictly_increases(i as nat, 63);
            }
            lemma_pow2_unfold((i + 1) as nat);
        }
        r = r * 2;
        i = i + 1;
    }
    r
}

/// The fields of `q * 2^52 + f`, for q < 2^11 and f < 2^52.
proof fn lemma_fields_of_composed(q: nat, f: nat)
    requires
        q < 0x800,
        f < 0x10_0000_0000_0000,
    ensures
        q * 0x10_0000_0000_0000 + f < 0x8000_0000_0000_0000,
        d_exp(((q * 0x10_0000_0000_0000 + f) as u64)) == q,
        d_frac(((q * 0x10_0000_0000_0000 + f) as u64)) == f,
        !d_sign(((q * 0x10_0000_0000_0000 + f) as u64)),
{
    assert(q * 0x10_0000_0000_0000 <= 0x7ff * 0x10_0000_0000_0000) by (nonlinear_arith)
        requires
            q <= 0x7ff,
    ;
    let b = q * 0x10_0000_0000_0000 + f;
    lemma_fundamental_div_mod_converse(b as int, 0x10_0000_0000_0000, q as int, f as int);
    lemma_small_mod(q, 0x800);
    lemma_basic_div(b as int, 0x8000_0000_0000_0000);
}

/// The floor of the base-2 logarithm.
pub open spec fn lg2(n: nat) -> nat
    decreases n,
{
    if n < 2 {
        0
    } else {
        1 + lg2(n / 2)
    }
}

/// `lg2` brackets its argument between consecutive powers of two.
pub proof fn lemma_lg2_bounds(n: nat)
    requires
        n >= 1,
    ensures
        pow2(lg2(n)) <= n < pow2(lg2(n) + 1),
    decreases n,
{
    if n < 2 {
        lemma2_to64();
    } else {
        lemma_lg2_bounds(n / 2);
        lemma_pow2_unfold(lg2(n));
        lemma_pow2_unfold(lg2(n) + 1);
        lemma_fundamental_div_mod(n as int, 2);
    }
}

/// The exact encoding of a nonnegative integer below 2^53.
pub open spec fn bits_of_nat53(n: nat) -> u64 {
    if n == 0 {
        0
    } else {
        (((1023 + lg2(n)) * 0x10_0000_0000_0000 + (n * pow2((52 - lg2(n)) as nat)
            - 0x10_0000_0000_0000)) as u64)
    }
}

/// The exact encoding of an integer of magnitude below 2^53.
pub open spec fn bits_of_i53(v: int) -> u64 {
    if v >= 0 {
        bits_of_nat53(v as nat)
    } else {
        (bits_of_nat53((-v) as nat) + 0x8000_0000_0000_0000) as u64
    }
}

/// `bits_of_nat53` is what it claims: an integral encoding of its argument.
pub proof fn lemma_bits_of_nat53(n: nat)
    requires
        n < 0x20_0000_0000_0000,
    ensures
        d_is_int(bits_of_nat53(n)),
        d_int_val(bits_of_nat53(n)) == n,
        !d_sign(bits_of_nat53(n)),
        bits_of_nat53(n) < 0x8000_0000_0000_0000,
        d_eexp(bits_of_nat53(n)) <= 1075,
{
    lemma2_to64();
    lemma2_to64_rest();
    if n == 0 {
        lemma_pow2_pos(1075);
        assert(d_exp(0u64) == 0 && d_frac(0u64) == 0);
        assert(d_scaled_mag(0u64) == 0 * pow2(1));
        lemma_mul_basics(pow2(1) as int);
        assert((0int) % (pow2(1075) as int) == 0) by {
            lemma_small_mod(0, pow2(1075));
        }
        lemma_div_of0(pow2(1075) as int);
    } else {
        let k = lg2(n);
        lemma_lg2_bounds(n);
        if k > 53 {
            lemma_pow2_strictly_increases(53, k);
        }
        assert(k <= 52);
        let sh = (52 - k) as nat;
        lemma_pow2_adds(k, sh);
        assert(n * pow2(sh) < 0x20_0000_0000_0000 && n * pow2(sh) >= 0x10_0000_0000_0000)
            by (nonlinear_arith)
            requires
                pow2(k) <= n,
                n < 2 * pow2(k),
                pow2(k) * pow2(sh) == 0x10_0000_0000_0000,
                pow2(sh) > 0,
        {
            lemma_pow2_pos(sh);
        }
        let mant = n * pow2(sh);
        let e = 1023 + k;
        lemma_fields_of_composed(e, (mant - 0x10_0000_0000_0000) as nat);
        let b = bits_of_nat53(n);
        assert(b as nat == e * 0x10_0000_0000_0000 + (mant - 0x10_0000_0000_0000));
        assert(d_exp(b) == e && d_frac(b) == (mant - 0x10_0000_0000_0000) as nat);
        assert(d_mant(b) == mant);
        assert(d_eexp(b) == e);
        lemma_pow2_adds(sh, (1023 + k) as nat);
        assert(d_scaled_mag(b) == (n * pow2(sh)) * pow2((1023 + k) as nat));
        lemma_mul_is_associative(n as int, pow2(sh) as int, pow2((1023 + k) as nat) as int);
        assert(d_scaled_mag(b) == n * pow2(1075));
        lemma_pow2_pos(1075);
        lemma_mod_multiples_basic(n as int, pow2(1075) as int);
        lemma_div_by_multiple(n as int, pow2(1075) as int);
    }
}

/// `bits_of_i53` encodes its argument, with the sign in the sign bit; the
/// zero of either sign of argument is the positive zero.
pub proof fn lemma_bits_of_i53(v: int)
    requires
        -0x20_0000_0000_0000 < v < 0x20_0000_0000_0000,
    ensures
        d_is_int(bits_of_i53(v)),
        d_int_val(bits_of_i53(v)) == v,
        d_sign(bits_of_i53(v)) == (v < 0),
{
    if v >= 0 {
        lemma_bits_of_nat53(v as nat);
    } else {
        let lo = bits_of_nat53((-v) as nat);
        lemma_bits_of_nat53((-v) as nat);
        lemma_flip_fields(lo as nat);
        let b = bits_of_i53(v);
        assert(d_exp(b) == d_exp(lo) && d_frac(b) == d_frac(lo) && d_sign(b));
        assert(d_scaled_mag(b) == d_scaled_mag(lo));
        assert(d_int_mag(b) == -v);
    }
}

/// Encode a nonnegative integer below 2^53 exactly.
pub fn bits_of_u53(n: u64) -> (b: u64)
    requires
        n < 0x20_0000_0000_0000,
    ensures
        b == bits_of_nat53(n as nat),
        d_is_int(b),
        d_int_val(b) == n as int,
        !d_sign(b),
        b < 0x8000_0000_0000_0000,
        d_eexp(b) <= 1075,
{
    proof {
        lemma2_to64();
        lemma2_to64_rest();
    }
    if n == 0 {
        proof {
            lemma_pow2_pos(1075);
            assert(d_exp(0u64) == 0 && d_frac(0u64) == 0);
            assert(d_scaled_mag(0u64) == 0 * pow2(1));
            lemma_mul_basics(pow2(1) as int);
            lemma_mod_self_0(pow2(1075) as int);
            assert((0int) % (pow2(1075) as int) == 0) by {
                lemma_small_mod(0, pow2(1075));
            }
            lemma_div_of0(pow2(1075) as int);
        }
        return 0;
    }
    // Find k with 2^k <= n < 2^(k+1).
    let mut k: u64 = 0;
    let mut p: u64 = 1;
    while 2 * p <= n
        invariant
            n < 0x20_0000_0000_0000,
            p as nat == pow2(k as nat),
            p <= n,
            k < 64,
        decreases n - p,
    {
        proof {
            lemma2_to64();
            lemma2_to64_rest();
            if (k as nat) + 1 < 64 {
                lemma_pow2_strictly_increases((k + 1) as nat, 64);
            }
            lemma_pow2_unfold((k + 1) as nat);
        }
        p = 2 * p;
        k = k + 1;
    }
    proof {
        // the loop found exactly lg2(n)
        lemma_lg2_bounds(n as nat);
        let j = lg2(n as nat);
        if j < k as nat {
            if j + 1 < k as nat {
                lemma_pow2_strictly_increases(j + 1, k as nat);
            }
            assert(false);
        }
        if j > k as nat {
            if k as nat + 1 < j {
                lemma_pow2_strictly_increases(k as nat + 1, j);
            }
            lemma_pow2_unfold(k as nat + 1);
            assert(false);
        }
        assert(k as nat == lg2(n as nat));
        if k > 53 {
            lemma_pow2_strictly_increases(53, k as nat);
        }
        assert(k <= 52);
    }
    let sh = 52 - k;
    let q = pow2_u64(sh);
    proof {
        lemma_pow2_adds(k as nat, sh as nat);
        assert((n as nat) * (q as nat) < 0x20_0000_0000_0000 && (n as nat) * (q as nat)
            >= 0x10_0000_0000_0000) by (nonlinear_arith)
            requires
                p as nat == pow2(k as nat),
                p <= n,
                (n as nat) < 2 * (p as nat),
                q as nat == pow2(sh as nat),
                (p as nat) * (q as nat) == 0x10_0000_0000_0000,
        ;
    }
    let mant = n * q;
    let e = 1023 + k;
    proof {
        lemma_fields_of_composed(e as nat, (mant - 0x10_0000_0000_0000) as nat);
    }
    let b = e * 0x10_0000_0000_0000 + (mant - 0x10_0000_0000_0000);
    proof {
        assert(b == bits_of_nat53(n as nat));
        lemma_bits_of_nat53(n as nat);
    }
    b
}

/// Encode an integer of magnitude below 2^53 exactly.
pub fn bits_of_int53(v: i64) -> (b: u64)
    requires
        -0x20_0000_0000_0000 < v < 0x20_0000_0000_0000,
    ensures
        b == bits_of_i53(v as int),
        d_is_int(b),
        d_int_val(b) == v as int,
{
    proof {
        lemma_bits_of_i53(v as int);
    }
    if v >= 0 {
        bits_of_u53(v as u64)
    } else {
        let lo = bits_of_u53((-v) as u64);
        lo + 0x8000_0000_0000_0000
    }
}

/// The exponent and fraction fields of `lo` and of `lo + 2^63` agree, for
/// lo < 2^63.
proof fn lemma_flip_fields(lo: nat)
    requires
        lo < 0x8000_0000_0000_0000,
    ensures
        d_exp(((lo + 0x8000_0000_0000_0000) as u64)) == d_exp((lo as u64)),
        d_frac(((lo + 0x8000_0000_0000_0000) as u64)) == d_frac((lo as u64)),
        d_sign(((lo + 0x8000_0000_0000_0000) as u64)),
        !d_sign((lo as u64)),
{
    let hi = lo + 0x8000_0000_0000_0000;
    assert(hi == 0x10_0000_0000_0000 * 0x800 + lo);
    // fraction field
    lemma_mod_multiples_vanish(0x800, lo as int, 0x10_0000_0000_0000);
    // exponent field: hi / 2^52 == 0x800 + lo / 2^52
    lemma_hoist_over_denominator(lo as int, 0x800, 0x10_0000_0000_0000);
    assert(hi as int / 0x10_0000_0000_0000 == lo as int / 0x10_0000_0000_0000 + 0x800);
    lemma_mod_multiples_vanish(1, lo as int / 0x10_0000_0000_0000, 0x800);
    // sign field
    lemma_basic_div(lo as int, 0x8000_0000_0000_0000);
    lemma_div_multiples_vanish_fancy(1, lo as int, 0x8000_0000_0000_0000);
    assert(hi as int == 0x8000_0000_0000_0000 * 1 + lo);
}

/// The sign flag is set exactly on the upper half of the encoding space.
proof fn lemma_sign_ge(b: u64)
    ensures
        d_sign(b) <==> b >= 0x8000_0000_0000_0000,
{
    if b >= 0x8000_0000_0000_0000 {
        lemma_flip_fields((b - 0x8000_0000_0000_0000) as nat);
    } else {
        lemma_basic_div(b as int, 0x8000_0000_0000_0000);
    }
}

/// For a scaled magnitude with effective exponent below 1075: reducing and
/// dividing by 2^1075 is reducing and dividing the significand by the
/// remaining power.
proof fn lemma_scaled_low(m: nat, ee: nat)
    requires
        1 <= ee < 1075,
    ensures
        (m * pow2(ee)) % pow2(1075) == pow2(ee) * (m % pow2((1075 - ee) as nat)),
        (m * pow2(ee)) / pow2(1075) == m / pow2((1075 - ee) as nat),
{
    let sh = (1075 - ee) as nat;
    lemma_pow2_adds(ee, sh);
    lemma_pow2_pos(ee);
    lemma_pow2_pos(sh);
    lemma_pow2_pos(1075);
    let x = m * pow2(ee);
    lemma_mod_multiples_basic(m as int, pow2(ee) as int);
    lemma_div_by_multiple(m as int, pow2(ee) as int);
    lemma_breakdown(x as int, pow2(ee) as int, pow2(sh) as int);
    lemma_div_denominator(x as int, pow2(ee) as int, pow2(sh) as int);
}

/// For an effective exponent of at least 1075 the scaled magnitude is an
/// exact multiple of 2^1075.
proof fn lemma_scaled_high(m: nat, ee: nat)
    requires
        1075 <= ee,
    ensures
        (m * pow2(ee)) % pow2(1075) == 0,
        (m * pow2(ee)) / pow2(1075) == m * pow2((ee - 1075) as nat),
{
    let k = (ee - 1075) as nat;
    lemma_pow2_adds(k, 1075);
    lemma_pow2_pos(k);
    lemma_pow2_pos(1075);
    lemma_mul_is_associative(m as int, pow2(k) as int, pow2(1075) as int);
    assert(m * pow2(ee) == (m * pow2(k)) * pow2(1075));
    lemma_mod_multiples_basic((m * pow2(k)) as int, pow2(1075) as int);
    lemma_div_by_multiple((m * pow2(k)) as int, pow2(1075) as int);
}

/// Extract the value of an integral encoding whose magnitude fits in a word.
/// `Some((s, mag))` is returned exactly when the encoding is integral with an
/// effective exponent of at most 1085; `s` is the sign and `mag` the
/// magnitude of the value.
pub fn int_val_of_bits(b: u64) -> (r: Option<(bool, u64)>)
    ensures
        match r {
            Some(sm) => d_is_int(b) && sm.0 == d_sign(b) && sm.1 as nat == d_int_mag(b)
                && d_eexp(b) <= 1085 && sm.1 < 0x8000_0000_0000_0000,
            None => !(d_is_int(b) && d_eexp(b) <= 1085),
        },
{
    proof {
        lemma2_to64();
        lemma2_to64_rest();
        lemma_sign_ge(b);
    }
    let e = (b / 0x10_0000_0000_0000) % 0x800;
    let f = b % 0x10_0000_0000_0000;
    if e == 0x7ff {
        return None;
    }
    let s = b >= 0x8000_0000_0000_0000;
    let m: u64 = if e == 0 { f } else { 0x10_0000_0000_0000 + f };
    let ee: u64 = if e == 0 { 1 } else { e };
    proof {
        assert(m as nat == d_mant(b) && ee as nat == d_eexp(b));
    }
    if ee >= 1075 {
        let k = ee - 1075;
        if k > 10 {
            return None;
        }
        let p = pow2_u64(k);
        proof {
            lemma_scaled_high(m as nat, ee as nat);
            assert((m as nat) * (p as nat) < 0x8000_0000_0000_0000) by (nonlinear_arith)
                requires
                    (m as nat) < 0x20_0000_0000_0000,
                    (p as nat) <= 0x400,
            ;
            assert(p as nat <= 0x400) by {
                if (k as nat) < 10 {
                    lemma_pow2_strictly_increases(k as nat, 10);
                }
            }
        }
        let mag = m * p;
        Some((s, mag))
    } else {
        let sh = 1075 - ee;
        proof {
            lemma_scaled_low(m as nat, ee as nat);
            lemma_pow2_pos((sh as nat));
            lemma_pow2_pos((ee as nat));
        }
        if sh >= 53 {
            proof {
                if (sh as nat) > 53 {
                    lemma_pow2_strictly_increases(53, sh as nat);
                }
                lemma_small_mod(m as nat, pow2(sh as nat));
                lemma_basic_div(m as int, pow2(sh as nat) as int);
            }
            if m == 0 {
                proof {
                    lemma_mul_basics(pow2(ee as nat) as int);
                }
                Some((s, 0))
            } else {
                proof {
                    assert(pow2(ee as nat) * (m as nat % pow2(sh as nat)) > 0) by (nonlinear_arith)
                        requires
                            pow2(ee as nat) > 0,
                            m as nat % pow2(sh as nat) > 0,
                    ;
                }
                None
            }
        } else {
            let p = pow2_u64(sh);
            let rem = m % p;
            if rem == 0 {
                proof {
                    assert(m as nat % pow2(sh as nat) == 0);
                    lemma_mul_basics(pow2(ee as nat) as int);
                    assert(pow2(ee as nat) * (m as nat % pow2(sh as nat)) == 0);
                }
                Some((s, m / p))
            } else {
                proof {
                    assert(pow2(ee as nat) * (m as nat % pow2(sh as nat)) > 0) by (nonlinear_arith)
                        requires
                            pow2(ee as nat) > 0,
                            m as nat % pow2(sh as nat) > 0,
                    ;
                }
                None
            }
        }
    }
}

/// Euclidean remainder of a negated magnitude by 2^32.
proof fn lemma_neg_mod32(x: int)
    requires
        x >= 0,
    ensures
        (-x) % 0x1_0000_0000 == if x % 0x1_0000_0000 == 0 {
            0int
        } else {
            0x1_0000_0000 - x % 0x1_0000_0000
        },
{
    let m = 0x1_0000_0000int;
    let q = x / m;
    let r = x % m;
    lemma_fundamental_div_mod(x, m);
    if r == 0 {
        lemma_fundamental_div_mod_converse(-x, m, -q, 0);
    } else {
        lemma_fundamental_div_mod_converse(-x, m, -q - 1, m - r);
    }
}

/// ToInt32 on encodings, as the bitwise operators use it.
pub fn to_i32_bits(b: u64) -> (r: i32)
    ensures
        r as int == d_to_int32(b),
{
    proof {
        lemma2_to64();
        lemma2_to64_rest();
        lemma_sign_ge(b);
    }
    let e = (b / 0x10_0000_0000_0000) % 0x800;
    let f = b % 0x10_0000_0000_0000;
    if e == 0x7ff {
        return 0;
    }
    let s = b >= 0x8000_0000_0000_0000;
    let m: u64 = if e == 0 { f } else { 0x10_0000_0000_0000 + f };
    let ee: u64 = if e == 0 { 1 } else { e };
    proof {
        assert(m as nat == d_mant(b) && ee as nat == d_eexp(b));
    }
    let ghost tmag: nat = d_scaled_mag(b) / pow2(1075);
    let mag32: u64 = if ee >= 1075 {
        let k = ee - 1075;
        proof {
            lemma_scaled_high(m as nat, ee as nat);
        }
        if k >= 32 {
            proof {
                lemma_pow2_adds((k - 32) as nat, 32);
                lemma_mul_is_associative(m as int, pow2((k - 32) as nat) as int, pow2(32) as int);
                lemma_mod_multiples_basic((m as nat * pow2((k - 32) as nat)) as int, pow2(32) as int);
                assert(tmag % pow2(32) == 0);
            }
            0
        } else {
            let p = pow2_u64(k);
            proof {
                assert((m as nat) * (p as nat) < 0x200_0000_0000_0000_0000_0000) by (nonlinear_arith)
                    requires
                        (m as nat) < 0x20_0000_0000_0000,
                        (p as nat) <= 0x8000_0000,
                ;
                assert(p as nat <= 0x8000_0000) by {
                    if (k as nat) < 31 {
                        lemma_pow2_strictly_increases(k as nat, 31);
                    }
                }
            }
            let wide: u128 = (m as u128) * (p as u128);
            proof {
                assert(wide as nat == tmag);
            }
            (wide % 0x1_0000_0000) as u64
        }
    } else {
        let sh = 1075 - ee;
        proof {
            lemma_scaled_low(m as nat, ee as nat);
            lemma_pow2_pos(sh as nat);
        }
        if sh >= 53 {
            proof {
                if (sh as nat) > 53 {
                    lemma_pow2_strictly_increases(53, sh as nat);
                }
                lemma_basic_div(m as int, pow2(sh as nat) as int);
                assert(tmag == 0);
            }
            0
        } else {
            let p = pow2_u64(sh);
            proof {
                assert(m as nat / p as nat == tmag);
            }
            (m / p) % 0x1_0000_0000
        }
    };
    proof {
        assert(mag32 as nat == tmag % 0x1_0000_0000) by {
            lemma_mod_division_less_than_divisor(tmag as int, 0x1_0000_0000);
        }
        lemma_mod_division_less_than_divisor(tmag as int, 0x1_0000_0000);
    }
    let u: u64 = if !s {
        mag32
    } else if mag32 == 0 {
        proof {
            lemma_neg_mod32(tmag as int);
        }
        0
    } else {
        proof {
            lemma_neg_mod32(tmag as int);
        }
        0x1_0000_0000 - mag32
    };
    proof {
        assert(u as int == d_trunc(b) % 0x1_0000_0000);
    }
    if u >= 0x8000_0000 {
        ((u as i64) - 0x1_0000_0000) as i32
    } else {
        u as i32
    }
}

/// The encoding with the sign flipped.
pub open spec fn d_neg(b: u64) -> u64 {
    if b as nat >= 0x8000_0000_0000_0000 {
        (b - 0x8000_0000_0000_0000) as u64
    } else {
        (b + 0x8000_0000_0000_0000) as u64
    }
}

/// Flip the sign of an encoded double.
pub fn dbl_neg_bits(b: u64) -> (r: u64)
    ensures
        r == d_neg(b),
        d_exp(r) == d_exp(b),
        d_frac(r) == d_frac(b),
        d_sign(r) == !d_sign(b),
{
    if b >= 0x8000_0000_0000_0000 {
        proof {
            lemma_flip_fields((b - 0x8000_0000_0000_0000) as nat);
        }
        b - 0x8000_0000_0000_0000
    } else {
        proof {
            lemma_flip_fields(b as nat);
        }
        b + 0x8000_0000_0000_0000
    }
}

/// A scaled magnitude vanishes exactly on the two zero encodings.
proof fn lemma_scaled_mag_zero(b: u64)
    ensures
        d_scaled_mag(b) == 0 <==> (d_exp(b) == 0 && d_frac(b) == 0),
{
    lemma_pow2_pos(d_eexp(b));
    if d_mant(b) == 0 {
        lemma_mul_basics(pow2(d_eexp(b)) as int);
    } else {
        assert(d_mant(b) * pow2(d_eexp(b)) > 0) by (nonlinear_arith)
            requires
                d_mant(b) > 0,
                pow2(d_eexp(b)) > 0,
        ;
    }
}

/// On sign-cleared encodings the integer order of the bits is the order of
/// the encoded magnitudes.
proof fn lemma_mag_mono(x: u64, y: u64)
    requires
        x < y,
        y < 0x8000_0000_0000_0000,
    ensures
        d_scaled_mag(x) < d_scaled_mag(y),
{
    lemma2_to64();
    lemma2_to64_rest();
    let ex = d_exp(x);
    let ey = d_exp(y);
    let fx = d_frac(x);
    let fy = d_frac(y);
    lemma_pow2_pos(d_eexp(x));
    lemma_pow2_pos(d_eexp(y));
    // below 2^63 the exponent field is plainly the quotient by 2^52
    lemma_div_is_ordered(x as int, 0x7fff_ffff_ffff_ffff, 0x10_0000_0000_0000);
    lemma_div_is_ordered(y as int, 0x7fff_ffff_ffff_ffff, 0x10_0000_0000_0000);
    lemma_small_mod((x as nat / 0x10_0000_0000_0000), 0x800);
    lemma_small_mod((y as nat / 0x10_0000_0000_0000), 0x800);
    lemma_div_is_ordered(x as int, y as int, 0x10_0000_0000_0000);
    lemma_fundamental_div_mod(x as int, 0x10_0000_0000_0000);
    lemma_fundamental_div_mod(y as int, 0x10_0000_0000_0000);
    if ex == ey {
        assert(fx < fy);
        assert(d_mant(x) < d_mant(y));
        assert(d_eexp(x) == d_eexp(y));
        lemma_mul_strict_inequality(d_mant(x) as int, d_mant(y) as int, pow2(d_eexp(x)) as int);
        lemma_pow2_pos(d_eexp(x));
    } else {
        assert(ex < ey);
        assert(d_mant(y) >= 0x10_0000_0000_0000);
        if d_eexp(x) == d_eexp(y) {
            // only at the subnormal boundary, where the significands differ
            assert(ex == 0);
            assert(d_mant(x) < 0x10_0000_0000_0000);
            lemma_mul_strict_inequality(d_mant(x) as int, d_mant(y) as int, pow2(d_eexp(x)) as int);
            lemma_pow2_pos(d_eexp(x));
        } else {
            assert(d_eexp(x) < d_eexp(y));
            lemma_pow2_unfold((d_eexp(x) + 1) as nat);
            if d_eexp(x) + 1 < d_eexp(y) {
                lemma_pow2_strictly_increases((d_eexp(x) + 1) as nat, d_eexp(y));
            }
            assert(pow2(d_eexp(y)) >= 2 * pow2(d_eexp(x)));
            assert(d_mant(x) * pow2(d_eexp(x)) < d_mant(y) * pow2(d_eexp(y))) by (nonlinear_arith)
                requires
                    d_mant(x) < 0x20_0000_0000_0000,
                    d_mant(y) >= 0x10_0000_0000_0000,
                    pow2(d_eexp(y)) >= 2 * pow2(d_eexp(x)),
                    pow2(d_eexp(x)) > 0,
            ;
        }
    }
}

/// Clear the sign bit and relate the result's fields to the argument's.
fn mag_bits(b: u64) -> (r: u64)
    ensures
        r < 0x8000_0000_0000_0000,
        d_exp(r) == d_exp(b),
        d_frac(r) == d_frac(b),
        d_scaled_mag(r) == d_scaled_mag(b),
        r == 0 <==> d_scaled_mag(b) == 0,
{
    proof {
        lemma_sign_ge(b);
        lemma_scaled_mag_zero(b);
    }
    let r = if b >= 0x8000_0000_0000_0000 {
        proof {
            lemma_flip_fields((b - 0x8000_0000_0000_0000) as nat);
        }
        b - 0x8000_0000_0000_0000
    } else {
        b
    };
    proof {
        lemma_scaled_mag_zero(r);
        lemma_small_mod((r as nat / 0x10_0000_0000_0000), 0x800);
        lemma_fundamental_div_mod(r as int, 0x10_0000_0000_0000);
        lemma_div_is_ordered(r as int, 0x7fff_ffff_ffff_ffff, 0x10_0000_0000_0000);
        if d_exp(r) == 0 && d_frac(r) == 0 {
            assert(r as nat == 0x10_0000_0000_0000 * (r as nat / 0x10_0000_0000_0000) + d_frac(r));
        }
    }
    r
}

/// The sign bit.
pub fn sign_bits(b: u64) -> (r: bool)
    ensures
        r == d_sign(b),
{
    proof {
        lemma_sign_ge(b);
    }
    b >= 0x8000_0000_0000_0000
}

/// Whether the encoding is a NaN.
pub fn is_nan_bits(b: u64) -> (r: bool)
    ensures
        r == d_is_nan(b),
{
    let e = (b / 0x10_0000_0000_0000) % 0x800;
    let f = b % 0x10_0000_0000_0000;
    e == 0x7ff && f != 0
}

/// IEEE-754 `<` on encodings.
pub fn lt_bits(a: u64, b: u64) -> (r: bool)
    ensures
        r == d_lt(a, b),
{
    if is_nan_bits(a) || is_nan_bits(b) {
        return false;
    }
    proof {
        lemma_sign_ge(a);
        lemma_sign_ge(b);
    }
    let sa = a >= 0x8000_0000_0000_0000;
    let sb = b >= 0x8000_0000_0000_0000;
    let ma = mag_bits(a);
    let mb = mag_bits(b);
    proof {
        if ma < mb {
            lemma_mag_mono(ma, mb);
        }
        if mb < ma {
            lemma_mag_mono(mb, ma);
        }
    }
    if ma == 0 && mb == 0 {
        false
    } else if sa != sb {
        sa
    } else if !sa {
        ma < mb
    } else {
        mb < ma
    }
}

/// IEEE-754 `==` on encodings.
pub fn num_eq_bits(a: u64, b: u64) -> (r: bool)
    ensures
        r == d_num_eq(a, b),
{
    if is_nan_bits(a) || is_nan_bits(b) {
        return false;
    }
    proof {
        lemma_sign_ge(a);
        lemma_sign_ge(b);
    }
    let ma = mag_bits(a);
    let mb = mag_bits(b);
    proof {
        if ma < mb {
            lemma_mag_mono(ma, mb);
        }
        if mb < ma {
            lemma_mag_mono(mb, ma);
        }
    }
    (ma == 0 && mb == 0) || a == b
}

/// IEEE-754 `<=` on encodings.
pub fn le_bits(a: u64, b: u64) -> (r: bool)
    ensures
        r == d_le(a, b),
{
    let eq = num_eq_bits(a, b);
    let lt = lt_bits(a, b);
    eq || lt
}

/// The decimal digits of a nonnegative integer, most significant first.
pub open spec fn dec_str(n: nat) -> Seq<u8>
    decreases n,
{
    if n < 10 {
        seq![(48 + n) as u8]
    } else {
        dec_str(n / 10).push((48 + n % 10) as u8)
    }
}

/// Append the decimal digits of `n` to `out`.
pub fn push_dec(n: u64, out: &mut Vec<u8>)
    ensures
        final(out)@ == old(out)@ + dec_str(n as nat),
    decreases n,
{
    if n < 10 {
        out.push(48 + n as u8);
        proof {
            assert(out@ =~= old(out)@ + dec_str(n as nat));
        }
    } else {
        push_dec(n / 10, out);
        out.push(48 + (n % 10) as u8);
        proof {
            assert(out@ =~= old(out)@ + dec_str(n as nat));
        }
    }
}

/// The value of one digit byte, where it is a digit for the radix.
pub open spec fn digit_val(c: u8, radix: nat) -> Option<nat> {
    if 48 <= c <= 57 && (c - 48) < radix {
        Some((c - 48) as nat)
    } else if 97 <= c <= 102 && (c - 87) < radix {
        Some((c - 87) as nat)
    } else if 65 <= c <= 70 && (c - 55) < radix {
        Some((c - 55) as nat)
    } else {
        None
    }
}

/// The value of a digit string in the given radix; `None` if any byte is not
/// a digit for that radix. The empty string has value 0.
pub open spec fn digits_val(s: Seq<u8>, radix: nat) -> Option<nat>
    decreases s.len(),
{
    if s.len() == 0 {
        Some(0)
    } else {
        match digits_val(s.drop_last(), radix) {
            Some(v) => match digit_val(s.last(), radix) {
                Some(d) => Some(v * radix + d),
                None => None,
            },
            None => None,
        }
    }
}

/// Parse a digit string in radix 8, 10 or 16. `None` stands either for a
/// byte that is not a digit of the radix or for a value of 2^96 or more.
pub fn parse_digits(s: &Vec<u8>, radix: u64) -> (r: Option<u128>)
    requires
        radix == 8 || radix == 10 || radix == 16,
    ensures
        match r {
            Some(v) => digits_val(s@, radix as nat) == Some(v as nat) && v
                < 0x1_0000_0000_0000_0000_0000_0000,
            None => digits_val(s@, radix as nat) is None || (digits_val(s@, radix as nat) matches
                Some(v) && v >= 0x1_0000_0000_0000_0000_0000_0000),
        },
{
    let mut acc: u128 = 0;
    let mut failed = false;
    let mut i: usize = 0;
    while i < s.len()
        invariant
            i <= s.len(),
            radix == 8 || radix == 10 || radix == 16,
            !failed ==> digits_val(s@.subrange(0, i as int), radix as nat) == Some(acc as nat)
                && acc < 0x1_0000_0000_0000_0000_0000_0000,
            failed ==> (digits_val(s@.subrange(0, i as int), radix as nat) is None || (digits_val(
                s@.subrange(0, i as int),
                radix as nat,
            ) matches Some(v) && v >= 0x1_0000_0000_0000_0000_0000_0000)),
        decreases s.len() - i,
    {
        let c = s[i];
        let ghost pre = s@.subrange(0, i as int);
        let ghost cur = s@.subrange(0, i as int + 1);
        proof {
            assert(cur.drop_last() =~= pre);
            assert(cur.last() == c);
        }
        let dv: u64 = if 48 <= c && c <= 57 {
            (c - 48) as u64
        } else if 97 <= c && c <= 102 {
            (c - 87) as u64
        } else if 65 <= c && c <= 70 {
            (c - 55) as u64
        } else {
            255
        };
        if dv >= radix {
            proof {
                assert(digit_val(c, radix as nat) is None);
            }
            failed = true;
        } else if !failed {
            proof {
                assert(digit_val(c, radix as nat) == Some(dv as nat));
                assert(acc * radix + dv < 0x10_0000_0000_0000_0000_0000_0000_0000) by (nonlinear_arith)
                    requires
                        acc < 0x1_0000_0000_0000_0000_0000_0000,
                        radix <= 16,
                        dv < 16,
                ;
            }
            acc = acc * (radix as u128) + (dv as u128);
            if acc >= 0x1_0000_0000_0000_0000_0000_0000 {
                failed = true;
            }
        } else {
            proof {
                assert(digit_val(c, radix as nat) == Some(dv as nat));
                match digits_val(pre, radix as nat) {
                    Some(v) => {
                        assert(v >= 0x1_0000_0000_0000_0000_0000_0000);
                        assert(v * radix + dv as nat >= v) by (nonlinear_arith)
                            requires
                                radix >= 8,
                                v >= 0,
                                dv >= 0,
                        ;
                    },
                    None => {},
                }
            }
        }
        i = i + 1;
        proof {
            assert(s@.subrange(0, i as int) =~= cur);
        }
    }
    proof {
        assert(s@.subrange(0, s@.len() as int) =~= s@);
    }
    if failed {
        None
    } else {
        Some(acc)
    }
}

/// What rustc_apfloat's `Double` addition returns on two encodings.
pub uninterp spec fn dbl_add(a: u64, b: u64) -> u64;

/// What rustc_apfloat's `Double` subtraction returns on two encodings.
pub uninterp spec fn dbl_sub(a: u64, b: u64) -> u64;

/// What rustc_apfloat's `Double` multiplication returns on two encodings.
pub uninterp spec fn dbl_mul(a: u64, b: u64) -> u64;

/// What rustc_apfloat's `Double` division returns on two encodings.
pub uninterp spec fn dbl_div(a: u64, b: u64) -> u64;

/// What rustc_apfloat's `Double::c_fmod` returns on two encodings.
pub uninterp spec fn dbl_fmod(a: u64, b: u64) -> u64;

/// The nearest double to an unsigned 128-bit integer, per rustc_apfloat.
pub uninterp spec fn dbl_of_u128(n: u128) -> u64;

/// The double that rustc_apfloat parses from a decimal digit string
/// (digits with at most one point), or a NaN where it refuses the string.
pub uninterp spec fn dbl_of_dec_str(s: Seq<u8>) -> u64;

/// The decimal rendering rustc_apfloat gives a finite nonzero double: a
/// round-trippable form such as `1.5` or `2.5E-1`.
pub uninterp spec fn dec_str_of_dbl(b: u64) -> Seq<u8>;

/// Relies on `Add for rustc_apfloat::ieee::Double`: IEEE-754 binary64
/// addition, round to nearest ties to even, a function of the two encodings.
#[verifier::external_body]
pub fn add_bits(a: u64, b: u64) -> (r: u64)
    ensures
        r == dbl_add(a, b),
{
    let x = rustc_apfloat::ieee::Double::from_bits(a as u128);
    let y = rustc_apfloat::ieee::Double::from_bits(b as u128);
    (x + y).value.to_bits() as u64
}

/// Relies on `Sub for rustc_apfloat::ieee::Double`: IEEE-754 binary64
/// subtraction, round to nearest ties to even.
#[verifier::external_body]
pub fn sub_bits(a: u64, b: u64) -> (r: u64)
    ensures
        r == dbl_sub(a, b),
{
    let x = rustc_apfloat::ieee::Double::from_bits(a as u128);
    let y = rustc_apfloat::ieee::Double::from_bits(b as u128);
    (x - y).value.to_bits() as u64
}

/// Relies on `Mul for rustc_apfloat::ieee::Double`: IEEE-754 binary64
/// multiplication, round to nearest ties to even.
#[verifier::external_body]
pub fn mul_bits(a: u64, b: u64) -> (r: u64)
    ensures
        r == dbl_mul(a, b),
{
    let x = rustc_apfloat::ieee::Double::from_bits(a as u128);
    let y = rustc_apfloat::ieee::Double::from_bits(b as u128);
    (x * y).value.to_bits() as u64
}

/// Relies on `Div for rustc_apfloat::ieee::Double`: IEEE-754 binary64
/// division, round to nearest ties to even; division by zero gives an
/// infinity or a NaN, never an error.
#[verifier::external_body]
pub fn div_bits(a: u64, b: u64) -> (r: u64)
    ensures
        r == dbl_div(a, b),
{
    let x = rustc_apfloat::ieee::Double::from_bits(a as u128);
    let y = rustc_apfloat::ieee::Double::from_bits(b as u128);
    (x / y).value.to_bits() as u64
}

/// Relies on `rustc_apfloat::Float::c_fmod`: the truncated-division
/// remainder, with the sign of the dividend.
#[verifier::external_body]
pub fn fmod_bits(a: u64, b: u64) -> (r: u64)
    ensures
        r == dbl_fmod(a, b),
{
    let x = rustc_apfloat::ieee::Double::from_bits(a as u128);
    let y = rustc_apfloat::ieee::Double::from_bits(b as u128);
    x.c_fmod(y).value.to_bits() as u64
}

/// Relies on `rustc_apfloat::Float::from_u128`: the nearest double to an
/// unsigned integer, round to nearest ties to even.
#[verifier::external_body]
pub fn of_u128_bits(n: u128) -> (r: u64)
    ensures
        r == dbl_of_u128(n),
{
    rustc_apfloat::ieee::Double::from_u128(n).value.to_bits() as u64
}

/// Relies on `rustc_apfloat::Float::from_str_r` through `str::parse`: the
/// nearest double to the decimal string; a string it refuses becomes the
/// canonical NaN.
#[verifier::external_body]
pub fn of_dec_str_bits(s: &Vec<u8>) -> (r: u64)
    ensures
        r == dbl_of_dec_str(s@),
{
    match core::str::from_utf8(s.as_slice()) {
        Ok(t) => match t.parse::<rustc_apfloat::ieee::Double>() {
            Ok(d) => d.to_bits() as u64,
            Err(_) => NAN_BITS,
        },
        Err(_) => NAN_BITS,
    }
}

/// Relies on `Display for rustc_apfloat::ieee::IeeeFloat`: a decimal form
/// with enough digits to parse back to the same double.
#[verifier::external_body]
pub fn dec_str_of_bits(b: u64) -> (r: Vec<u8>)
    ensures
        r@ == dec_str_of_dbl(b),
{
    let d = rustc_apfloat::ieee::Double::from_bits(b as u128);
    format!("{}", d).into_bytes()
}

} // verus!
