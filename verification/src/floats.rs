//! Binary64 floating-point numbers as their bits.
//!
//! A float is carried as the 64 bits of its IEEE 754 representation. The lexical
//! encoding maps non-negative floats to integers so that simpler-looking floats
//! get smaller ones: integers below two to the 56th encode themselves, everything
//! else follows, ordered by a reshuffled exponent and a mantissa whose fractional
//! bits are reversed.
use vstd::arithmetic::div_mod::{
    lemma_fundamental_div_mod, lemma_fundamental_div_mod_converse, lemma_mod_bound,
};
use vstd::arithmetic::power2::{
    lemma2_to64, lemma2_to64_rest, lemma_pow2_adds, lemma_pow2_pos, lemma_pow2_strictly_increases,
    lemma_pow2_unfold, pow2,
};
use vstd::prelude::*;

verus! {

/// The weight of the sign bit.
pub const SIGN: u64 = 0x8000_0000_0000_0000;

/// The bits of positive infinity; what lies above, up to the sign, is not a number.
pub const INFINITY: u64 = 0x7FF0_0000_0000_0000;

/// The weight of the lowest exponent bit.
pub const UNIT: u64 = 0x10_0000_0000_0000;

/// The bits of one.
pub const ONE: u64 = 0x3FF0_0000_0000_0000;

/// The bits of two to the power of minus 64.
pub const TINY: u64 = 0x3BF0_0000_0000_0000;

/// The bits of the largest finite number.
pub const MAX_FINITE: u64 = 0x7FEF_FFFF_FFFF_FFFF;

/// The bits of the smallest positive number.
pub const SMALLEST_SUBNORMAL: u64 = 1;

/// The bits of a NaN with the quiet bit and the lowest bit set.
pub const SIGNALING_NAN_BITS: u64 = 0x7FF8_0000_0000_0001;

/// Two to the 56th power: simple floats lie below it.
pub const SIMPLE_LIMIT: u64 = 0x100_0000_0000_0000;

// ---- reading the bits -------------------------------------------------------

/// The bits without the sign.
pub open spec fn magnitude_bits(b: u64) -> u64 {
    if b >= SIGN {
        (b - SIGN) as u64
    } else {
        b
    }
}

pub open spec fn is_nan_bits(b: u64) -> bool {
    magnitude_bits(b) > INFINITY
}

pub open spec fn is_finite_bits(b: u64) -> bool {
    magnitude_bits(b) < INFINITY
}

/// A number that orders floats as their values do; both zeros get zero.
pub open spec fn value_key(b: u64) -> int {
    if b >= SIGN {
        -(magnitude_bits(b) as int)
    } else {
        b as int
    }
}

/// `x <= y` of floats, false where either is not a number.
pub open spec fn float_le(x: u64, y: u64) -> bool {
    !is_nan_bits(x) && !is_nan_bits(y) && value_key(x) <= value_key(y)
}

/// `x < y` of floats, false where either is not a number.
pub open spec fn float_lt(x: u64, y: u64) -> bool {
    !is_nan_bits(x) && !is_nan_bits(y) && value_key(x) < value_key(y)
}

/// The biased exponent.
pub open spec fn exponent_of(b: u64) -> int {
    magnitude_bits(b) as int / UNIT as int
}

/// The mantissa, without the leading bit that normal numbers imply.
pub open spec fn mantissa_of(b: u64) -> int {
    magnitude_bits(b) as int % UNIT as int
}

pub fn abs_bits(b: u64) -> (r: u64)
    ensures
        r == magnitude_bits(b),
{
    if b >= SIGN {
        b - SIGN
    } else {
        b
    }
}

/// The float with the opposite sign.
pub open spec fn negated_bits(b: u64) -> u64 {
    if b >= SIGN {
        (b - SIGN) as u64
    } else {
        (b + SIGN) as u64
    }
}

pub fn negate(b: u64) -> (r: u64)
    ensures
        r == negated_bits(b),
{
    if b >= SIGN {
        b - SIGN
    } else {
        b + SIGN
    }
}

pub fn is_nan(b: u64) -> (r: bool)
    ensures
        r == is_nan_bits(b),
{
    abs_bits(b) > INFINITY
}

pub fn is_finite(b: u64) -> (r: bool)
    ensures
        r == is_finite_bits(b),
{
    abs_bits(b) < INFINITY
}

pub fn le(x: u64, y: u64) -> (r: bool)
    ensures
        r == float_le(x, y),
{
    if is_nan(x) || is_nan(y) {
        false
    } else if x >= SIGN {
        if y >= SIGN {
            x >= y
        } else {
            true
        }
    } else if y >= SIGN {
        x == 0 && y == SIGN
    } else {
        x <= y
    }
}

pub fn lt(x: u64, y: u64) -> (r: bool)
    ensures
        r == float_lt(x, y),
{
    le(x, y) && !le(y, x)
}

// ---- the lexical encoding ---------------------------------------------------

/// The place of an exponent: from zero upwards first, then from minus one
/// downwards, and the one of infinity last.
pub open spec fn exponent_rank(e: int) -> int {
    if e == 2047 {
        2047
    } else if e >= 1023 {
        e - 1023
    } else {
        2046 - e
    }
}

/// The exponent at a place.
pub open spec fn exponent_at(rank: int) -> int {
    if rank == 2047 {
        2047
    } else if rank < 1024 {
        rank + 1023
    } else {
        2046 - rank
    }
}

/// The `n` lowest binary digits of `x` in reverse.
pub open spec fn reversed(x: int, n: nat) -> int
    decreases n,
{
    if n == 0 {
        0
    } else {
        (x % 2) * pow2((n - 1) as nat) + reversed(x / 2, (n - 1) as nat)
    }
}

/// How many bits of the mantissa stand for a fraction.
pub open spec fn fraction_bits(e: int) -> nat {
    if e <= 1023 {
        52
    } else if e < 1075 {
        (1075 - e) as nat
    } else {
        0
    }
}

/// The mantissa with its fractional bits reversed.
pub open spec fn reshuffled(e: int, mantissa: int) -> int {
    let p = pow2(fraction_bits(e)) as int;
    (mantissa / p) * p + reversed(mantissa % p, fraction_bits(e))
}

/// The float is an integer of less than 57 bits.
pub open spec fn is_simple_bits(b: u64) -> bool {
    let e = exponent_of(b);
    if e == 0 {
        mantissa_of(b) == 0
    } else {
        e < 1079 && (e < 1075 ==> (UNIT + mantissa_of(b)) % pow2((1075 - e) as nat) as int == 0)
    }
}

/// The absolute value of a float that is an integer.
pub open spec fn integer_of(b: u64) -> int {
    let e = exponent_of(b);
    if e == 0 {
        0
    } else if e < 1075 {
        (UNIT + mantissa_of(b)) / pow2((1075 - e) as nat) as int
    } else {
        (UNIT + mantissa_of(b)) * pow2((e - 1075) as nat)
    }
}

/// How many binary digits `n` has.
pub open spec fn bit_length(n: int) -> nat
    decreases n,
{
    if n <= 0 {
        0
    } else {
        1 + bit_length(n / 2)
    }
}

/// `n` divided by `unit` and rounded to the nearest integer, to the even one where
/// two are equally near.
pub open spec fn rounded_to_even(n: int, unit: int) -> int {
    let q = n / unit;
    let rest = n % unit;
    if 2 * rest > unit || (2 * rest == unit && q % 2 == 1) {
        q + 1
    } else {
        q
    }
}

/// The bits of the float nearest to the non-negative integer `n`.
pub open spec fn float_of_integer(n: int) -> int {
    let k = bit_length(n) - 1;
    if n <= 0 {
        0
    } else if k <= 52 {
        (1022 + k) * UNIT + n * pow2((52 - k) as nat)
    } else {
        (1022 + k) * UNIT + rounded_to_even(n, pow2((k - 52) as nat) as int)
    }
}

/// The lexical encoding of a float. Negative integers are all encoded as zero;
/// otherwise the sign is dropped.
pub open spec fn lex_of(b: u64) -> int {
    if is_simple_bits(b) {
        if b >= SIGN {
            0
        } else {
            integer_of(b)
        }
    } else {
        SIGN + exponent_rank(exponent_of(b)) * UNIT + reshuffled(exponent_of(b), mantissa_of(b))
    }
}

/// The bits of the float that an integer encodes.
pub open spec fn float_at(lex: u64) -> int {
    if lex >= SIGN {
        let e = exponent_at((lex - SIGN) / UNIT as int);
        e * UNIT + reshuffled(e, (lex - SIGN) % UNIT as int)
    } else {
        float_of_integer(lex as int % SIMPLE_LIMIT as int)
    }
}

proof fn lemma_constants()
    ensures
        pow2(0) == 1,
        pow2(52) == UNIT,
        pow2(53) == 2 * UNIT,
        pow2(56) == SIMPLE_LIMIT,
        pow2(63) == SIGN,
{
    lemma2_to64();
    lemma2_to64_rest();
}

pub proof fn lemma_pow2_up(a: nat, b: nat)
    requires
        a <= b,
    ensures
        0 < pow2(a) <= pow2(b),
{
    lemma_pow2_pos(a);
    if a < b {
        lemma_pow2_strictly_increases(a, b);
    }
}

/// Two to the power of `n`.
pub fn two_to(n: u64) -> (r: u64)
    requires
        n < 64,
    ensures
        r == pow2(n as nat),
        r > 0,
{
    let mut r: u64 = 1;
    let mut i: u64 = 0;
    proof {
        lemma2_to64();
        lemma_pow2_up(n as nat, 63);
        lemma2_to64_rest();
    }
    while i < n
        invariant
            i <= n < 64,
            r == pow2(i as nat),
            pow2(63) == 0x8000_0000_0000_0000,
        decreases n - i,
    {
        proof {
            lemma_pow2_unfold((i + 1) as nat);
            lemma_pow2_up((i + 1) as nat, 63);
        }
        r = r * 2;
        i = i + 1;
    }
    proof {
        lemma_pow2_pos(n as nat);
    }
    r
}

pub fn decode_exponent(e: u64) -> (r: u64)
    requires
        e <= 2047,
    ensures
        r == exponent_at(e as int),
        r <= 2047,
{
    if e == 2047 {
        2047
    } else if e < 1024 {
        e + 1023
    } else {
        2046 - e
    }
}

pub fn encode_exponent(e: u64) -> (r: u64)
    requires
        e <= 2047,
    ensures
        r == exponent_rank(e as int),
        r <= 2047,
{
    if e == 2047 {
        2047
    } else if e >= 1023 {
        e - 1023
    } else {
        2046 - e
    }
}

proof fn lemma_reversed_bounded(x: int, n: nat)
    ensures
        0 <= reversed(x, n) < pow2(n),
    decreases n,
{
    lemma_pow2_pos(n);
    if n > 0 {
        let m = (n - 1) as nat;
        lemma_reversed_bounded(x / 2, m);
        lemma_pow2_unfold(n);
        let d = x % 2;
        assert(0 <= d * pow2(m) <= pow2(m)) by (nonlinear_arith)
            requires
                0 <= d <= 1,
        ;
    } else {
        lemma2_to64();
    }
}

/// Reversing from the other end: a leading digit becomes the last one.
proof fn lemma_reversed_leading(high: int, low: int, n: nat)
    requires
        0 <= high <= 1,
        0 <= low < pow2(n),
    ensures
        reversed(high * pow2(n) + low, n + 1) == 2 * reversed(low, n) + high,
    decreases n,
{
    let x = high * pow2(n) + low;
    if n == 0 {
        lemma2_to64();
        reveal_with_fuel(reversed, 2);
        assert(x == high);
    } else {
        let m = (n - 1) as nat;
        lemma_pow2_unfold(n);
        lemma_pow2_unfold(n + 1);
        let p = pow2(m) as int;
        assert(x / 2 == high * p + low / 2 && x % 2 == low % 2) by {
            assert(high * (2 * p) == 2 * (high * p)) by (nonlinear_arith);
        }
        lemma_reversed_leading(high, low / 2, m);
        let d = low % 2;
        assert(d * (2 * p) == 2 * (d * p)) by (nonlinear_arith);
    }
}

proof fn lemma_reversed_twice(x: int, n: nat)
    requires
        0 <= x < pow2(n),
    ensures
        reversed(reversed(x, n), n) == x,
    decreases n,
{
    if n == 0 {
        lemma2_to64();
    } else {
        let m = (n - 1) as nat;
        lemma_pow2_unfold(n);
        lemma_reversed_bounded(x / 2, m);
        lemma_reversed_leading(x % 2, reversed(x / 2, m), m);
        lemma_reversed_twice(x / 2, m);
    }
}

/// The `n` lowest bits of `x` in reverse order.
pub fn reverse_bits(x: u64, n: u64) -> (r: u64)
    requires
        n <= 63,
    ensures
        r == reversed(x as int, n as nat),
        r < pow2(n as nat),
{
    let mut rest: u64 = x;
    let mut r: u64 = 0;
    let mut left: u64 = n;
    proof {
        lemma_reversed_bounded(x as int, n as nat);
        lemma_pow2_up(n as nat, 63);
        lemma_constants();
        assert(0 * pow2(left as nat) == 0) by (nonlinear_arith);
    }
    while left > 0
        invariant
            left <= n <= 63,
            r * pow2(left as nat) + reversed(rest as int, left as nat) == reversed(
                x as int,
                n as nat,
            ),
            reversed(x as int, n as nat) < SIGN,
        decreases left,
    {
        proof {
            let m = (left - 1) as nat;
            lemma_pow2_unfold(left as nat);
            lemma_pow2_pos(m);
            lemma_reversed_bounded(rest as int / 2, m);
            let p = pow2(m) as int;
            let d = rest as int % 2;
            assert(r * (2 * p) + d * p == (2 * r + d) * p) by (nonlinear_arith);
            assert(2 * r + d < SIGN) by (nonlinear_arith)
                requires
                    (2 * r + d) * p < SIGN,
                    p >= 1,
                    r >= 0,
                    d >= 0,
            ;
        }
        r = r * 2 + rest % 2;
        rest = rest / 2;
        left = left - 1;
    }
    proof {
        assert(r * 1 == r);
    }
    r
}

proof fn lemma_reshuffled_bounded(e: int, mantissa: int)
    requires
        0 <= mantissa < UNIT,
    ensures
        0 <= reshuffled(e, mantissa) < UNIT,
        reshuffled(e, mantissa) / pow2(fraction_bits(e)) as int == mantissa / pow2(
            fraction_bits(e),
        ) as int,
        reshuffled(e, mantissa) % pow2(fraction_bits(e)) as int == reversed(
            mantissa % pow2(fraction_bits(e)) as int,
            fraction_bits(e),
        ),
{
    let n = fraction_bits(e);
    let p = pow2(n) as int;
    lemma_pow2_pos(n);
    let q = mantissa / p;
    let r = reversed(mantissa % p, n);
    lemma_reversed_bounded(mantissa % p, n);
    lemma_fundamental_div_mod(mantissa, p);
    lemma_mod_bound(mantissa, p);
    lemma_fundamental_div_mod_converse(q * p + r, p, q, r);
    let h = pow2((52 - n) as nat) as int;
    lemma_pow2_adds(n, (52 - n) as nat);
    lemma_constants();
    assert(q < h) by (nonlinear_arith)
        requires
            p * q <= mantissa < p * h,
            p > 0,
    ;
    assert(q * p + r < p * h) by (nonlinear_arith)
        requires
            q <= h - 1,
            r < p,
            p > 0,
    ;
    assert(q >= 0) by (nonlinear_arith)
        requires
            mantissa >= 0,
            p > 0,
            q == mantissa / p,
    ;
    assert(q * p >= 0) by (nonlinear_arith)
        requires
            q >= 0,
            p > 0,
    ;
}

/// Reshuffling the mantissa twice gives it back.
pub proof fn reshuffling_undoes_itself(e: int, mantissa: int)
    requires
        0 <= mantissa < UNIT,
    ensures
        0 <= reshuffled(e, mantissa) < UNIT,
        reshuffled(e, reshuffled(e, mantissa)) == mantissa,
{
    let n = fraction_bits(e);
    let p = pow2(n) as int;
    lemma_pow2_pos(n);
    lemma_reshuffled_bounded(e, mantissa);
    lemma_mod_bound(mantissa, p);
    lemma_reversed_twice(mantissa % p, n);
    lemma_fundamental_div_mod(mantissa, p);
    assert(p * (mantissa / p) == (mantissa / p) * p) by (nonlinear_arith);
}

/// The mantissa with its fractional bits reversed, for a biased exponent.
pub fn update_mantissa(exponent: u64, mantissa: u64) -> (r: u64)
    requires
        mantissa < UNIT,
        exponent <= 2047,
    ensures
        r == reshuffled(exponent as int, mantissa as int),
        r < UNIT,
{
    let n: u64 = if exponent <= 1023 {
        52
    } else if exponent < 1075 {
        1075 - exponent
    } else {
        0
    };
    let p: u64 = two_to(n);
    let fraction: u64 = mantissa % p;
    proof {
        lemma_reshuffled_bounded(exponent as int, mantissa as int);
        lemma_fundamental_div_mod(mantissa as int, p as int);
        assert(p * (mantissa as int / p as int) == (mantissa as int / p as int) * p)
            by (nonlinear_arith);
        lemma_reversed_bounded(fraction as int, n as nat);
    }
    let kept: u64 = mantissa - fraction;
    kept + reverse_bits(fraction, n)
}

proof fn lemma_fields(b: u64)
    ensures
        0 <= exponent_of(b) <= 2047,
        0 <= mantissa_of(b) < UNIT,
        magnitude_bits(b) == exponent_of(b) * UNIT + mantissa_of(b),
        magnitude_bits(b) < SIGN,
{
    lemma_fundamental_div_mod(magnitude_bits(b) as int, UNIT as int);
}

pub fn is_simple(b: u64) -> (r: bool)
    ensures
        r == is_simple_bits(b),
{
    let m: u64 = abs_bits(b);
    let e: u64 = m / UNIT;
    let frac: u64 = m % UNIT;
    proof {
        lemma_fields(b);
    }
    if e == 0 {
        return frac == 0;
    }
    if e >= 1079 {
        return false;
    }
    if e >= 1075 {
        return true;
    }
    let shift: u64 = 1075 - e;
    if shift > 52 {
        proof {
            lemma_constants();
            lemma_pow2_up(53, shift as nat);
            vstd::arithmetic::div_mod::lemma_small_mod(
                (UNIT + frac) as nat,
                pow2(shift as nat),
            );
        }
        return false;
    }
    (UNIT + frac) % two_to(shift) == 0
}

/// The integer that a simple float is.
fn simple_to_integer(b: u64) -> (r: u64)
    requires
        is_simple_bits(b),
    ensures
        r == integer_of(b),
        r < SIMPLE_LIMIT,
{
    let m: u64 = abs_bits(b);
    let e: u64 = m / UNIT;
    let frac: u64 = m % UNIT;
    proof {
        lemma_fields(b);
        lemma_constants();
    }
    if e == 0 {
        return 0;
    }
    if e < 1075 {
        let shift: u64 = 1075 - e;
        if shift > 52 {
            proof {
                lemma_pow2_up(53, shift as nat);
                vstd::arithmetic::div_mod::lemma_small_mod(
                    (UNIT + frac) as nat,
                    pow2(shift as nat),
                );
            }
            return 0;
        }
        let p: u64 = two_to(shift);
        proof {
            assert((UNIT + frac) / p as int <= UNIT + frac) by (nonlinear_arith)
                requires
                    p >= 1,
                    frac >= 0,
            ;
        }
        (UNIT + frac) / p
    } else {
        let p: u64 = two_to(e - 1075);
        proof {
            lemma_pow2_up((e - 1075) as nat, 3);
            lemma2_to64();
            assert((UNIT + frac) * p < SIMPLE_LIMIT) by (nonlinear_arith)
                requires
                    frac < UNIT,
                    0 < p <= 8,
                    UNIT * 16 == SIMPLE_LIMIT,
            ;
        }
        (UNIT + frac) * p
    }
}

/// The lexical encoding of a float.
pub fn float_to_lex(b: u64) -> (r: u64)
    ensures
        r == lex_of(b),
{
    if is_simple(b) {
        if b >= SIGN {
            return 0;
        }
        return simple_to_integer(b);
    }
    let m: u64 = abs_bits(b);
    proof {
        lemma_fields(b);
    }
    let exponent: u64 = m / UNIT;
    let mantissa: u64 = update_mantissa(exponent, m % UNIT);
    let rank: u64 = encode_exponent(exponent);
    SIGN + rank * UNIT + mantissa
}

/// A number between two powers of two has as many digits as the upper one has
/// factors.
pub proof fn bit_length_between_powers(n: int, k: nat)
    requires
        pow2(k) <= n < pow2(k + 1),
    ensures
        bit_length(n) == k + 1,
    decreases k,
{
    lemma_pow2_pos(k);
    lemma_pow2_unfold(k + 1);
    if k == 0 {
        lemma2_to64();
        reveal_with_fuel(bit_length, 2);
    } else {
        lemma_pow2_unfold(k);
        bit_length_between_powers(n / 2, (k - 1) as nat);
    }
}

fn top_bit(n: u64) -> (k: u64)
    requires
        0 < n < SIMPLE_LIMIT,
    ensures
        pow2(k as nat) <= n < pow2((k + 1) as nat),
        k < 56,
        bit_length(n as int) == k + 1,
{
    let mut k: u64 = 0;
    let mut p: u64 = 1;
    proof {
        lemma_constants();
    }
    while p * 2 <= n
        invariant
            p == pow2(k as nat),
            p <= n < SIMPLE_LIMIT,
            SIMPLE_LIMIT == pow2(56),
            k < 56,
        decreases n - p,
    {
        proof {
            lemma_pow2_unfold((k + 1) as nat);
            lemma_pow2_pos(k as nat);
            if k + 1 >= 56 {
                lemma_pow2_up(56, (k + 1) as nat);
            }
        }
        p = p * 2;
        k = k + 1;
    }
    proof {
        lemma_pow2_unfold((k + 1) as nat);
        bit_length_between_powers(n as int, k as nat);
    }
    k
}

/// The float nearest to `n`.
fn integer_to_float(n: u64) -> (r: u64)
    requires
        n < SIMPLE_LIMIT,
    ensures
        r == float_of_integer(n as int),
        r < INFINITY,
{
    if n == 0 {
        return 0;
    }
    let k: u64 = top_bit(n);
    proof {
        lemma_constants();
        lemma_pow2_unfold((k + 1) as nat);
    }
    if k <= 52 {
        let p: u64 = two_to(52 - k);
        proof {
            lemma_pow2_adds(k as nat, (52 - k) as nat);
            lemma_pow2_adds((k + 1) as nat, (52 - k) as nat);
            assert(n * p < 2 * UNIT) by (nonlinear_arith)
                requires
                    n < pow2((k + 1) as nat),
                    p == pow2((52 - k) as nat),
                    pow2((k + 1) as nat) * pow2((52 - k) as nat) == 2 * UNIT,
                    p > 0,
            ;
            assert((1022 + k) * UNIT <= 1074 * UNIT) by (nonlinear_arith)
                requires
                    k <= 52,
            ;
        }
        (1022 + k) * UNIT + n * p
    } else {
        let unit: u64 = two_to(k - 52);
        let q: u64 = n / unit;
        let rest: u64 = n % unit;
        proof {
            lemma_pow2_adds(53, (k - 52) as nat);
            lemma_fundamental_div_mod(n as int, unit as int);
            lemma_mod_bound(n as int, unit as int);
            lemma_pow2_up((k - 52) as nat, 3);
            lemma2_to64();
            assert(q < 2 * UNIT) by (nonlinear_arith)
                requires
                    unit * q <= n,
                    n < 2 * UNIT * unit,
                    unit > 0,
            ;
            assert((1022 + k) * UNIT <= 1077 * UNIT) by (nonlinear_arith)
                requires
                    k <= 55,
            ;
        }
        let up: u64 = if 2 * rest > unit || (2 * rest == unit && q % 2 == 1) {
            1
        } else {
            0
        };
        (1022 + k) * UNIT + (q + up)
    }
}

/// The float that an integer encodes.
pub fn lex_to_float(i: u64) -> (r: u64)
    ensures
        r == float_at(i),
        r < SIGN,
{
    if i >= SIGN {
        let body: u64 = i - SIGN;
        proof {
            lemma_fundamental_div_mod(body as int, UNIT as int);
            lemma_mod_bound(body as int, UNIT as int);
        }
        let exponent: u64 = decode_exponent(body / UNIT);
        let mantissa: u64 = update_mantissa(exponent, body % UNIT);
        exponent * UNIT + mantissa
    } else {
        integer_to_float(i % SIMPLE_LIMIT)
    }
}

// ---- laws of the encoding ---------------------------------------------------

/// The places of the exponents are a rearrangement of the exponents.
pub proof fn exponent_rank_is_a_bijection(e: int)
    requires
        0 <= e <= 2047,
    ensures
        0 <= exponent_rank(e) <= 2047,
        exponent_at(exponent_rank(e)) == e,
        0 <= exponent_at(e) <= 2047,
        exponent_rank(exponent_at(e)) == e,
{
}

proof fn lemma_simple_survives(b: u64)
    requires
        b < SIGN,
        is_simple_bits(b),
    ensures
        0 <= integer_of(b) < SIMPLE_LIMIT,
        float_of_integer(integer_of(b)) == b,
{
    lemma_fields(b);
    lemma_constants();
    let e = exponent_of(b);
    let m = mantissa_of(b);
    let sig = UNIT + m;
    let n = integer_of(b);
    if e == 0 {
    } else if e < 1075 {
        let shift = (1075 - e) as nat;
        let p = pow2(shift) as int;
        lemma_pow2_pos(shift);
        if shift > 52 {
            lemma_pow2_up(53, shift);
            vstd::arithmetic::div_mod::lemma_small_mod(sig as nat, p as nat);
        }
        lemma_fundamental_div_mod(sig, p);
        let k = (e - 1023) as nat;
        // sig == p * n with p * 2^k == 2^52
        lemma_pow2_adds(k, shift);
        lemma_pow2_adds(k + 1, shift);
        assert(pow2(k) <= n) by (nonlinear_arith)
            requires
                pow2(k) * p <= p * n,
                p > 0,
        ;
        assert(n < pow2(k + 1)) by (nonlinear_arith)
            requires
                p * n < pow2(k + 1) * p,
                p > 0,
        ;
        bit_length_between_powers(n, k);
        lemma_pow2_up(k + 1, 56);
        assert(p * n == n * p) by (nonlinear_arith);
        lemma_pow2_pos(k);
    } else {
        let shift = (e - 1075) as nat;
        let p = pow2(shift) as int;
        lemma_pow2_pos(shift);
        let k = (e - 1023) as nat;
        lemma_pow2_adds(52, shift);
        lemma_pow2_adds(53, shift);
        assert(pow2(k) <= n) by (nonlinear_arith)
            requires
                pow2(k) == UNIT * p,
                n == sig * p,
                sig >= UNIT,
                p > 0,
        ;
        assert(n < pow2(k + 1)) by (nonlinear_arith)
            requires
                pow2(k + 1) == (2 * UNIT) * p,
                n == sig * p,
                sig < 2 * UNIT,
                p > 0,
        ;
        bit_length_between_powers(n, k);
        lemma_pow2_up(k + 1, 56);
        lemma_pow2_pos(k);
        lemma_fundamental_div_mod_converse(n, p, sig, 0);
        if k <= 52 {
            assert(p == 1);
            assert(n == sig) by (nonlinear_arith)
                requires
                    n == sig * p,
                    p == 1,
            ;
            assert(n * pow2((52 - k) as nat) == n) by {
                assert(pow2((52 - k) as nat) == 1);
                assert(n * 1 == n);
            }
            assert(float_of_integer(n) == (1022 + k) * UNIT + n);
        } else {
            assert(rounded_to_even(n, p) == sig);
            assert(float_of_integer(n) == (1022 + k) * UNIT + sig);
        }
        assert((1022 + k) * UNIT + sig == e * UNIT + m);
    }
}

/// Every non-negative float, infinity and the ones that are not numbers included,
/// is found again from its encoding.
pub proof fn float_survives_its_encoding(b: u64)
    requires
        b < SIGN,
    ensures
        0 <= lex_of(b) <= u64::MAX,
        float_at(lex_of(b) as u64) == b,
{
    lemma_fields(b);
    if is_simple_bits(b) {
        lemma_simple_survives(b);
        let n = integer_of(b);
        vstd::arithmetic::div_mod::lemma_small_mod(n as nat, SIMPLE_LIMIT as nat);
    } else {
        let e = exponent_of(b);
        let m = mantissa_of(b);
        reshuffling_undoes_itself(e, m);
        exponent_rank_is_a_bijection(e);
        let body = exponent_rank(e) * UNIT + reshuffled(e, m);
        lemma_fundamental_div_mod_converse(
            body,
            UNIT as int,
            exponent_rank(e),
            reshuffled(e, m),
        );
    }
}

/// Small integers encode themselves and come before every other float.
pub proof fn integers_come_first(b: u64, other: u64)
    requires
        b < SIGN,
        is_simple_bits(b),
        !is_simple_bits(other),
    ensures
        lex_of(b) == integer_of(b),
        lex_of(b) < SIMPLE_LIMIT,
        lex_of(b) < lex_of(other),
{
    lemma_simple_survives(b);
    lemma_fields(other);
    reshuffling_undoes_itself(exponent_of(other), mantissa_of(other));
}

// ---- ordering and bounds ----------------------------------------------------

/// `x <= y` with the negative zero strictly below the positive one.
pub open spec fn sign_aware_le(x: u64, y: u64) -> bool {
    if magnitude_bits(x) == 0 && magnitude_bits(y) == 0 {
        x >= SIGN || y < SIGN
    } else {
        float_le(x, y)
    }
}

pub fn sign_aware_lte(x: u64, y: u64) -> (r: bool)
    ensures
        r == sign_aware_le(x, y),
{
    if abs_bits(x) == 0 && abs_bits(y) == 0 {
        x >= SIGN || y < SIGN
    } else {
        le(x, y)
    }
}

/// The bound that `value` oversteps, or `value` itself.
pub open spec fn clamped_bits(lower: u64, value: u64, upper: u64) -> u64 {
    if !sign_aware_le(lower, value) {
        lower
    } else if !sign_aware_le(value, upper) {
        upper
    } else {
        value
    }
}

pub fn clamp(lower: u64, value: u64, upper: u64) -> (r: u64)
    ensures
        r == clamped_bits(lower, value, upper),
{
    if !sign_aware_lte(lower, value) {
        lower
    } else if !sign_aware_lte(value, upper) {
        upper
    } else {
        value
    }
}

/// The bounds that a float has to keep.
#[derive(Clone, Copy, Debug, PartialEq, Eq, Structural)]
pub struct FloatBounds {
    pub min_value: u64,
    pub max_value: u64,
    pub allow_nan: bool,
    pub smallest_nonzero_magnitude: u64,
}

/// The float is not zero, but nearer to it than the bounds allow.
pub open spec fn too_near_zero(f: u64, b: FloatBounds) -> bool {
    float_lt(0, magnitude_bits(f)) && float_lt(magnitude_bits(f), b.smallest_nonzero_magnitude)
}

pub open spec fn float_permitted(f: u64, b: FloatBounds) -> bool {
    if is_nan_bits(f) {
        b.allow_nan
    } else {
        !too_near_zero(f, b) && sign_aware_le(b.min_value, f) && sign_aware_le(f, b.max_value)
    }
}

fn near_zero(f: u64, b: &FloatBounds) -> (r: bool)
    ensures
        r == too_near_zero(f, *b),
{
    let m: u64 = abs_bits(f);
    lt(0, m) && lt(m, b.smallest_nonzero_magnitude)
}

pub fn permitted_float(f: u64, b: &FloatBounds) -> (r: bool)
    ensures
        r == float_permitted(f, *b),
{
    if is_nan(f) {
        return b.allow_nan;
    }
    if near_zero(f, b) {
        return false;
    }
    sign_aware_lte(b.min_value, f) && sign_aware_lte(f, b.max_value)
}

/// A float pushed into its bounds. `mixed` is the point between the bounds that
/// the mantissa of `f` picks, used where `f` itself is not permitted.
pub open spec fn float_clamped(f: u64, mixed: u64, b: FloatBounds) -> u64 {
    if float_permitted(f, b) {
        f
    } else if too_near_zero(mixed, b) {
        let small = b.smallest_nonzero_magnitude;
        if float_lt(b.max_value, small) {
            clamped_bits(b.min_value, negated_bits(small), b.max_value)
        } else {
            clamped_bits(b.min_value, small, b.max_value)
        }
    } else {
        clamped_bits(b.min_value, mixed, b.max_value)
    }
}

pub fn float_clamp(f: u64, mixed: u64, b: &FloatBounds) -> (r: u64)
    ensures
        r == float_clamped(f, mixed, *b),
{
    if permitted_float(f, b) {
        return f;
    }
    let mut g: u64 = mixed;
    if near_zero(g, b) {
        g = b.smallest_nonzero_magnitude;
        if lt(b.max_value, b.smallest_nonzero_magnitude) {
            g = negate(g);
        }
    }
    clamp(b.min_value, g, b.max_value)
}

/// The next float upwards. The negative zero steps to the positive one.
pub open spec fn next_up_of(b: u64) -> u64 {
    if is_nan_bits(b) || b == INFINITY {
        b
    } else if b == SIGN {
        0
    } else if b < SIGN {
        (b + 1) as u64
    } else {
        (b - 1) as u64
    }
}

pub fn next_up(b: u64) -> (r: u64)
    ensures
        r == next_up_of(b),
{
    if is_nan(b) || b == INFINITY {
        b
    } else if b == SIGN {
        0
    } else if b < SIGN {
        b + 1
    } else {
        b - 1
    }
}

pub fn next_down(b: u64) -> (r: u64)
    ensures
        r == negated_bits(next_up_of(negated_bits(b))),
{
    negate(next_up(negate(b)))
}

/// The next float that is numerically greater; both zeros step past each other.
pub open spec fn next_above(b: u64) -> u64 {
    let v = next_up_of(b);
    if !is_nan_bits(v) && value_key(v) == value_key(b) {
        next_up_of(v)
    } else {
        v
    }
}

pub fn next_up_strict(b: u64) -> (r: u64)
    ensures
        r == next_above(b),
{
    let v: u64 = next_up(b);
    if le(v, b) && le(b, v) {
        next_up(v)
    } else {
        v
    }
}

pub fn next_down_strict(b: u64) -> (r: u64)
    ensures
        r == negated_bits(next_above(negated_bits(b))),
{
    negate(next_up_strict(negate(b)))
}

/// One step upwards among the narrow floats of `width` bits, on their own bits.
/// Both zeros step to the smallest positive number.
pub fn ieee_next_up_at_width(bits: u32, width: u32) -> (r: u32)
    requires
        width == 16 || width == 32,
        width == 16 ==> bits <= 0xFFFF,
    ensures
        ({
            let sign: u32 = if width == 16 {
                0x8000
            } else {
                0x8000_0000
            };
            let inf: u32 = if width == 16 {
                0x7C00
            } else {
                0x7F80_0000
            };
            let m = if bits >= sign {
                bits - sign
            } else {
                bits as int
            };
            r == (if m > inf || bits == inf {
                bits as int
            } else if m == 0 {
                1
            } else if bits < sign {
                bits + 1
            } else {
                bits - 1
            })
        }),
{
    let (sign, inf): (u32, u32) = if width == 16 {
        (0x8000, 0x7C00)
    } else {
        (0x8000_0000, 0x7F80_0000)
    };
    let m: u32 = if bits >= sign {
        bits - sign
    } else {
        bits
    };
    if m > inf || bits == inf {
        bits
    } else if m == 0 {
        1
    } else if bits < sign {
        bits + 1
    } else {
        bits - 1
    }
}

/// The bits of the largest finite number that fits in `width` bits.
pub fn max_finite_for_width(width: u32) -> (r: u64)
    ensures
        r == (if width == 16 {
            0x40EF_FC00_0000_0000u64
        } else if width == 32 {
            0x47EF_FFFF_E000_0000u64
        } else {
            MAX_FINITE
        }),
{
    if width == 16 {
        0x40EF_FC00_0000_0000
    } else if width == 32 {
        0x47EF_FFFF_E000_0000
    } else {
        MAX_FINITE
    }
}

/// The sign-aware comparison is a total order on everything that is a number:
/// two floats that are each at most the other have the same bits.
pub proof fn sign_aware_order_is_total(x: u64, y: u64, z: u64)
    requires
        !is_nan_bits(x),
        !is_nan_bits(y),
        !is_nan_bits(z),
    ensures
        sign_aware_le(x, x),
        sign_aware_le(x, y) || sign_aware_le(y, x),
        sign_aware_le(x, y) && sign_aware_le(y, x) ==> x == y,
        sign_aware_le(x, y) && sign_aware_le(y, z) ==> sign_aware_le(x, z),
{
}

/// Whatever `mixed` is, a clamped float lies between its bounds, unless it is a
/// permitted NaN.
pub proof fn clamping_stays_within_bounds(f: u64, mixed: u64, b: FloatBounds)
    requires
        sign_aware_le(b.min_value, b.max_value),
        !is_nan_bits(b.min_value),
        !is_nan_bits(b.max_value),
    ensures
        ({
            let r = float_clamped(f, mixed, b);
            (is_nan_bits(r) && b.allow_nan && r == f) || (sign_aware_le(b.min_value, r)
                && sign_aware_le(r, b.max_value))
        }),
        float_permitted(f, b) ==> float_clamped(f, mixed, b) == f,
{
    sign_aware_order_is_total(b.min_value, b.max_value, b.min_value);
    sign_aware_order_is_total(b.max_value, b.min_value, b.max_value);
}

/// A step upwards leads to the next number: nothing lies in between.
pub proof fn next_up_is_the_successor(b: u64, other: u64)
    requires
        !is_nan_bits(b),
        !is_nan_bits(other),
        b != INFINITY,
    ensures
        sign_aware_le(b, next_up_of(b)),
        next_up_of(b) != b,
        sign_aware_le(b, other) && other != b ==> sign_aware_le(next_up_of(b), other),
        float_lt(b, next_above(b)),
        float_lt(b, other) ==> float_le(next_above(b), other),
{
}

} // verus!
