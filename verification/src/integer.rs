//! Integers of unbounded size.
//!
//! An [`Int`] is kept as its big-endian two's-complement bytes, which is also how
//! integers are written to disk. The arithmetic is `num_bigint`'s.
use num_bigint::BigInt;
use num_integer::Integer;
use num_traits::ToPrimitive;
use vstd::arithmetic::power::pow;
use vstd::arithmetic::power2::pow2;
use vstd::prelude::*;

verus! {

/// The number written by `s` in base 256, most significant byte first.
pub open spec fn unsigned_be(s: Seq<u8>) -> int
    decreases s.len(),
{
    if s.len() == 0 {
        0
    } else {
        unsigned_be(s.drop_last()) * 256 + s.last()
    }
}

/// The number written by `s` in two's complement, most significant byte first.
/// No bytes at all write zero.
pub open spec fn signed_be(s: Seq<u8>) -> int {
    if s.len() > 0 && s[0] >= 128 {
        unsigned_be(s) - pow(256, s.len())
    } else {
        unsigned_be(s)
    }
}

/// `n` fits in `bits` bits: it is less than two to that power.
pub open spec fn fits_bits(n: int, bits: int) -> bool {
    bits >= 0 && n < pow2(bits as nat)
}

/// The absolute value of `n`.
pub open spec fn magnitude(n: int) -> int {
    if n < 0 {
        -n
    } else {
        n
    }
}

/// `a` divided by a positive `b`, rounded towards zero.
pub open spec fn quotient(a: int, b: int) -> int {
    if a < 0 {
        -((-a) / b)
    } else {
        a / b
    }
}

/// The decimal digits of `n`, without a sign and without leading zeros.
pub open spec fn digits(n: nat) -> Seq<char>
    decreases n,
{
    if n < 10 {
        seq![digit(n)]
    } else {
        digits(n / 10).push(digit(n % 10))
    }
}

/// One decimal digit.
pub open spec fn digit(n: nat) -> char {
    ('0' as u8 + n) as u8 as char
}

/// `n` in decimal, as it is shown to a user.
pub open spec fn decimal(n: int) -> Seq<char> {
    if n < 0 {
        seq!['-'] + digits((-n) as nat)
    } else {
        digits(n as nat)
    }
}

/// An integer of any size.
#[derive(Debug)]
pub struct Int {
    pub bytes: Vec<u8>,
}

impl View for Int {
    type V = int;

    open spec fn view(&self) -> int {
        signed_be(self.bytes@)
    }
}

/// `BigInt::from(i64)`: the number `v`.
#[verifier::external_body]
fn big_from_i64(v: i64) -> (r: Vec<u8>)
    ensures
        signed_be(r@) == v,
{
    BigInt::from(v).to_signed_bytes_be()
}

/// `BigInt::from(u64)`: the number `v`.
#[verifier::external_body]
fn big_from_u64(v: u64) -> (r: Vec<u8>)
    ensures
        signed_be(r@) == v,
{
    BigInt::from(v).to_signed_bytes_be()
}

/// `+` on `BigInt`: the sum.
#[verifier::external_body]
fn big_add(a: &Vec<u8>, b: &Vec<u8>) -> (r: Vec<u8>)
    ensures
        signed_be(r@) == signed_be(a@) + signed_be(b@),
{
    (BigInt::from_signed_bytes_be(a) + BigInt::from_signed_bytes_be(b)).to_signed_bytes_be()
}

/// `-` on `BigInt`: the difference.
#[verifier::external_body]
fn big_sub(a: &Vec<u8>, b: &Vec<u8>) -> (r: Vec<u8>)
    ensures
        signed_be(r@) == signed_be(a@) - signed_be(b@),
{
    (BigInt::from_signed_bytes_be(a) - BigInt::from_signed_bytes_be(b)).to_signed_bytes_be()
}

/// `*` on `BigInt`: the product.
#[verifier::external_body]
fn big_mul(a: &Vec<u8>, b: &Vec<u8>) -> (r: Vec<u8>)
    ensures
        signed_be(r@) == signed_be(a@) * signed_be(b@),
{
    (BigInt::from_signed_bytes_be(a) * BigInt::from_signed_bytes_be(b)).to_signed_bytes_be()
}

/// `/` on `BigInt`: the quotient rounded towards zero, for a positive divisor.
#[verifier::external_body]
fn big_div(a: &Vec<u8>, b: &Vec<u8>) -> (r: Vec<u8>)
    requires
        signed_be(b@) > 0,
    ensures
        signed_be(r@) == quotient(signed_be(a@), signed_be(b@)),
{
    (BigInt::from_signed_bytes_be(a) / BigInt::from_signed_bytes_be(b)).to_signed_bytes_be()
}

/// `%` on `BigInt`: the remainder that goes with `/`, for a positive divisor.
#[verifier::external_body]
fn big_rem(a: &Vec<u8>, b: &Vec<u8>) -> (r: Vec<u8>)
    requires
        signed_be(b@) > 0,
    ensures
        signed_be(r@) == signed_be(a@) - signed_be(b@) * quotient(signed_be(a@), signed_be(b@)),
{
    (BigInt::from_signed_bytes_be(a) % BigInt::from_signed_bytes_be(b)).to_signed_bytes_be()
}

/// `Integer::div_floor` of `num_integer`: the quotient rounded down, for a
/// positive divisor.
#[verifier::external_body]
fn big_div_floor(a: &Vec<u8>, b: &Vec<u8>) -> (r: Vec<u8>)
    requires
        signed_be(b@) > 0,
    ensures
        signed_be(r@) == signed_be(a@) / signed_be(b@),
{
    BigInt::from_signed_bytes_be(a).div_floor(&BigInt::from_signed_bytes_be(b)).to_signed_bytes_be()
}

/// `Integer::mod_floor` of `num_integer`: the remainder that goes with
/// `div_floor`, which is never negative for a positive divisor.
#[verifier::external_body]
fn big_mod_floor(a: &Vec<u8>, b: &Vec<u8>) -> (r: Vec<u8>)
    requires
        signed_be(b@) > 0,
    ensures
        signed_be(r@) == signed_be(a@) % signed_be(b@),
{
    BigInt::from_signed_bytes_be(a).mod_floor(&BigInt::from_signed_bytes_be(b)).to_signed_bytes_be()
}

/// `BigInt::pow`: the base multiplied by itself `exponent` times.
#[verifier::external_body]
fn big_pow(base: &Vec<u8>, exponent: u32) -> (r: Vec<u8>)
    ensures
        signed_be(r@) == pow(signed_be(base@), exponent as nat),
{
    BigInt::from_signed_bytes_be(base).pow(exponent).to_signed_bytes_be()
}

/// `<` on `BigInt`: whether the first number is the smaller one.
#[verifier::external_body]
fn big_lt(a: &Vec<u8>, b: &Vec<u8>) -> (r: bool)
    ensures
        r == (signed_be(a@) < signed_be(b@)),
{
    BigInt::from_signed_bytes_be(a) < BigInt::from_signed_bytes_be(b)
}

/// `==` on `BigInt`: whether the numbers are the same.
#[verifier::external_body]
fn big_eq(a: &Vec<u8>, b: &Vec<u8>) -> (r: bool)
    ensures
        r == (signed_be(a@) == signed_be(b@)),
{
    BigInt::from_signed_bytes_be(a) == BigInt::from_signed_bytes_be(b)
}

/// `BigInt::bits`: how many bits the absolute value takes, none for zero.
#[verifier::external_body]
fn big_bits(a: &Vec<u8>) -> (r: u64)
    ensures
        fits_bits(magnitude(signed_be(a@)), r as int),
        r > 0 ==> !fits_bits(magnitude(signed_be(a@)), r - 1),
{
    BigInt::from_signed_bytes_be(a).bits()
}

/// `ToPrimitive::to_i64` of `num_traits`: the number, where it fits.
#[verifier::external_body]
fn big_to_i64(a: &Vec<u8>) -> (r: Option<i64>)
    ensures
        r == (if i64::MIN <= signed_be(a@) <= i64::MAX {
            Some(signed_be(a@) as i64)
        } else {
            None
        }),
{
    BigInt::from_signed_bytes_be(a).to_i64()
}

/// `ToPrimitive::to_u64` of `num_traits`: the number, where it fits.
#[verifier::external_body]
fn big_to_u64(a: &Vec<u8>) -> (r: Option<u64>)
    ensures
        r == (if 0 <= signed_be(a@) <= u64::MAX {
            Some(signed_be(a@) as u64)
        } else {
            None
        }),
{
    BigInt::from_signed_bytes_be(a).to_u64()
}

/// `BigInt::to_str_radix` with radix ten: the digits, behind a minus sign where
/// the number is negative.
#[verifier::external_body]
fn big_decimal(a: &Vec<u8>) -> (r: String)
    ensures
        r@ == decimal(signed_be(a@)),
{
    BigInt::from_signed_bytes_be(a).to_str_radix(10)
}

impl Clone for Int {
    fn clone(&self) -> (r: Int)
        ensures
            r@ == self@,
            r.bytes@ == self.bytes@,
    {
        Int { bytes: self.bytes.clone() }
    }
}

impl Int {
    /// The number `v`.
    pub fn of(v: i64) -> (r: Int)
        ensures
            r@ == v,
    {
        Int { bytes: big_from_i64(v) }
    }

    /// The number `v`.
    pub fn of_unsigned(v: u64) -> (r: Int)
        ensures
            r@ == v,
    {
        Int { bytes: big_from_u64(v) }
    }

    pub fn plus(&self, other: &Int) -> (r: Int)
        ensures
            r@ == self@ + other@,
    {
        Int { bytes: big_add(&self.bytes, &other.bytes) }
    }

    pub fn minus(&self, other: &Int) -> (r: Int)
        ensures
            r@ == self@ - other@,
    {
        Int { bytes: big_sub(&self.bytes, &other.bytes) }
    }

    pub fn times(&self, other: &Int) -> (r: Int)
        ensures
            r@ == self@ * other@,
    {
        Int { bytes: big_mul(&self.bytes, &other.bytes) }
    }

    /// The quotient rounded towards zero.
    pub fn over(&self, other: &Int) -> (r: Int)
        requires
            other@ > 0,
        ensures
            r@ == quotient(self@, other@),
    {
        Int { bytes: big_div(&self.bytes, &other.bytes) }
    }

    /// The remainder that goes with `over`.
    pub fn rest(&self, other: &Int) -> (r: Int)
        requires
            other@ > 0,
        ensures
            r@ == self@ - other@ * quotient(self@, other@),
    {
        Int { bytes: big_rem(&self.bytes, &other.bytes) }
    }

    /// The quotient rounded down.
    pub fn div_floor(&self, other: &Int) -> (r: Int)
        requires
            other@ > 0,
        ensures
            r@ == self@ / other@,
    {
        Int { bytes: big_div_floor(&self.bytes, &other.bytes) }
    }

    /// The remainder that goes with `div_floor`.
    pub fn mod_floor(&self, other: &Int) -> (r: Int)
        requires
            other@ > 0,
        ensures
            r@ == self@ % other@,
    {
        Int { bytes: big_mod_floor(&self.bytes, &other.bytes) }
    }

    pub fn power(&self, exponent: u32) -> (r: Int)
        ensures
            r@ == pow(self@, exponent as nat),
    {
        Int { bytes: big_pow(&self.bytes, exponent) }
    }

    /// Whether `self` is less than `other`.
    pub fn less(&self, other: &Int) -> (r: bool)
        ensures
            r == (self@ < other@),
    {
        big_lt(&self.bytes, &other.bytes)
    }

    /// Whether the two are the same number.
    pub fn same(&self, other: &Int) -> (r: bool)
        ensures
            r == (self@ == other@),
    {
        big_eq(&self.bytes, &other.bytes)
    }

    pub fn is_zero(&self) -> (r: bool)
        ensures
            r == (self@ == 0),
    {
        self.same(&Int::of(0))
    }

    pub fn is_negative(&self) -> (r: bool)
        ensures
            r == (self@ < 0),
    {
        self.less(&Int::of(0))
    }

    pub fn negated(&self) -> (r: Int)
        ensures
            r@ == -self@,
    {
        Int::of(0).minus(self)
    }

    /// The absolute value.
    pub fn abs(&self) -> (r: Int)
        ensures
            r@ == magnitude(self@),
    {
        if self.is_negative() {
            self.negated()
        } else {
            self.clone()
        }
    }

    /// How many bits the absolute value takes.
    pub fn bits(&self) -> (r: u64)
        ensures
            fits_bits(magnitude(self@), r as int),
            r > 0 ==> !fits_bits(magnitude(self@), r - 1),
    {
        big_bits(&self.bytes)
    }

    pub fn to_i64(&self) -> (r: Option<i64>)
        ensures
            r == (if i64::MIN <= self@ <= i64::MAX {
                Some(self@ as i64)
            } else {
                None
            }),
    {
        big_to_i64(&self.bytes)
    }

    pub fn to_u64(&self) -> (r: Option<u64>)
        ensures
            r == (if 0 <= self@ <= u64::MAX {
                Some(self@ as u64)
            } else {
                None
            }),
    {
        big_to_u64(&self.bytes)
    }

    /// The number in decimal.
    pub fn to_decimal(&self) -> (r: String)
        ensures
            r@ == decimal(self@),
    {
        big_decimal(&self.bytes)
    }
}

} // verus!
