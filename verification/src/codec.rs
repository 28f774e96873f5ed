//! The byte format of saved choice sequences.
//!
//! Every choice is a metadata byte, whose upper three bits are a tag and whose
//! lower five a size, and a payload. A size that does not fit below 31 follows the
//! metadata byte in ULEB128. Booleans have no payload: the size is the value.
//! Floats are eight bytes, integers are big-endian two's complement, strings are
//! UTF-8 in which lone surrogates are written like any other codepoint.
use crate::choice::{models, Choice, ChoiceModel, CODEPOINT_LIMIT};
use crate::integer::{fits_bits, magnitude, signed_be, unsigned_be, Int};
use vstd::arithmetic::power::{lemma_pow_adds, lemma_pow_positive, pow};
use vstd::arithmetic::power2::{lemma_pow2_unfold, pow2};
use vstd::prelude::*;

verus! {

/// The size that says that the real one follows.
pub const LONG_SIZE: usize = 31;

/// Why bytes are not a choice sequence.
#[derive(Clone, Copy, Debug, PartialEq, Eq, Structural)]
pub enum DecodeError {
    /// The payload ends before its size says.
    Truncated,
    /// A float that is not eight bytes long.
    ExpectedFloat,
    /// A tag that no kind of choice has.
    BadTag,
    /// A string that is not UTF-8.
    BadText,
}

// ---- the format -------------------------------------------------------------

/// `n` in ULEB128: seven bits per byte, the lowest first, and the eighth bit set
/// on all bytes but the last.
pub open spec fn uleb128(n: nat) -> Seq<u8>
    decreases n,
{
    if n < 128 {
        seq![n as u8]
    } else {
        seq![(n % 128 + 128) as u8] + uleb128(n / 128)
    }
}

/// What is read as ULEB128 at the start of `b`: how many bytes it takes, and the
/// number. Reading stops at the end of the bytes; nothing at all reads as one byte
/// of zero.
pub open spec fn read_uleb128(b: Seq<u8>) -> (int, nat)
    decreases b.len(),
{
    if b.len() == 0 {
        (1, 0)
    } else if b[0] < 128 || b.len() == 1 {
        (1, (b[0] % 128) as nat)
    } else {
        let (taken, rest) = read_uleb128(b.drop_first());
        (taken + 1, (b[0] % 128) as nat + 128 * rest)
    }
}

/// The `len` lowest bytes of `n`, the highest first.
pub open spec fn be_bytes(n: int, len: nat) -> Seq<u8>
    decreases len,
{
    if len == 0 {
        Seq::empty()
    } else {
        be_bytes(n / 256, (len - 1) as nat).push((n % 256) as u8)
    }
}

/// How many bytes the payload of an integer has.
pub open spec fn integer_len(bits: nat) -> nat {
    1 + bits / 8
}

/// `bits` is the number of binary digits of the absolute value of `n`.
pub open spec fn has_bits(n: int, bits: nat) -> bool {
    fits_bits(magnitude(n), bits as int) && (bits > 0 ==> !fits_bits(magnitude(n), bits - 1))
}

/// The number of binary digits of the absolute value of `n`.
pub open spec fn bits_of(n: int) -> nat {
    crate::floats::bit_length(magnitude(n))
}

/// The payload of an integer.
pub open spec fn integer_payload(n: int) -> Seq<u8> {
    be_bytes(n, integer_len(bits_of(n)))
}

/// One codepoint in UTF-8.
pub open spec fn utf8_codepoint(c: u32) -> Seq<u8> {
    if c < 0x80 {
        seq![c as u8]
    } else if c < 0x800 {
        seq![(0xC0 + c / 0x40) as u8, (0x80 + c % 0x40) as u8]
    } else if c < 0x1_0000 {
        seq![
            (0xE0 + c / 0x1000) as u8,
            (0x80 + c / 0x40 % 0x40) as u8,
            (0x80 + c % 0x40) as u8,
        ]
    } else {
        seq![
            (0xF0 + c / 0x4_0000) as u8,
            (0x80 + c / 0x1000 % 0x40) as u8,
            (0x80 + c / 0x40 % 0x40) as u8,
            (0x80 + c % 0x40) as u8,
        ]
    }
}

/// A string in UTF-8.
pub open spec fn utf8(t: Seq<u32>) -> Seq<u8>
    decreases t.len(),
{
    if t.len() == 0 {
        Seq::empty()
    } else {
        utf8_codepoint(t[0]) + utf8(t.drop_first())
    }
}

/// How many bytes follow a leading byte, if it can lead at all.
pub open spec fn utf8_length(lead: u8) -> Option<int> {
    if lead < 0x80 {
        Some(1)
    } else if lead < 0xC2 {
        None
    } else if lead < 0xE0 {
        Some(2)
    } else if lead < 0xF0 {
        Some(3)
    } else if lead < 0xF5 {
        Some(4)
    } else {
        None
    }
}

/// The byte continues a codepoint.
pub open spec fn utf8_continues(b: u8) -> bool {
    0x80 <= b < 0xC0
}

/// The codepoint at the start of `b`, if there is one: each codepoint has only its
/// shortest form.
pub open spec fn utf8_first(b: Seq<u8>) -> Option<(u32, int)> {
    if b.len() == 0 || utf8_length(b[0]) is None || b.len() < utf8_length(b[0])->0 {
        None
    } else if utf8_length(b[0])->0 == 1 {
        Some((b[0] as u32, 1))
    } else if utf8_length(b[0])->0 == 2 {
        if utf8_continues(b[1]) {
            Some((((b[0] - 0xC0) * 0x40 + (b[1] - 0x80)) as u32, 2))
        } else {
            None
        }
    } else if utf8_length(b[0])->0 == 3 {
        let c = (b[0] - 0xE0) * 0x1000 + (b[1] - 0x80) * 0x40 + (b[2] - 0x80);
        if utf8_continues(b[1]) && utf8_continues(b[2]) && c >= 0x800 {
            Some((c as u32, 3))
        } else {
            None
        }
    } else {
        let c = (b[0] - 0xF0) * 0x4_0000 + (b[1] - 0x80) * 0x1000 + (b[2] - 0x80) * 0x40 + (b[3]
            - 0x80);
        if utf8_continues(b[1]) && utf8_continues(b[2]) && utf8_continues(b[3]) && 0x1_0000 <= c
            < CODEPOINT_LIMIT {
            Some((c as u32, 4))
        } else {
            None
        }
    }
}

/// The string that `b` is in UTF-8, if it is one.
pub open spec fn utf8_text(b: Seq<u8>) -> Option<Seq<u32>>
    decreases b.len(),
{
    if b.len() == 0 {
        Some(Seq::empty())
    } else {
        match utf8_first(b) {
            Some((c, taken)) => if 0 < taken <= b.len() {
                match utf8_text(b.skip(taken)) {
                    Some(rest) => Some(seq![c] + rest),
                    None => None,
                }
            } else {
                None
            },
            None => None,
        }
    }
}

/// The tag of a kind of choice.
pub open spec fn tag_of(c: ChoiceModel) -> int {
    match c {
        ChoiceModel::Boolean(_) => 0,
        ChoiceModel::Float(_) => 1,
        ChoiceModel::Integer(_) => 2,
        ChoiceModel::Bytes(_) => 3,
        ChoiceModel::Text(_) => 4,
    }
}

/// The payload of a choice.
pub open spec fn payload_of(c: ChoiceModel) -> Seq<u8> {
    match c {
        ChoiceModel::Boolean(_) => Seq::empty(),
        ChoiceModel::Float(f) => be_bytes(f as int, 8),
        ChoiceModel::Integer(n) => integer_payload(n),
        ChoiceModel::Bytes(b) => b,
        ChoiceModel::Text(t) => utf8(t),
    }
}

/// The metadata byte, and the size behind it where it is long.
pub open spec fn header(tag: int, size: nat) -> Seq<u8> {
    if size < LONG_SIZE {
        seq![(tag * 32 + size) as u8]
    } else {
        seq![(tag * 32 + LONG_SIZE) as u8] + uleb128(size)
    }
}

/// One choice in bytes.
pub open spec fn encoded(c: ChoiceModel) -> Seq<u8> {
    match c {
        ChoiceModel::Boolean(b) => seq![
            if b {
                1u8
            } else {
                0u8
            },
        ],
        _ => header(tag_of(c), payload_of(c).len()) + payload_of(c),
    }
}

/// A sequence of choices in bytes.
pub open spec fn encoded_all(s: Seq<ChoiceModel>) -> Seq<u8>
    decreases s.len(),
{
    if s.len() == 0 {
        Seq::empty()
    } else {
        encoded(s[0]) + encoded_all(s.drop_first())
    }
}

/// What a payload stands for under a tag.
pub open spec fn payload_choice(tag: int, payload: Seq<u8>) -> Result<ChoiceModel, DecodeError> {
    if tag == 1 {
        if payload.len() == 8 {
            Ok(ChoiceModel::Float(unsigned_be(payload) as u64))
        } else {
            Err(DecodeError::ExpectedFloat)
        }
    } else if tag == 2 {
        Ok(ChoiceModel::Integer(signed_be(payload)))
    } else if tag == 3 {
        Ok(ChoiceModel::Bytes(payload))
    } else if tag == 4 {
        match utf8_text(payload) {
            Some(t) => Ok(ChoiceModel::Text(t)),
            None => Err(DecodeError::BadText),
        }
    } else {
        Err(DecodeError::BadTag)
    }
}

/// Where the payload behind the metadata byte of `b` starts, and how long it says
/// it is.
pub open spec fn payload_place(b: Seq<u8>) -> (int, nat) {
    let size = b[0] % 32;
    if size == LONG_SIZE {
        let (taken, long) = read_uleb128(b.drop_first());
        (1 + taken, long)
    } else {
        (1, size as nat)
    }
}

/// The choice at the start of `b`, and how many bytes it takes.
pub open spec fn decoded_first(b: Seq<u8>) -> Result<(ChoiceModel, int), DecodeError>
    recommends
        b.len() > 0,
{
    let tag = b[0] as int / 32;
    if tag == 0 {
        Ok((ChoiceModel::Boolean(b[0] != 0), 1))
    } else {
        let (start, size) = payload_place(b);
        if start + size > b.len() {
            Err(DecodeError::Truncated)
        } else {
            match payload_choice(tag, b.subrange(start, start + size)) {
                Ok(c) => Ok((c, start + size)),
                Err(e) => Err(e),
            }
        }
    }
}

/// The choices that `b` holds.
pub open spec fn decoded_all(b: Seq<u8>) -> Result<Seq<ChoiceModel>, DecodeError>
    decreases b.len(),
{
    if b.len() == 0 {
        Ok(Seq::empty())
    } else {
        match decoded_first(b) {
            Ok((c, taken)) => if 0 < taken <= b.len() {
                match decoded_all(b.skip(taken)) {
                    Ok(rest) => Ok(seq![c] + rest),
                    Err(e) => Err(e),
                }
            } else {
                Err(DecodeError::Truncated)
            },
            Err(e) => Err(e),
        }
    }
}

// ---- ULEB128 ----------------------------------------------------------------

pub fn pack_uleb128(value: usize, out: &mut Vec<u8>)
    ensures
        final(out)@ == old(out)@ + uleb128(value as nat),
{
    let mut rest: usize = value;
    while rest >= 128
        invariant
            out@ + uleb128(rest as nat) == old(out)@ + uleb128(value as nat),
        decreases rest,
    {
        let ghost before = out@;
        out.push((rest % 128 + 128) as u8);
        proof {
            let b = (rest % 128 + 128) as u8;
            assert(before + uleb128(rest as nat) =~= out@ + uleb128((rest / 128) as nat));
        }
        rest = rest / 128;
    }
    let ghost before = out@;
    out.push(rest as u8);
    proof {
        assert(before + uleb128(rest as nat) =~= out@);
    }
}

/// How many bytes `n` takes in ULEB128.
pub fn uleb128_len(n: u64) -> (r: usize)
    ensures
        r == uleb128(n as nat).len(),
        r <= 10,
{
    let mut len: usize = 1;
    let mut v: u64 = n;
    proof {
        lemma_ten_bytes_suffice();
        lemma_uleb128_len(n as nat, 10);
    }
    while v >= 128
        invariant
            len - 1 + uleb128(v as nat).len() == uleb128(n as nat).len(),
            uleb128(n as nat).len() <= 10,
            1 <= len,
        decreases v,
    {
        proof {
            assert(uleb128(v as nat).len() == 1 + uleb128((v / 128) as nat).len());
            assert(uleb128((v / 128) as nat).len() >= 1);
        }
        len = len + 1;
        v = v / 128;
    }
    len
}

proof fn lemma_uleb128_len(n: nat, k: nat)
    requires
        k > 0,
        n < pow(128, k),
    ensures
        1 <= uleb128(n).len() <= k,
    decreases k,
{
    reveal(pow);
    if n >= 128 {
        if k == 1 {
            assert(pow(128, 1) == 128 * pow(128, 0));
        } else {
            assert(pow(128, k) == 128 * pow(128, (k - 1) as nat));
            lemma_uleb128_len(n / 128, (k - 1) as nat);
        }
    }
}

proof fn lemma_ten_bytes_suffice()
    ensures
        u64::MAX < pow(128, 10),
{
    reveal_with_fuel(pow, 11);
    assert(pow(128, 10) == 0x40_0000_0000_0000_0000);
}

/// What is read as ULEB128 from position `start` on: how many bytes it takes and
/// the number, or the largest machine number where it is greater.
pub fn unpack_uleb128(buffer: &Vec<u8>, start: usize) -> (r: (usize, usize))
    requires
        start <= buffer.len(),
    ensures
        ({
            let (taken, value) = read_uleb128(buffer@.skip(start as int));
            r.0 == taken && r.1 == (if value <= usize::MAX {
                value as int
            } else {
                usize::MAX as int
            })
        }),
        start < buffer.len() ==> start + r.0 <= buffer.len(),
        r.0 >= 1,
{
    if start == buffer.len() {
        return (1, 0);
    }
    let mut last: usize = start;
    while buffer[last] >= 128 && last + 1 < buffer.len()
        invariant
            start <= last < buffer.len(),
            forall|k: int| start <= k < last ==> #[trigger] buffer@[k] >= 128,
        decreases buffer.len() - last,
    {
        last = last + 1;
    }
    let mut at: usize = last;
    let mut value: usize = (buffer[last] % 128) as usize;
    proof {
        let tail = buffer@.skip(last as int);
        assert(tail.len() == buffer.len() - last);
        assert(tail[0] == buffer@[last as int]);
    }
    while at > start
        invariant
            start <= at <= last < buffer.len(),
            forall|k: int| start <= k < last ==> #[trigger] buffer@[k] >= 128,
            ({
                let (taken, v) = read_uleb128(buffer@.skip(at as int));
                taken == last - at + 1 && value == (if v <= usize::MAX {
                    v as int
                } else {
                    usize::MAX as int
                })
            }),
        decreases at,
    {
        at = at - 1;
        let digit: usize = (buffer[at] % 128) as usize;
        proof {
            let tail = buffer@.skip(at as int);
            assert(tail.drop_first() =~= buffer@.skip(at + 1));
            assert(tail[0] == buffer@[at as int]);
            assert(tail.len() > 1);
        }
        value = if value > (usize::MAX - digit) / 128 {
            usize::MAX
        } else {
            value * 128 + digit
        };
    }
    (last - start + 1, value)
}

// ---- integers as bytes ------------------------------------------------------

proof fn lemma_be_bytes_len(n: int, len: nat)
    ensures
        be_bytes(n, len).len() == len,
    decreases len,
{
    if len > 0 {
        lemma_be_bytes_len(n / 256, (len - 1) as nat);
    }
}

proof fn lemma_be_bytes_value(n: int, len: nat)
    ensures
        unsigned_be(be_bytes(n, len)) == n % pow(256, len),
    decreases len,
{
    reveal(pow);
    lemma_be_bytes_len(n, len);
    if len > 0 {
        let m = (len - 1) as nat;
        let p = pow(256, m);
        lemma_pow_positive(256, m);
        lemma_be_bytes_value(n / 256, m);
        assert(be_bytes(n, len).drop_last() =~= be_bytes(n / 256, m));
        let q = n / 256;
        vstd::arithmetic::div_mod::lemma_fundamental_div_mod(q, p);
        vstd::arithmetic::div_mod::lemma_mod_bound(q, p);
        let low = 256 * (q % p) + n % 256;
        assert(n == (256 * p) * (q / p) + low) by (nonlinear_arith)
            requires
                n == 256 * q + n % 256,
                q == p * (q / p) + q % p,
                low == 256 * (q % p) + n % 256,
        ;
        assert((256 * p) * (q / p) == (q / p) * (256 * p)) by (nonlinear_arith);
        vstd::arithmetic::div_mod::lemma_fundamental_div_mod_converse(n, 256 * p, q / p, low);
    }
}

proof fn lemma_unsigned_bounded(s: Seq<u8>)
    ensures
        0 <= unsigned_be(s) < pow(256, s.len()),
    decreases s.len(),
{
    reveal(pow);
    if s.len() > 0 {
        lemma_unsigned_bounded(s.drop_last());
    }
}

proof fn lemma_unsigned_injective(s: Seq<u8>, t: Seq<u8>)
    requires
        s.len() == t.len(),
        unsigned_be(s) == unsigned_be(t),
    ensures
        s == t,
    decreases s.len(),
{
    if s.len() > 0 {
        lemma_unsigned_injective(s.drop_last(), t.drop_last());
        assert(s =~= s.drop_last().push(s.last()));
        assert(t =~= t.drop_last().push(t.last()));
    } else {
        assert(s =~= t);
    }
}

/// The leading byte has the greatest weight.
proof fn lemma_unsigned_lead(s: Seq<u8>)
    requires
        s.len() > 0,
    ensures
        unsigned_be(s) == s[0] * pow(256, (s.len() - 1) as nat) + unsigned_be(s.drop_first()),
    decreases s.len(),
{
    reveal(pow);
    if s.len() == 1 {
        assert(s.drop_last() =~= Seq::<u8>::empty());
        assert(s.drop_first() =~= Seq::<u8>::empty());
        assert(s.last() == s[0]);
        assert(unsigned_be(s.drop_last()) == 0);
        assert(unsigned_be(s.drop_first()) == 0);
        assert(pow(256, 0) == 1);
        assert(s[0] * 1 == s[0]);
    } else {
        let front = s.drop_last();
        lemma_unsigned_lead(front);
        assert(front.drop_first() =~= s.drop_first().drop_last());
        assert(s.drop_first().last() == s.last());
        let p = pow(256, (s.len() - 2) as nat);
        assert(pow(256, (s.len() - 1) as nat) == 256 * p);
        let a = s[0] as int;
        let u = unsigned_be(s.drop_first().drop_last());
        assert(front[0] == s[0]);
        assert(unsigned_be(s) == (a * p + u) * 256 + s.last());
        assert(unsigned_be(s.drop_first()) == u * 256 + s.last());
        assert((a * p + u) * 256 == a * (256 * p) + u * 256) by (nonlinear_arith);
    }
}

/// The sign shows in the leading byte.
proof fn lemma_sign_byte(s: Seq<u8>)
    requires
        s.len() > 0,
    ensures
        s[0] >= 128 <==> 2 * unsigned_be(s) >= pow(256, s.len()),
        -pow(256, s.len()) <= 2 * signed_be(s) < pow(256, s.len()),
{
    lemma_unsigned_lead(s);
    lemma_unsigned_bounded(s.drop_first());
    reveal(pow);
    let p = pow(256, (s.len() - 1) as nat);
    let a = s[0] as int;
    lemma_pow_positive(256, (s.len() - 1) as nat);
    assert(pow(256, s.len()) == 256 * p);
    if a >= 128 {
        assert(a * p >= 128 * p) by (nonlinear_arith)
            requires
                a >= 128,
                p > 0,
        ;
    } else {
        assert(a * p <= 127 * p) by (nonlinear_arith)
            requires
                a <= 127,
                p > 0,
        ;
    }
    lemma_unsigned_bounded(s);
}

/// A number within range is read back from its two's-complement bytes.
proof fn lemma_be_bytes_signed(n: int, len: nat)
    requires
        len > 0,
        -pow(256, len) <= 2 * n < pow(256, len),
    ensures
        signed_be(be_bytes(n, len)) == n,
{
    let s = be_bytes(n, len);
    let p = pow(256, len);
    lemma_pow_positive(256, len);
    lemma_be_bytes_len(n, len);
    lemma_be_bytes_value(n, len);
    lemma_sign_byte(s);
    if n >= 0 {
        vstd::arithmetic::div_mod::lemma_small_mod(n as nat, p as nat);
    } else {
        vstd::arithmetic::div_mod::lemma_fundamental_div_mod_converse(n, p, -1, n + p);
    }
}

/// Bytes with a value are the bytes of that value.
proof fn lemma_bytes_of_value(s: Seq<u8>)
    requires
        s.len() > 0,
    ensures
        be_bytes(signed_be(s), s.len()) == s,
{
    let n = signed_be(s);
    let p = pow(256, s.len());
    lemma_be_bytes_len(n, s.len());
    lemma_be_bytes_value(n, s.len());
    lemma_unsigned_bounded(s);
    if n == unsigned_be(s) {
        vstd::arithmetic::div_mod::lemma_small_mod(n as nat, p as nat);
    } else {
        vstd::arithmetic::div_mod::lemma_fundamental_div_mod_converse(n, p, -1, unsigned_be(s));
    }
    lemma_unsigned_injective(be_bytes(n, s.len()), s);
}

/// The byte that repeats the sign.
pub open spec fn sign_byte(s: Seq<u8>) -> u8 {
    if s.len() > 0 && s[0] >= 128 {
        0xFF
    } else {
        0
    }
}

proof fn lemma_sign_extends(s: Seq<u8>)
    ensures
        signed_be(seq![sign_byte(s)] + s) == signed_be(s),
{
    let t = seq![sign_byte(s)] + s;
    assert(t.drop_first() =~= s);
    lemma_unsigned_lead(t);
    reveal(pow);
    let p = pow(256, s.len());
    assert(pow(256, t.len()) == 256 * p);
    assert(t[0] == sign_byte(s));
    assert(0 * p == 0 && 0xFF * p == 256 * p - p);
    if s.len() == 0 {
        assert(unsigned_be(s) == 0);
    }
}

/// A leading byte that the value does not need can go.
proof fn lemma_lead_drops(s: Seq<u8>)
    requires
        s.len() >= 2,
        -pow(256, (s.len() - 1) as nat) <= 2 * signed_be(s) < pow(256, (s.len() - 1) as nat),
    ensures
        signed_be(s.drop_first()) == signed_be(s),
{
    let t = s.drop_first();
    lemma_unsigned_lead(s);
    lemma_unsigned_bounded(t);
    lemma_sign_byte(t);
    reveal(pow);
    let p = pow(256, t.len());
    assert(pow(256, s.len()) == 256 * p);
    let h = if s[0] >= 128 {
        s[0] - 256
    } else {
        s[0] as int
    };
    assert(signed_be(s) == h * p + unsigned_be(t)) by {
        if s[0] >= 128 {
            assert((s[0] - 256) * p == s[0] * p - 256 * p) by (nonlinear_arith);
        }
    }
    if h >= 1 {
        assert(h * p >= p) by (nonlinear_arith)
            requires
                h >= 1,
                p > 0,
        ;
    } else if h <= -2 {
        assert(h * p <= -2 * p) by (nonlinear_arith)
            requires
                h <= -2,
                p > 0,
        ;
    } else if h == -1 {
        assert(h * p == -p) by (nonlinear_arith)
            requires
                h == -1,
        ;
    } else {
        assert(h * p == 0) by (nonlinear_arith)
            requires
                h == 0,
        ;
    }
}

proof fn lemma_leads_drop(s: Seq<u8>, k: nat)
    requires
        k < s.len(),
        -pow(256, (s.len() - k) as nat) <= 2 * signed_be(s) < pow(256, (s.len() - k) as nat),
    ensures
        signed_be(s.skip(k as int)) == signed_be(s),
    decreases k,
{
    if k == 0 {
        assert(s.skip(0) =~= s);
    } else {
        let p = pow(256, (s.len() - k) as nat);
        lemma_pow_adds(256, (s.len() - k) as nat, (k - 1) as nat);
        lemma_pow_positive(256, (k - 1) as nat);
        lemma_pow_positive(256, (s.len() - k) as nat);
        let q = pow(256, (k - 1) as nat);
        assert(p * q >= p) by (nonlinear_arith)
            requires
                p > 0,
                q >= 1,
        ;
        lemma_lead_drops(s);
        lemma_leads_drop(s.drop_first(), (k - 1) as nat);
        assert(s.drop_first().skip(k - 1) =~= s.skip(k as int));
    }
}

proof fn lemma_pow256(n: nat)
    ensures
        pow(256, n) == pow2(8 * n),
    decreases n,
{
    reveal(pow);
    if n == 0 {
        vstd::arithmetic::power2::lemma2_to64();
    } else {
        lemma_pow256((n - 1) as nat);
        vstd::arithmetic::power2::lemma_pow2_adds(8, (8 * (n - 1)) as nat);
        vstd::arithmetic::power2::lemma2_to64();
    }
}

/// A payload has room for the number and its sign.
proof fn lemma_integer_fits(n: int, bits: nat)
    requires
        fits_bits(magnitude(n), bits as int),
    ensures
        -pow(256, integer_len(bits)) <= 2 * n < pow(256, integer_len(bits)),
{
    let len = integer_len(bits);
    lemma_pow256(len);
    let top = (8 * len - 1) as nat;
    lemma_pow2_unfold(8 * len);
    if bits < top {
        vstd::arithmetic::power2::lemma_pow2_strictly_increases(bits, top);
    }
}

proof fn lemma_bits_are_digits(n: int, bits: nat)
    requires
        has_bits(n, bits),
    ensures
        bits_of(n) == bits,
{
    let m = magnitude(n);
    if bits == 0 {
        vstd::arithmetic::power2::lemma2_to64();
    } else {
        crate::floats::bit_length_between_powers(m, (bits - 1) as nat);
    }
}

proof fn lemma_digits_are_bits(n: int)
    ensures
        fits_bits(magnitude(n), bits_of(n) as int),
{
    lemma_bit_length_fits(magnitude(n));
}

proof fn lemma_bit_length_fits(n: int)
    requires
        n >= 0,
    ensures
        n < pow2(crate::floats::bit_length(n)),
    decreases n,
{
    let b = crate::floats::bit_length(n);
    if n == 0 {
        vstd::arithmetic::power2::lemma2_to64();
    } else {
        lemma_bit_length_fits(n / 2);
        lemma_pow2_unfold(b);
    }
}

/// The big-endian two's-complement bytes of `v`, `len` of them.
fn integer_to_bytes(v: &Int, len: u64) -> (r: Vec<u8>)
    requires
        len > 0,
        -pow(256, len as nat) <= 2 * v@ < pow(256, len as nat),
    ensures
        r@ == be_bytes(v@, len as nat),
{
    let have: u64 = v.bytes.len() as u64;
    let mut out: Vec<u8> = Vec::new();
    let ghost all = v.bytes@;
    if have > len {
        let mut i: usize = (have - len) as usize;
        let ghost from = i as int;
        while i < v.bytes.len()
            invariant
                from <= i <= v.bytes.len(),
                all == v.bytes@,
                from >= 0,
                out@ == all.subrange(from, i as int),
            decreases v.bytes.len() - i,
        {
            out.push(v.bytes[i]);
            proof {
                assert(all.subrange(from, i + 1) =~= all.subrange(from, i as int).push(
                    all[i as int],
                ));
            }
            i = i + 1;
        }
        proof {
            assert(out@ =~= all.skip(from));
            lemma_leads_drop(all, from as nat);
            lemma_bytes_of_value(out@);
        }
        return out;
    }
    let sign: u8 = if v.bytes.len() > 0 && v.bytes[0] >= 128 {
        0xFF
    } else {
        0
    };
    let mut missing: u64 = len - have;
    proof {
        assert(out@ + all =~= all);
    }
    while missing > 0
        invariant
            all == v.bytes@,
            have == all.len(),
            have + missing + out@.len() == len,
            sign == sign_byte(all),
            signed_be(out@ + all) == v@,
            sign_byte(out@ + all) == sign,
            forall|k: int| 0 <= k < out@.len() ==> out@[k] == sign,
        decreases missing,
    {
        let ghost before = out@;
        out.push(sign);
        proof {
            lemma_sign_extends(before + all);
            assert(out@ + all =~= seq![sign] + (before + all));
        }
        missing = missing - 1;
    }
    let mut i: usize = 0;
    let ghost padding = out@;
    while i < v.bytes.len()
        invariant
            i <= v.bytes.len(),
            all == v.bytes@,
            out@ == padding + all.take(i as int),
        decreases v.bytes.len() - i,
    {
        out.push(v.bytes[i]);
        proof {
            assert(padding + all.take(i + 1) =~= (padding + all.take(i as int)).push(
                all[i as int],
            ));
        }
        i = i + 1;
    }
    proof {
        assert(all.take(i as int) =~= all);
        lemma_bytes_of_value(out@);
    }
    out
}

/// The eight bytes of a float, the highest first.
fn float_to_bytes(f: u64) -> (r: Vec<u8>)
    ensures
        r@ == be_bytes(f as int, 8),
{
    let mut out: Vec<u8> = Vec::new();
    let mut i: u64 = 8;
    let mut unit: u64 = 0x100_0000_0000_0000;
    let mut rest: u64 = f;
    proof {
        reveal_with_fuel(pow, 9);
        assert(pow(256, 8) == 0x1_0000_0000_0000_0000);
        assert(pow(256, 7) == 0x100_0000_0000_0000);
    }
    while i > 0
        invariant
            i <= 8,
            out@.len() == 8 - i,
            i > 0 ==> unit == pow(256, (i - 1) as nat),
            rest < pow(256, i as nat),
            unsigned_be(out@) * pow(256, i as nat) + rest == f,
        decreases i,
    {
        let ghost before = out@;
        proof {
            reveal(pow);
            assert(pow(256, i as nat) == 256 * unit);
            lemma_pow_positive(256, (i - 1) as nat);
        }
        let digit: u64 = rest / unit;
        proof {
            vstd::arithmetic::div_mod::lemma_fundamental_div_mod(rest as int, unit as int);
            assert(digit < 256) by (nonlinear_arith)
                requires
                    unit * digit <= rest,
                    rest < 256 * unit,
                    unit > 0,
            ;
        }
        out.push(digit as u8);
        proof {
            assert(out@.drop_last() =~= before);
            let u = unsigned_be(before);
            let next = rest as int % unit as int;
            assert(u * (256 * unit) + rest == (u * 256 + digit) * unit + next) by (nonlinear_arith)
                requires
                    rest == unit * digit + next,
            ;
        }
        rest = rest % unit;
        i = i - 1;
        if i > 0 {
            proof {
                reveal(pow);
                assert(pow(256, i as nat) == 256 * pow(256, (i - 1) as nat));
            }
            unit = unit / 256;
        }
    }
    proof {
        reveal(pow);
        assert(unsigned_be(out@) * 1 == unsigned_be(out@));
        assert(pow(256, 0) == 1);
        lemma_be_bytes_len(f as int, 8);
        lemma_be_bytes_value(f as int, 8);
        reveal_with_fuel(pow, 9);
        assert(pow(256, 8) == 0x1_0000_0000_0000_0000);
        vstd::arithmetic::div_mod::lemma_small_mod(f as nat, 0x1_0000_0000_0000_0000);
        lemma_unsigned_injective(out@, be_bytes(f as int, 8));
    }
    out
}

// ---- strings as bytes -------------------------------------------------------

/// Every character is a codepoint.
pub open spec fn text_valid(t: Seq<u32>) -> bool {
    forall|i: int| 0 <= i < t.len() ==> #[trigger] t[i] < CODEPOINT_LIMIT
}

fn push_codepoint(c: u32, out: &mut Vec<u8>)
    requires
        c < CODEPOINT_LIMIT,
    ensures
        final(out)@ == old(out)@ + utf8_codepoint(c),
{
    if c < 0x80 {
        out.push(c as u8);
    } else if c < 0x800 {
        out.push((0xC0 + c / 0x40) as u8);
        out.push((0x80 + c % 0x40) as u8);
    } else if c < 0x1_0000 {
        out.push((0xE0 + c / 0x1000) as u8);
        out.push((0x80 + c / 0x40 % 0x40) as u8);
        out.push((0x80 + c % 0x40) as u8);
    } else {
        out.push((0xF0 + c / 0x4_0000) as u8);
        out.push((0x80 + c / 0x1000 % 0x40) as u8);
        out.push((0x80 + c / 0x40 % 0x40) as u8);
        out.push((0x80 + c % 0x40) as u8);
    }
    proof {
        assert(out@ =~= old(out)@ + utf8_codepoint(c));
    }
}

proof fn lemma_utf8_push(t: Seq<u32>, c: u32)
    ensures
        utf8(t.push(c)) == utf8(t) + utf8_codepoint(c),
    decreases t.len(),
{
    let u = t.push(c);
    if t.len() == 0 {
        assert(u.drop_first() =~= Seq::<u32>::empty());
        assert(utf8(u.drop_first()) =~= Seq::<u8>::empty());
        assert(u[0] == c);
        assert(utf8(u) =~= utf8(t) + utf8_codepoint(c));
    } else {
        lemma_utf8_push(t.drop_first(), c);
        assert(u.drop_first() =~= t.drop_first().push(c));
        assert(utf8(u) =~= utf8(t) + utf8_codepoint(c));
    }
}

/// A string in UTF-8.
fn text_to_bytes(t: &Vec<u32>) -> (r: Vec<u8>)
    requires
        text_valid(t@),
    ensures
        r@ == utf8(t@),
{
    let mut out: Vec<u8> = Vec::new();
    let mut i: usize = 0;
    proof {
        assert(t@.take(0) =~= Seq::<u32>::empty());
    }
    while i < t.len()
        invariant
            i <= t.len(),
            text_valid(t@),
            out@ == utf8(t@.take(i as int)),
        decreases t.len() - i,
    {
        proof {
            lemma_utf8_push(t@.take(i as int), t@[i as int]);
            assert(t@.take(i + 1) =~= t@.take(i as int).push(t@[i as int]));
        }
        push_codepoint(t[i], &mut out);
        i = i + 1;
    }
    proof {
        assert(t@.take(i as int) =~= t@);
    }
    out
}

fn codepoint_at(b: &Vec<u8>, at: usize, end: usize) -> (r: Option<(u32, usize)>)
    requires
        at < end <= b.len(),
    ensures
        match utf8_first(b@.subrange(at as int, end as int)) {
            Some((c, taken)) => r == Some((c, taken as usize)) && 0 < taken <= end - at && c
                < CODEPOINT_LIMIT,
            None => r is None,
        },
{
    let ghost s = b@.subrange(at as int, end as int);
    let lead: u8 = b[at];
    proof {
        assert(s[0] == lead);
    }
    if lead < 0x80 {
        return Some((lead as u32, 1));
    }
    if lead < 0xC2 || lead >= 0xF5 {
        return None;
    }
    let len: usize = if lead < 0xE0 {
        2
    } else if lead < 0xF0 {
        3
    } else {
        4
    };
    if end - at < len {
        return None;
    }
    let b1: u8 = b[at + 1];
    proof {
        assert(s[1] == b1);
    }
    if b1 < 0x80 || b1 >= 0xC0 {
        return None;
    }
    if len == 2 {
        return Some(((lead as u32 - 0xC0) * 0x40 + (b1 as u32 - 0x80), 2));
    }
    let b2: u8 = b[at + 2];
    proof {
        assert(s[2] == b2);
    }
    if b2 < 0x80 || b2 >= 0xC0 {
        return None;
    }
    if len == 3 {
        let c: u32 = (lead as u32 - 0xE0) * 0x1000 + (b1 as u32 - 0x80) * 0x40 + (b2 as u32 - 0x80);
        if c < 0x800 {
            return None;
        }
        return Some((c, 3));
    }
    let b3: u8 = b[at + 3];
    proof {
        assert(s[3] == b3);
    }
    if b3 < 0x80 || b3 >= 0xC0 {
        return None;
    }
    let c: u32 = (lead as u32 - 0xF0) * 0x4_0000 + (b1 as u32 - 0x80) * 0x1000 + (b2 as u32 - 0x80)
        * 0x40 + (b3 as u32 - 0x80);
    if c < 0x1_0000 || c >= CODEPOINT_LIMIT {
        return None;
    }
    Some((c, 4))
}

/// The string whose UTF-8 the bytes from `start` to `end` are.
fn text_from_bytes(b: &Vec<u8>, start: usize, end: usize) -> (r: Option<Vec<u32>>)
    requires
        start <= end <= b.len(),
    ensures
        match utf8_text(b@.subrange(start as int, end as int)) {
            Some(t) => r is Some && r->0@ == t,
            None => r is None,
        },
{
    let ghost whole = b@.subrange(start as int, end as int);
    let mut out: Vec<u32> = Vec::new();
    let mut at: usize = start;
    proof {
        let rest = utf8_text(whole);
        if rest is Some {
            assert(out@ + rest->0 =~= rest->0);
        }
    }
    while at < end
        invariant
            start <= at <= end <= b.len(),
            whole == b@.subrange(start as int, end as int),
            match utf8_text(b@.subrange(at as int, end as int)) {
                Some(rest) => utf8_text(whole) == Some(out@ + rest),
                None => utf8_text(whole) is None,
            },
        decreases end - at,
    {
        let ghost here = b@.subrange(at as int, end as int);
        match codepoint_at(b, at, end) {
            Some((c, taken)) => {
                let ghost before = out@;
                out.push(c);
                proof {
                    assert(here.skip(taken as int) =~= b@.subrange(at + taken, end as int));
                    let rest = utf8_text(b@.subrange(at + taken, end as int));
                    if rest is Some {
                        assert(before + (seq![c] + rest->0) =~= out@ + rest->0);
                    }
                }
                at = at + taken;
            },
            None => {
                return None;
            },
        }
    }
    proof {
        assert(b@.subrange(at as int, end as int) =~= Seq::<u8>::empty());
        assert(out@ + Seq::<u32>::empty() =~= out@);
    }
    Some(out)
}

proof fn lemma_utf8_first(c: u32, rest: Seq<u8>)
    requires
        c < CODEPOINT_LIMIT,
    ensures
        utf8_first(utf8_codepoint(c) + rest) == Some((c, utf8_codepoint(c).len() as int)),
        utf8_codepoint(c).len() > 0,
{
    let b = utf8_codepoint(c) + rest;
    assert(b[0] == utf8_codepoint(c)[0]);
    if c >= 0x80 {
        assert(b[1] == utf8_codepoint(c)[1]);
    }
    if c >= 0x800 {
        assert(b[2] == utf8_codepoint(c)[2]);
    }
    if c >= 0x1_0000 {
        assert(b[3] == utf8_codepoint(c)[3]);
    }
}

/// A string is read back from its UTF-8.
pub proof fn text_survives_its_bytes(t: Seq<u32>)
    requires
        text_valid(t),
    ensures
        utf8_text(utf8(t)) == Some(t),
    decreases t.len(),
{
    if t.len() == 0 {
        assert(utf8_text(utf8(t))->0 =~= t);
    } else {
        let rest = t.drop_first();
        assert forall|i: int| 0 <= i < rest.len() implies #[trigger] rest[i] < CODEPOINT_LIMIT by {
            assert(rest[i] == t[i + 1]);
        }
        text_survives_its_bytes(rest);
        assert(t[0] < CODEPOINT_LIMIT);
        lemma_utf8_first(t[0], utf8(rest));
        let b = utf8(t);
        let n = utf8_codepoint(t[0]).len() as int;
        assert(b.skip(n) =~= utf8(rest));
        assert(seq![t[0]] + rest =~= t);
    }
}

// ---- choices as bytes -------------------------------------------------------

/// The choice can be written down: strings hold codepoints only.
pub open spec fn encodable(c: ChoiceModel) -> bool {
    c is Text ==> text_valid(c->Text_0)
}

pub open spec fn all_encodable(s: Seq<ChoiceModel>) -> bool {
    forall|i: int| 0 <= i < s.len() ==> encodable(#[trigger] s[i])
}

fn integer_payload_bytes(n: &Int) -> (r: Vec<u8>)
    ensures
        r@ == integer_payload(n@),
{
    let bits: u64 = n.bits();
    proof {
        lemma_bits_are_digits(n@, bits as nat);
        lemma_integer_fits(n@, bits as nat);
    }
    integer_to_bytes(n, 1 + bits / 8)
}

/// Appends one choice in bytes.
pub fn encode_choice(choice: &Choice, out: &mut Vec<u8>)
    requires
        encodable(choice@),
    ensures
        final(out)@ == old(out)@ + encoded(choice@),
{
    let (tag, mut payload): (u8, Vec<u8>) = match choice {
        Choice::Boolean(b) => {
            out.push(
                if *b {
                    1
                } else {
                    0
                },
            );
            proof {
                assert(out@ =~= old(out)@ + encoded(choice@));
            }
            return ;
        },
        Choice::Float(f) => (1, float_to_bytes(*f)),
        Choice::Integer(n) => (2, integer_payload_bytes(n)),
        Choice::Bytes(b) => (3, crate::choice::copy_bytes(b)),
        Choice::Text(t) => (4, text_to_bytes(t)),
    };
    let size: usize = payload.len();
    let ghost start = out@;
    if size < LONG_SIZE {
        out.push(tag * 32 + size as u8);
    } else {
        out.push(tag * 32 + LONG_SIZE as u8);
        pack_uleb128(size, out);
    }
    proof {
        assert(out@ =~= start + header(tag as int, size as nat));
        assert(payload@ == payload_of(choice@));
    }
    let ghost body = payload@;
    out.append(&mut payload);
    proof {
        assert(out@ =~= start + (header(tag as int, size as nat) + body));
    }
}

/// How many bytes one codepoint takes in UTF-8.
fn codepoint_len(c: u32) -> (r: usize)
    ensures
        r == utf8_codepoint(c).len(),
        1 <= r <= 4,
{
    if c < 0x80 {
        1
    } else if c < 0x800 {
        2
    } else if c < 0x1_0000 {
        3
    } else {
        4
    }
}

/// A length as a machine number, or the largest one where it is greater.
pub open spec fn capped(n: nat) -> u64 {
    if n <= u64::MAX {
        n as u64
    } else {
        u64::MAX
    }
}

fn capped_sum(a: u64, b: u64) -> (r: u64)
    ensures
        r == capped((a + b) as nat),
{
    if a > u64::MAX - b {
        u64::MAX
    } else {
        a + b
    }
}

/// How many bytes a string takes in UTF-8.
fn text_len(t: &Vec<u32>) -> (r: u64)
    ensures
        r == capped(utf8(t@).len()),
{
    let mut total: u64 = 0;
    let mut i: usize = 0;
    proof {
        assert(t@.take(0) =~= Seq::<u32>::empty());
    }
    while i < t.len()
        invariant
            i <= t.len(),
            total == capped(utf8(t@.take(i as int)).len()),
        decreases t.len() - i,
    {
        proof {
            lemma_utf8_push(t@.take(i as int), t@[i as int]);
            assert(t@.take(i + 1) =~= t@.take(i as int).push(t@[i as int]));
        }
        total = capped_sum(total, codepoint_len(t[i]) as u64);
        i = i + 1;
    }
    proof {
        assert(t@.take(i as int) =~= t@);
    }
    total
}

/// How many bytes `encode_choice` writes for a choice, without writing them.
pub fn one_choice_size(choice: &Choice) -> (r: u64)
    ensures
        r == capped(encoded(choice@).len()),
        r > 0,
{
    let len: u64 = match choice {
        Choice::Boolean(_) => {
            return 1;
        },
        Choice::Float(_) => {
            proof {
                lemma_be_bytes_len(choice->Float_0 as int, 8);
            }
            8
        },
        Choice::Integer(n) => {
            let bits: u64 = n.bits();
            proof {
                lemma_bits_are_digits(n@, bits as nat);
                lemma_be_bytes_len(n@, integer_len(bits as nat));
            }
            1 + bits / 8
        },
        Choice::Bytes(b) => b.len() as u64,
        Choice::Text(t) => text_len(t),
    };
    proof {
        assert(len == capped(payload_of(choice@).len()));
    }
    if len < LONG_SIZE as u64 {
        1 + len
    } else {
        capped_sum(1 + uleb128_len(len) as u64, len)
    }
}

proof fn lemma_encoded_push(s: Seq<ChoiceModel>, c: ChoiceModel)
    ensures
        encoded_all(s.push(c)) == encoded_all(s) + encoded(c),
    decreases s.len(),
{
    let t = s.push(c);
    if s.len() == 0 {
        assert(t.drop_first() =~= Seq::<ChoiceModel>::empty());
        assert(encoded_all(t.drop_first()) =~= Seq::<u8>::empty());
        assert(t[0] == c);
        assert(encoded_all(t) =~= encoded_all(s) + encoded(c));
    } else {
        lemma_encoded_push(s.drop_first(), c);
        assert(t.drop_first() =~= s.drop_first().push(c));
        assert(encoded_all(t) =~= encoded_all(s) + encoded(c));
    }
}

/// Whether every choice can be written down.
pub fn can_encode(choices: &Vec<Choice>) -> (r: bool)
    ensures
        r == all_encodable(models(choices@)),
{
    let ghost all = models(choices@);
    let mut i: usize = 0;
    while i < choices.len()
        invariant
            i <= choices.len(),
            all == models(choices@),
            forall|x: int| 0 <= x < i ==> encodable(#[trigger] all[x]),
        decreases choices.len() - i,
    {
        let fine = match &choices[i] {
            Choice::Text(t) => valid_text(t),
            _ => true,
        };
        if !fine {
            proof {
                assert(!encodable(all[i as int]));
            }
            return false;
        }
        proof {
            assert(encodable(all[i as int]));
        }
        i = i + 1;
    }
    true
}

fn valid_text(t: &Vec<u32>) -> (r: bool)
    ensures
        r == text_valid(t@),
{
    let mut i: usize = 0;
    while i < t.len()
        invariant
            i <= t.len(),
            forall|x: int| 0 <= x < i ==> #[trigger] t@[x] < CODEPOINT_LIMIT,
        decreases t.len() - i,
    {
        if t[i] >= CODEPOINT_LIMIT {
            proof {
                assert(!(t@[i as int] < CODEPOINT_LIMIT));
            }
            return false;
        }
        i = i + 1;
    }
    true
}

/// A sequence of choices in bytes.
pub fn encode_choices(choices: &Vec<Choice>) -> (r: Vec<u8>)
    requires
        all_encodable(models(choices@)),
    ensures
        r@ == encoded_all(models(choices@)),
{
    let mut out: Vec<u8> = Vec::new();
    let mut i: usize = 0;
    let ghost all = models(choices@);
    proof {
        assert(all.take(0) =~= Seq::<ChoiceModel>::empty());
    }
    while i < choices.len()
        invariant
            i <= choices.len(),
            all == models(choices@),
            all_encodable(all),
            out@ == encoded_all(all.take(i as int)),
        decreases choices.len() - i,
    {
        proof {
            assert(encodable(all[i as int]));
            lemma_encoded_push(all.take(i as int), all[i as int]);
            assert(all.take(i + 1) =~= all.take(i as int).push(all[i as int]));
        }
        encode_choice(&choices[i], &mut out);
        i = i + 1;
    }
    proof {
        assert(all.take(i as int) =~= all);
    }
    out
}

proof fn lemma_unsigned_fits_u64(s: Seq<u8>)
    requires
        s.len() == 8,
    ensures
        0 <= unsigned_be(s) <= u64::MAX,
{
    lemma_unsigned_bounded(s);
    reveal_with_fuel(pow, 9);
    assert(pow(256, 8) == 0x1_0000_0000_0000_0000);
}

fn copy_range(b: &Vec<u8>, start: usize, end: usize) -> (r: Vec<u8>)
    requires
        start <= end <= b.len(),
    ensures
        r@ == b@.subrange(start as int, end as int),
{
    let mut out: Vec<u8> = Vec::new();
    let mut i: usize = start;
    while i < end
        invariant
            start <= i <= end <= b.len(),
            out@ == b@.subrange(start as int, i as int),
        decreases end - i,
    {
        out.push(b[i]);
        proof {
            assert(b@.subrange(start as int, i + 1) =~= b@.subrange(start as int, i as int).push(
                b@[i as int],
            ));
        }
        i = i + 1;
    }
    out
}

fn float_from_bytes(b: &Vec<u8>, start: usize) -> (r: u64)
    requires
        start + 8 <= b.len(),
    ensures
        r == unsigned_be(b@.subrange(start as int, start + 8)),
{
    let mut value: u64 = 0;
    let mut i: usize = 0;
    let ghost all = b@.subrange(start as int, start + 8);
    proof {
        assert(all.take(0) =~= Seq::<u8>::empty());
        reveal_with_fuel(pow, 9);
        assert(pow(256, 8) == 0x1_0000_0000_0000_0000);
        assert(pow(256, 7) == 0x100_0000_0000_0000);
    }
    while i < 8
        invariant
            i <= 8,
            start + 8 <= b.len(),
            all == b@.subrange(start as int, start + 8),
            value == unsigned_be(all.take(i as int)),
            pow(256, 7) == 0x100_0000_0000_0000,
        decreases 8 - i,
    {
        proof {
            let front = all.take(i + 1);
            assert(front.drop_last() =~= all.take(i as int));
            assert(front.last() == b@[start + i]);
            lemma_unsigned_bounded(all.take(i as int));
            if i < 7 {
                vstd::arithmetic::power::lemma_pow_increases(256, i as nat, 7);
            }
        }
        value = value * 256 + b[start + i] as u64;
        i = i + 1;
    }
    proof {
        assert(all.take(8) =~= all);
    }
    value
}

fn payload_to_choice(tag: u8, b: &Vec<u8>, start: usize, end: usize) -> (r: Result<
    Choice,
    DecodeError,
>)
    requires
        start <= end <= b.len(),
    ensures
        match payload_choice(tag as int, b@.subrange(start as int, end as int)) {
            Ok(c) => r is Ok && r->Ok_0@ == c,
            Err(e) => r == Err::<Choice, DecodeError>(e),
        },
{
    if tag == 1 {
        if end - start != 8 {
            return Err(DecodeError::ExpectedFloat);
        }
        proof {
            lemma_unsigned_fits_u64(b@.subrange(start as int, end as int));
        }
        Ok(Choice::Float(float_from_bytes(b, start)))
    } else if tag == 2 {
        Ok(Choice::Integer(Int { bytes: copy_range(b, start, end) }))
    } else if tag == 3 {
        Ok(Choice::Bytes(copy_range(b, start, end)))
    } else if tag == 4 {
        match text_from_bytes(b, start, end) {
            Some(t) => Ok(Choice::Text(t)),
            None => Err(DecodeError::BadText),
        }
    } else {
        Err(DecodeError::BadTag)
    }
}

/// The choice at position `idx`, and where the next one starts.
fn decode_first(buffer: &Vec<u8>, idx: usize) -> (r: Result<(Choice, usize), DecodeError>)
    requires
        idx < buffer.len(),
    ensures
        match decoded_first(buffer@.skip(idx as int)) {
            Ok((c, taken)) => r is Ok && r->Ok_0.0@ == c && r->Ok_0.1 == idx + taken && 0 < taken
                <= buffer.len() - idx,
            Err(e) => r == Err::<(Choice, usize), DecodeError>(e),
        },
{
    let ghost here = buffer@.skip(idx as int);
    let lead: u8 = buffer[idx];
    proof {
        assert(here[0] == lead);
    }
    let tag: u8 = lead / 32;
    if tag == 0 {
        return Ok((Choice::Boolean(lead != 0), idx + 1));
    }
    let mut size: usize = (lead % 32) as usize;
    let mut start: usize = idx + 1;
    if size == LONG_SIZE {
        let (offset, long): (usize, usize) = unpack_uleb128(buffer, start);
        proof {
            assert(here.drop_first() =~= buffer@.skip(idx + 1));
        }
        if start == buffer.len() {
            return Err(DecodeError::Truncated);
        }
        start = start + offset;
        size = long;
    }
    if size > buffer.len() - start {
        return Err(DecodeError::Truncated);
    }
    proof {
        assert(payload_place(here) == ((start - idx) as int, size as nat));
        assert(here.subrange(start - idx, start - idx + size) =~= buffer@.subrange(
            start as int,
            start + size,
        ));
    }
    match payload_to_choice(tag, buffer, start, start + size) {
        Ok(c) => Ok((c, start + size)),
        Err(e) => Err(e),
    }
}

/// The choices that bytes hold.
pub fn decode(buffer: &Vec<u8>) -> (r: Result<Vec<Choice>, DecodeError>)
    ensures
        match decoded_all(buffer@) {
            Ok(s) => r is Ok && models(r->Ok_0@) == s,
            Err(e) => r == Err::<Vec<Choice>, DecodeError>(e),
        },
{
    let mut parts: Vec<Choice> = Vec::new();
    let mut idx: usize = 0;
    proof {
        assert(buffer@.skip(0) =~= buffer@);
        let rest = decoded_all(buffer@);
        if rest is Ok {
            assert(models(parts@) + rest->Ok_0 =~= rest->Ok_0);
        }
    }
    while idx < buffer.len()
        invariant
            idx <= buffer.len(),
            match decoded_all(buffer@.skip(idx as int)) {
                Ok(rest) => decoded_all(buffer@) == Ok::<Seq<ChoiceModel>, DecodeError>(
                    models(parts@) + rest,
                ),
                Err(e) => decoded_all(buffer@) == Err::<Seq<ChoiceModel>, DecodeError>(e),
            },
        decreases buffer.len() - idx,
    {
        let ghost here = buffer@.skip(idx as int);
        let ghost before = models(parts@);
        match decode_first(buffer, idx) {
            Ok((c, next)) => {
                parts.push(c);
                proof {
                    assert(here.skip(next - idx) =~= buffer@.skip(next as int));
                    assert(models(parts@) =~= before.push(c@));
                    let rest = decoded_all(buffer@.skip(next as int));
                    if rest is Ok {
                        assert(before + (seq![c@] + rest->Ok_0) =~= models(parts@) + rest->Ok_0);
                    }
                }
                idx = next;
            },
            Err(e) => {
                return Err(e);
            },
        }
    }
    proof {
        assert(buffer@.skip(idx as int) =~= Seq::<u8>::empty());
        assert(models(parts@) + Seq::<ChoiceModel>::empty() =~= models(parts@));
    }
    Ok(parts)
}

/// The choices that bytes hold, if they hold any.
pub fn choices_from_bytes(buffer: &Vec<u8>) -> (r: Option<Vec<Choice>>)
    ensures
        match decoded_all(buffer@) {
            Ok(s) => r is Some && models(r->0@) == s,
            Err(_) => r is None,
        },
{
    match decode(buffer) {
        Ok(parts) => Some(parts),
        Err(_) => None,
    }
}

// ---- laws -------------------------------------------------------------------

/// A number is read back from its ULEB128, whatever follows it.
pub proof fn uleb128_survives(n: nat, rest: Seq<u8>)
    ensures
        read_uleb128(uleb128(n) + rest) == (uleb128(n).len() as int, n),
    decreases n,
{
    let b = uleb128(n) + rest;
    if n < 128 {
        assert(b[0] == n as u8);
    } else {
        uleb128_survives(n / 128, rest);
        assert(b[0] == (n % 128 + 128) as u8);
        assert(b.drop_first() =~= uleb128(n / 128) + rest);
        assert(uleb128(n / 128).len() >= 1);
    }
}

proof fn lemma_payload_survives(c: ChoiceModel)
    requires
        encodable(c),
        !(c is Boolean),
    ensures
        payload_choice(tag_of(c), payload_of(c)) == Ok::<ChoiceModel, DecodeError>(c),
{
    match c {
        ChoiceModel::Float(f) => {
            lemma_be_bytes_len(f as int, 8);
            lemma_be_bytes_value(f as int, 8);
            reveal_with_fuel(pow, 9);
            assert(pow(256, 8) == 0x1_0000_0000_0000_0000);
            vstd::arithmetic::div_mod::lemma_small_mod(f as nat, 0x1_0000_0000_0000_0000);
        },
        ChoiceModel::Integer(n) => {
            lemma_digits_are_bits(n);
            lemma_integer_fits(n, bits_of(n));
            lemma_be_bytes_signed(n, integer_len(bits_of(n)));
        },
        ChoiceModel::Text(t) => {
            text_survives_its_bytes(t);
        },
        _ => {},
    }
}

/// A choice is read back from its bytes, whatever follows it.
pub proof fn choice_survives_its_bytes(c: ChoiceModel, rest: Seq<u8>)
    requires
        encodable(c),
    ensures
        decoded_first(encoded(c) + rest) == Ok::<(ChoiceModel, int), DecodeError>(
            (c, encoded(c).len() as int),
        ),
        encoded(c).len() > 0,
{
    let b = encoded(c) + rest;
    if c is Boolean {
        assert(b[0] == encoded(c)[0]);
    } else {
        let payload = payload_of(c);
        let size = payload.len();
        let tag = tag_of(c);
        lemma_payload_survives(c);
        let head = header(tag, size);
        assert(b =~= head + (payload + rest));
        assert(b[0] == head[0]);
        if size >= LONG_SIZE {
            uleb128_survives(size, payload + rest);
            assert(b.drop_first() =~= uleb128(size) + (payload + rest));
        }
        assert(payload_place(b) == (head.len() as int, size));
        assert(b.subrange(head.len() as int, (head.len() + size) as int) =~= payload);
    }
}

/// What is saved is what is loaded: decoding the bytes of a choice sequence gives
/// the sequence.
pub proof fn choices_survive_their_bytes(s: Seq<ChoiceModel>)
    requires
        all_encodable(s),
    ensures
        decoded_all(encoded_all(s)) == Ok::<Seq<ChoiceModel>, DecodeError>(s),
    decreases s.len(),
{
    if s.len() == 0 {
        assert(decoded_all(encoded_all(s))->Ok_0 =~= s);
    } else {
        let rest = s.drop_first();
        assert forall|i: int| 0 <= i < rest.len() implies encodable(#[trigger] rest[i]) by {
            assert(rest[i] == s[i + 1]);
        }
        choices_survive_their_bytes(rest);
        assert(encodable(s[0]));
        choice_survives_its_bytes(s[0], encoded_all(rest));
        let b = encoded_all(s);
        assert(b.skip(encoded(s[0]).len() as int) =~= encoded_all(rest));
        assert(seq![s[0]] + rest =~= s);
    }
}

/// No two choice sequences share their bytes.
pub proof fn bytes_identify_the_choices(s: Seq<ChoiceModel>, t: Seq<ChoiceModel>)
    requires
        all_encodable(s),
        all_encodable(t),
        encoded_all(s) == encoded_all(t),
    ensures
        s == t,
{
    choices_survive_their_bytes(s);
    choices_survive_their_bytes(t);
}

/// An integer that fits in a machine word takes ten bytes at most.
pub proof fn small_integers_are_short(n: int)
    requires
        i64::MIN <= n <= i64::MAX,
    ensures
        encoded(ChoiceModel::Integer(n)).len() <= 10,
{
    vstd::arithmetic::power2::lemma2_to64();
    lemma_bits_at_most(magnitude(n), 64);
    lemma_be_bytes_len(n, integer_len(bits_of(n)));
}

proof fn lemma_bits_at_most(m: int, k: nat)
    requires
        0 <= m < pow2(k),
    ensures
        crate::floats::bit_length(m) <= k,
    decreases k,
{
    if m > 0 {
        if k == 0 {
            vstd::arithmetic::power2::lemma2_to64();
        } else {
            lemma_pow2_unfold(k);
            lemma_bits_at_most(m / 2, (k - 1) as nat);
        }
    }
}

} // verus!
