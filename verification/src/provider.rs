//! Random values for choices.
//!
//! Random bits come from `rand`. What takes floating-point arithmetic (the
//! heavy-tailed distribution of integers, the odds that a collection goes on, the
//! neighbourhood of a bound) is asked of a [`Numerics`]; whatever it answers, the
//! values drawn here keep their constraints.
use crate::choice::{Choice, ChoiceModel, Constraints};
use crate::floats::{
    clamping_stays_within_bounds, float_at, float_clamp, float_clamped, float_le, float_permitted,
    is_nan, is_nan_bits, le, lemma_pow2_up, lex_to_float, magnitude_bits, negate, negated_bits,
    next_down, next_up, next_up_of, permitted_float, sign_aware_le, two_to, FloatBounds, INFINITY, ONE, SIGN, SIGNALING_NAN_BITS,
    SMALLEST_SUBNORMAL, UNIT,
};
use crate::integer::{fits_bits, Int};
use crate::intervalset::{
    nth, position_survives_its_member, shrink_order_is_a_bijection,
    shrink_order_marks_are_ordered, total, IntervalSet,
};
use crate::ordering::{bound, bounds_ordered, clamped, within};
use rand::rngs::StdRng;
use rand::{Rng, SeedableRng};
use vstd::arithmetic::power::{lemma_pow_positive, pow};
use vstd::arithmetic::power2::{lemma_pow2_adds, lemma_pow2_pos, pow2};
use vstd::prelude::*;

verus! {

/// The generator that all randomness comes from.
#[verifier::external_type_specification]
#[verifier::external_body]
pub struct ExStdRng(StdRng);

/// The generator that [`seeded`] starts from a seed.
pub uninterp spec fn generator_of(seed: u64) -> StdRng;

/// The word that a generator gives next, and the generator behind it.
pub uninterp spec fn word_after(rng: StdRng) -> (u64, StdRng);

/// How a generator tosses a coin next, and the generator behind it.
pub uninterp spec fn coin_after(rng: StdRng) -> (bool, StdRng);

/// The number below a limit that a generator gives next, and the generator behind it.
pub uninterp spec fn number_after(rng: StdRng, limit: u64) -> (u64, StdRng);

/// The bytes that a generator gives next, and the generator behind it.
pub uninterp spec fn bytes_after(rng: StdRng, count: nat) -> (Seq<u8>, StdRng);

/// `SeedableRng::seed_from_u64`: the generator that belongs to a seed.
#[verifier::external_body]
pub(crate) fn seeded(seed: u64) -> (r: StdRng)
    ensures
        r == generator_of(seed),
{
    StdRng::seed_from_u64(seed)
}

/// `rand::random`: a seed from the system's entropy. Nothing is said about it.
#[verifier::external_body]
fn random_seed() -> u64 {
    rand::random()
}

/// `Rng::gen` for `u64`: 64 bits, which depend on the state of the generator alone, as
/// does the state that it is left in.
#[verifier::external_body]
fn random_word(rng: &mut StdRng) -> (r: u64)
    ensures
        (r, *final(rng)) == word_after(*old(rng)),
{
    rng.gen()
}

/// `Rng::gen` for `bool`: a fair coin, which depends on the state of the generator
/// alone, as does the state that it is left in.
#[verifier::external_body]
fn random_bool(rng: &mut StdRng) -> (r: bool)
    ensures
        (r, *final(rng)) == coin_after(*old(rng)),
{
    rng.gen()
}

/// `Rng::gen_range` on `0..n`: some number below `n`, which depends on `n` and the state
/// of the generator alone, as does the state that it is left in.
#[verifier::external_body]
fn random_below(rng: &mut StdRng, n: u64) -> (r: u64)
    requires
        n > 0,
    ensures
        r < n,
        (r, *final(rng)) == number_after(*old(rng), n),
{
    rng.gen_range(0..n)
}

/// `Rng::fill` on a byte slice: other bytes, as many as there were. They depend on their
/// number and the state of the generator alone, as does the state that it is left in.
#[verifier::external_body]
fn random_fill(rng: &mut StdRng, buf: &mut Vec<u8>)
    ensures
        final(buf)@.len() == old(buf)@.len(),
        (final(buf)@, *final(rng)) == bytes_after(*old(rng), old(buf)@.len()),
{
    rng.fill(&mut buf[..])
}

/// The floating-point side of sampling. Floats are passed as their bits.
pub trait Numerics {
    /// The chance that a collection goes on after each element, so that its length
    /// between the two sizes comes out moderate on average.
    fn p_continue(&mut self, min_size: u64, max_size: u64) -> u64;

    /// An integer from the heavy-tailed distribution cut to the bounds, or nothing
    /// where the bounds are too close or too far out for it.
    fn propose_integer(&mut self, rng: &mut StdRng, min: &Int, max: &Int) -> Option<Int>;

    /// Which of the weights to use, or nothing for the rest of the probability.
    fn pick_weight(&mut self, rng: &mut StdRng, weights: &Vec<(Int, u64)>) -> Option<usize>;

    /// `f + 1`.
    fn plus_one(&mut self, f: u64) -> u64;

    /// `f - 1`.
    fn minus_one(&mut self, f: u64) -> u64;

    /// The point between the bounds that the mantissa of `f` picks.
    fn mix(&mut self, f: u64, bounds: &FloatBounds) -> u64;
}

/// A seed that nobody chose.
pub fn fresh_seed() -> u64 {
    random_seed()
}

// ---- chances ----------------------------------------------------------------

/// The significand of a float.
pub open spec fn significand(p: u64) -> int {
    let m = magnitude_bits(p) as int;
    if m < UNIT {
        m
    } else {
        UNIT + m % UNIT as int
    }
}

/// The biased exponent of a float, one for the subnormal ones.
pub open spec fn scale(p: u64) -> nat {
    let m = magnitude_bits(p) as int;
    if m < UNIT {
        1
    } else {
        (m / UNIT as int) as nat
    }
}

/// The fraction `v` out of two to the 53rd is less than the float `p`.
pub open spec fn unit_below(v: u64, p: u64) -> bool {
    if is_nan_bits(p) || p >= SIGN {
        false
    } else if p == INFINITY {
        true
    } else {
        v * pow2(1022) < significand(p) * pow2(scale(p))
    }
}

pub fn unit_less(v: u64, p: u64) -> (r: bool)
    requires
        v < 2 * UNIT,
    ensures
        r == unit_below(v, p),
{
    if is_nan(p) || p >= SIGN {
        return false;
    }
    if p == INFINITY {
        return true;
    }
    let (sig, e): (u64, u64) = if p < UNIT {
        (p, 1)
    } else {
        (UNIT + p % UNIT, p / UNIT)
    };
    proof {
        lemma_pow2_pos(1022);
        lemma_pow2_pos(e as nat);
    }
    if e >= 1023 {
        proof {
            let d = (e - 1022) as nat;
            lemma_pow2_adds(1022, d);
            lemma_pow2_up(1, d);
            vstd::arithmetic::power2::lemma2_to64();
            let a = pow2(1022) as int;
            let b = pow2(d) as int;
            assert(v * a < sig * (a * b)) by (nonlinear_arith)
                requires
                    v < 2 * UNIT,
                    sig >= UNIT,
                    b >= 2,
                    a > 0,
            ;
        }
        return true;
    }
    if e == 1022 {
        proof {
            let a = pow2(1022) as int;
            assert(v * a < sig * a <==> v < sig) by (nonlinear_arith)
                requires
                    a > 0,
            ;
        }
        return v < sig;
    }
    let d: u64 = 1022 - e;
    proof {
        lemma_pow2_adds(e as nat, d as nat);
        lemma_pow2_pos(d as nat);
        let a = pow2(e as nat) as int;
        let b = pow2(d as nat) as int;
        assert(v * (a * b) < sig * a <==> v * b < sig) by (nonlinear_arith)
            requires
                a > 0,
        ;
    }
    if v == 0 {
        return sig > 0;
    }
    if d >= 53 {
        proof {
            lemma_pow2_up(53, d as nat);
            vstd::arithmetic::power2::lemma2_to64_rest();
            assert(v * pow2(d as nat) >= sig) by (nonlinear_arith)
                requires
                    v >= 1,
                    pow2(d as nat) >= 2 * UNIT,
                    sig < 2 * UNIT,
            ;
        }
        return false;
    }
    let unit: u64 = two_to(d);
    proof {
        lemma_pow2_up(d as nat, 52);
        vstd::arithmetic::power2::lemma2_to64_rest();
        assert(v * unit < 2 * UNIT * UNIT) by (nonlinear_arith)
            requires
                v < 2 * UNIT,
                0 < unit <= UNIT,
        ;
    }
    (v as u128) * (unit as u128) < sig as u128
}

/// Whether something of probability `p` happens next, and the generator behind it.
pub open spec fn chance_after(rng: StdRng, p: u64) -> (bool, StdRng) {
    let (word, next) = word_after(rng);
    (unit_below((word / 2048) as u64, p), next)
}

/// True with probability `p`.
fn chance(rng: &mut StdRng, p: u64) -> (r: bool)
    ensures
        (r, *final(rng)) == chance_after(*old(rng), p),
{
    let v: u64 = random_word(rng) / 2048;
    unit_less(v, p)
}

/// The bits of 0.15.
pub const SPECIAL_CHANCE: u64 = 0x3FC3_3333_3333_3333;

/// The bits of 0.2.
pub const LATE_CHANCE: u64 = 0x3FC9_9999_9999_999A;

// ---- integers ---------------------------------------------------------------

/// The words as one number, the first one highest.
pub open spec fn words_value(words: Seq<u64>) -> int
    decreases words.len(),
{
    if words.len() == 0 {
        0
    } else {
        words_value(words.drop_last()) * 0x1_0000_0000_0000_0000 + words.last()
    }
}

/// The number that random words stand for when cut to `bits` bits, if it is no
/// greater than `range`.
pub fn uniform_from_words(words: &Vec<u64>, range: &Int, bits: u32) -> (r: Option<Int>)
    ensures
        ({
            let n = words_value(words@) % pow(2, bits as nat);
            match r {
                Some(v) => v@ == n && n <= range@ && v@ >= 0,
                None => n > range@,
            }
        }),
{
    let weight = Int::of_unsigned(u64::MAX).plus(&Int::of(1));
    let mut acc = Int::of(0);
    let mut i: usize = 0;
    proof {
        assert(words@.take(0) =~= Seq::<u64>::empty());
    }
    while i < words.len()
        invariant
            i <= words.len(),
            weight@ == 0x1_0000_0000_0000_0000,
            acc@ == words_value(words@.take(i as int)),
        decreases words.len() - i,
    {
        proof {
            let front = words@.take(i + 1);
            assert(front.drop_last() =~= words@.take(i as int));
            assert(front.last() == words@[i as int]);
        }
        acc = acc.times(&weight).plus(&Int::of_unsigned(words[i]));
        i = i + 1;
    }
    proof {
        assert(words@.take(i as int) =~= words@);
        lemma_pow_positive(2, bits as nat);
        vstd::arithmetic::div_mod::lemma_mod_bound(words_value(words@), pow(2, bits as nat));
    }
    let n = acc.mod_floor(&Int::of(2).power(bits));
    if range.less(&n) {
        None
    } else {
        Some(n)
    }
}

/// So many words, and the generator behind them.
pub open spec fn words_after(rng: StdRng, count: nat) -> (Seq<u64>, StdRng)
    decreases count,
{
    if count == 0 {
        (Seq::empty(), rng)
    } else {
        let (words, between) = words_after(rng, (count - 1) as nat);
        let (word, next) = word_after(between);
        (words.push(word), next)
    }
}

/// How many words hold so many bits.
pub open spec fn words_for(bits: u32) -> nat {
    if bits % 64 == 0 && bits > 0 {
        (bits / 64) as nat
    } else {
        (bits / 64 + 1) as nat
    }
}

/// The first number of so many bits that is no greater than `range`, out of so many
/// attempts, and the generator behind it.
pub open spec fn uniform_after(rng: StdRng, range: int, bits: u32, attempts: nat) -> (int, StdRng)
    decreases attempts,
{
    if attempts == 0 {
        (0, rng)
    } else {
        let (words, next) = words_after(rng, words_for(bits));
        let n = words_value(words) % pow(2, bits as nat);
        if n <= range {
            (n, next)
        } else {
            uniform_after(next, range, bits, (attempts - 1) as nat)
        }
    }
}

/// A number has so many bits, or more than can be counted.
pub open spec fn bits_needed(range: int, bits: u32) -> bool {
    &&& bits < u32::MAX ==> fits_bits(range, bits as int)
    &&& bits > 0 ==> !fits_bits(range, bits - 1)
}

/// A uniform integer from zero to `range`; zero where there is no such integer.
pub fn uniform_bigint(rng: &mut StdRng, range: &Int) -> (r: Int)
    ensures
        r@ >= 0,
        r@ <= range@ || (range@ < 0 && r@ == 0),
        range@ <= 0 ==> *final(rng) == *old(rng),
        range@ > 0 ==> exists|bits: u32| #[trigger]
            bits_needed(range@, bits) && (r@, *final(rng)) == uniform_after(
                *old(rng),
                range@,
                bits,
                u64::MAX as nat,
            ),
{
    if !Int::of(0).less(range) {
        return Int::of(0);
    }
    let width: u64 = range.bits();
    let bits: u32 = if width > u32::MAX as u64 {
        u32::MAX
    } else {
        width as u32
    };
    proof {
        if width > u32::MAX {
            lemma_pow2_up((u32::MAX - 1) as nat, (width - 1) as nat);
        }
        assert(bits_needed(range@, bits));
    }
    let mut attempts: u64 = u64::MAX;
    while attempts > 0
        invariant
            range@ > 0,
            bits_needed(range@, bits),
            uniform_after(*old(rng), range@, bits, u64::MAX as nat) == uniform_after(
                *rng,
                range@,
                bits,
                attempts as nat,
            ),
        decreases attempts,
    {
        let mut words: Vec<u64> = Vec::new();
        let mut count: u32 = bits / 64 + 1;
        if bits % 64 == 0 && count > 1 {
            count = count - 1;
        }
        let ghost start = *rng;
        let mut k: u32 = 0;
        assert(words@ =~= Seq::<u64>::empty());
        while k < count
            invariant
                k <= count,
                (words@, *rng) == words_after(start, k as nat),
            decreases count - k,
        {
            words.push(random_word(rng));
            k = k + 1;
        }
        assert(count as nat == words_for(bits));
        if let Some(n) = uniform_from_words(&words, range, bits) {
            return n;
        }
        attempts = attempts - 1;
    }
    Int::of(0)
}

/// A uniform integer between the bounds, or the lower one where they cross.
pub fn uniform_int(rng: &mut StdRng, lo: &Int, hi: &Int) -> (r: Int)
    ensures
        lo@ <= r@,
        r@ <= hi@ || (hi@ < lo@ && r@ == lo@),
        hi@ <= lo@ ==> *final(rng) == *old(rng),
        hi@ > lo@ ==> exists|bits: u32| #[trigger]
            bits_needed(hi@ - lo@, bits) && (r@ - lo@, *final(rng)) == uniform_after(
                *old(rng),
                hi@ - lo@,
                bits,
                u64::MAX as nat,
            ),
{
    lo.plus(&uniform_bigint(rng, &hi.minus(lo)))
}

/// The bound that `v` oversteps, or `v` itself.
pub fn clamp_bigint(lo: &Int, v: Int, hi: &Int) -> (r: Int)
    ensures
        r@ == (if v@ < lo@ {
            lo@
        } else if v@ > hi@ {
            hi@
        } else {
            v@
        }),
{
    if v.less(lo) {
        lo.clone()
    } else if hi.less(&v) {
        hi.clone()
    } else {
        v
    }
}

/// How far an integer without a bound may go: at least two to the 128th, and twice
/// the other bound.
pub open spec fn reach(other: int) -> int {
    let twice = 2 * crate::integer::magnitude(other);
    if twice > pow(2, 128) {
        twice
    } else {
        pow(2, 128)
    }
}

/// The bounds between which an integer is drawn.
pub open spec fn drawing_range(min: Option<int>, max: Option<int>) -> (int, int) {
    match (min, max) {
        (None, None) => (-reach(0), reach(0)),
        (None, Some(mx)) => (-reach(mx), mx),
        (Some(mn), None) => (mn, reach(mn)),
        (Some(mn), Some(mx)) => (mn, mx),
    }
}

fn reach_of(other: &Int) -> (r: Int)
    ensures
        r@ == reach(other@),
{
    let far = Int::of(2).power(128);
    let twice = other.abs().times(&Int::of(2));
    if far.less(&twice) {
        twice
    } else {
        far
    }
}

/// The bounds between which an integer is drawn.
pub fn resolve_range(min_value: &Option<Int>, max_value: &Option<Int>) -> (r: (Int, Int))
    ensures
        (r.0@, r.1@) == drawing_range(bound(*min_value), bound(*max_value)),
{
    match (min_value, max_value) {
        (None, None) => {
            let far = reach_of(&Int::of(0));
            (far.negated(), far)
        },
        (None, Some(mx)) => (reach_of(mx).negated(), mx.clone()),
        (Some(mn), None) => (mn.clone(), reach_of(mn)),
        (Some(mn), Some(mx)) => (mn.clone(), mx.clone()),
    }
}

proof fn lemma_range_permits(min: Option<int>, max: Option<int>, v: int)
    requires
        bounds_ordered(min, max),
        drawing_range(min, max).0 <= v <= drawing_range(min, max).1,
    ensures
        within(v, min, max),
        drawing_range(min, max).0 <= drawing_range(min, max).1,
{
}

proof fn lemma_range_ordered(min: Option<int>, max: Option<int>)
    requires
        bounds_ordered(min, max),
    ensures
        drawing_range(min, max).0 <= drawing_range(min, max).1,
{
    lemma_pow_positive(2, 128);
}

/// What was proposed between two bounds, with a generator at hand.
pub open spec fn proposed<N: Numerics>(
    rng: StdRng,
    lo: Int,
    hi: Int,
    answer: Option<Int>,
) -> bool {
    exists|m: &mut N, g: &mut StdRng|
        #[trigger] call_ensures(N::propose_integer, (m, g, &lo, &hi), answer) && *g == rng
}

/// An integer came up between its bounds: the one that was proposed, pushed into them, or
/// any of them where nothing was proposed.
pub open spec fn distributed<N: Numerics>(
    rng: StdRng,
    min: Option<int>,
    max: Option<int>,
    n: int,
) -> bool {
    exists|lo: Int, hi: Int, answer: Option<Int>|
        {
            &&& #[trigger] proposed::<N>(rng, lo, hi, answer)
            &&& (lo@, hi@) == drawing_range(min, max)
            &&& match answer {
                Some(v) => n == clamped(v@, Some(lo@), Some(hi@)),
                None => lo@ <= n <= hi@,
            }
        }
}

/// A random integer within its bounds.
pub fn draw_integer_from_distribution<N: Numerics>(
    rng: &mut StdRng,
    numerics: &mut N,
    min_value: &Option<Int>,
    max_value: &Option<Int>,
) -> (r: Int)
    requires
        bounds_ordered(bound(*min_value), bound(*max_value)),
    ensures
        within(r@, bound(*min_value), bound(*max_value)),
        drawing_range(bound(*min_value), bound(*max_value)).0 <= r@ <= drawing_range(
            bound(*min_value),
            bound(*max_value),
        ).1,
        distributed::<N>(*old(rng), bound(*min_value), bound(*max_value), r@),
{
    let (lo, hi) = resolve_range(min_value, max_value);
    proof {
        lemma_range_ordered(bound(*min_value), bound(*max_value));
    }
    let answer = numerics.propose_integer(rng, &lo, &hi);
    let ghost said = answer;
    assert(proposed::<N>(*old(rng), lo, hi, said));
    let r = match answer {
        Some(n) => clamp_bigint(&lo, n, &hi),
        None => uniform_int(rng, &lo, &hi),
    };
    proof {
        lemma_range_permits(bound(*min_value), bound(*max_value), r@);
    }
    r
}

/// Every key of the weights is permitted.
pub open spec fn weights_within(
    weights: Seq<(Int, u64)>,
    min: Option<int>,
    max: Option<int>,
) -> bool {
    forall|i: int| 0 <= i < weights.len() ==> within((#[trigger] weights[i]).0@, min, max)
}

/// The candidates that the bounds permit.
pub fn permitted_candidates(
    candidates: &Vec<Int>,
    min_value: &Option<Int>,
    max_value: &Option<Int>,
) -> (r: Vec<Int>)
    ensures
        crate::ordering::values(r@) == crate::ordering::values(candidates@).filter(
            |v: int| within(v, bound(*min_value), bound(*max_value)),
        ),
{
    let mut out: Vec<Int> = Vec::new();
    let mut i: usize = 0;
    let ghost all = crate::ordering::values(candidates@);
    let ghost keep = |v: int| within(v, bound(*min_value), bound(*max_value));
    proof {
        assert(all.take(0) =~= Seq::<int>::empty());
        reveal(Seq::filter);
        assert(crate::ordering::values(out@) =~= all.take(0).filter(keep));
    }
    while i < candidates.len()
        invariant
            i <= candidates.len(),
            all == crate::ordering::values(candidates@),
            keep == (|v: int| within(v, bound(*min_value), bound(*max_value))),
            crate::ordering::values(out@) == all.take(i as int).filter(keep),
        decreases candidates.len() - i,
    {
        let v = &candidates[i];
        let above = match min_value {
            Some(mn) => !v.less(mn),
            None => true,
        };
        let below = match max_value {
            Some(mx) => !mx.less(v),
            None => true,
        };
        let ghost before = out@;
        proof {
            reveal(Seq::filter);
            assert(all.take(i + 1).drop_last() =~= all.take(i as int));
            assert(all.take(i + 1).last() == v@);
        }
        if above && below {
            out.push(v.clone());
            proof {
                assert(crate::ordering::values(out@) =~= crate::ordering::values(before).push(v@));
            }
        }
        i = i + 1;
    }
    proof {
        assert(all.take(i as int) =~= all);
    }
    out
}

/// The candidates that the bounds permit.
pub open spec fn fitting(candidates: Seq<Int>, min: Option<int>, max: Option<int>) -> Seq<int> {
    crate::ordering::values(candidates).filter(|v: int| within(v, min, max))
}

/// Whether one of the candidates is taken, and the generator behind that.
pub open spec fn special_after(rng: StdRng, count: nat) -> (bool, StdRng) {
    if count == 0 {
        (false, rng)
    } else {
        chance_after(rng, SPECIAL_CHANCE)
    }
}

/// Which of the weights was picked, with a generator at hand.
pub open spec fn weighed<N: Numerics>(
    rng: StdRng,
    weights: Seq<(Int, u64)>,
    answer: Option<usize>,
) -> bool {
    exists|m: &mut N, g: &mut StdRng, list: Vec<(Int, u64)>|
        #[trigger] call_ensures(N::pick_weight, (m, g, &list), answer) && *g == rng && list@
            == weights
}

/// An integer came up by the weights, or from the distribution where there are none or none
/// of them was picked.
pub open spec fn weighted<N: Numerics>(
    rng: StdRng,
    weights: Seq<(Int, u64)>,
    min: Option<int>,
    max: Option<int>,
    n: int,
) -> bool {
    if weights.len() == 0 {
        distributed::<N>(rng, min, max, n)
    } else {
        exists|answer: Option<usize>| #[trigger]
            weighed::<N>(rng, weights, answer) && match answer {
                Some(i) => n == weights[if i < weights.len() {
                    i as int
                } else {
                    weights.len() - 1
                }].0@,
                None => exists|later: StdRng| #[trigger] distributed::<N>(later, min, max, n),
            }
    }
}

/// An integer came up that a generator leads to: now and then one of the candidates.
pub open spec fn integer_drawn<N: Numerics>(
    rng: StdRng,
    weights: Seq<(Int, u64)>,
    candidates: Seq<Int>,
    min: Option<int>,
    max: Option<int>,
    n: int,
    next: StdRng,
) -> bool {
    let fit = fitting(candidates, min, max);
    let (special, between) = special_after(rng, candidates.len());
    if special && fit.len() > 0 {
        let (i, last) = number_after(between, fit.len() as u64);
        i < fit.len() && n == fit[i as int] && next == last
    } else {
        weighted::<N>(between, weights, min, max, n)
    }
}

/// A random integer: now and then one of the candidates, else by the weights where
/// there are any, else from the distribution.
pub fn sample_integer<N: Numerics>(
    rng: &mut StdRng,
    numerics: &mut N,
    min_value: &Option<Int>,
    max_value: &Option<Int>,
    weights: &Vec<(Int, u64)>,
    candidates: &Vec<Int>,
) -> (r: Int)
    requires
        bounds_ordered(bound(*min_value), bound(*max_value)),
    ensures
        integer_drawn::<N>(
            *old(rng),
            weights@,
            candidates@,
            bound(*min_value),
            bound(*max_value),
            r@,
            *final(rng),
        ),
        within(r@, bound(*min_value), bound(*max_value)) || exists|i: int|
            0 <= i < weights@.len() && (#[trigger] weights@[i]).0@ == r@,
        weights_within(weights@, bound(*min_value), bound(*max_value)) ==> within(
            r@,
            bound(*min_value),
            bound(*max_value),
        ),
{
    if candidates.len() > 0 && chance(rng, SPECIAL_CHANCE) {
        let valid = permitted_candidates(candidates, min_value, max_value);
        if valid.len() > 0 {
            let i: u64 = random_below(rng, valid.len() as u64);
            let r = valid[i as usize].clone();
            proof {
                let keep = |v: int| within(v, bound(*min_value), bound(*max_value));
                let all = crate::ordering::values(candidates@);
                let kept = crate::ordering::values(valid@);
                assert(kept[i as int] == r@);
                assert(kept.len() == valid@.len());
                all.lemma_filter_pred(keep, i as int);
            }
            return r;
        }
    }
    if weights.len() > 0 {
        let ghost between = *rng;
        let answer = numerics.pick_weight(rng, weights);
        assert(weighed::<N>(between, weights@, answer));
        return match answer {
            Some(i) => {
                let at: usize = if i < weights.len() {
                    i
                } else {
                    weights.len() - 1
                };
                proof {
                    assert(weights@[at as int].0@ == weights@[at as int].0@);
                }
                weights[at].0.clone()
            },
            None => draw_integer_from_distribution(rng, numerics, min_value, max_value),
        };
    }
    draw_integer_from_distribution(rng, numerics, min_value, max_value)
}

// ---- collections ------------------------------------------------------------

/// Whether a collection has to go on, has to stop, or may do either.
#[derive(Clone, Copy, Debug, PartialEq, Eq, Structural)]
pub enum Growth {
    Must,
    MustNot,
    May,
}

/// What the sizes say about one more element.
pub fn growth(count: u64, min_size: u64, max_size: u64) -> (r: Growth)
    ensures
        r == (if count < min_size {
            Growth::Must
        } else if count >= max_size {
            Growth::MustNot
        } else {
            Growth::May
        }),
{
    if count < min_size {
        Growth::Must
    } else if count >= max_size {
        Growth::MustNot
    } else {
        Growth::May
    }
}

/// The length that a collection of `count` elements comes to if it goes on with
/// probability `p` after each element, and the generator behind it.
pub open spec fn size_after(rng: StdRng, p: u64, count: nat, min: u64, max: u64) -> (nat, StdRng)
    decreases max - count,
{
    if count >= max {
        (count, rng)
    } else if count < min {
        size_after(rng, p, count + 1, min, max)
    } else {
        let (more, next) = chance_after(rng, p);
        if more {
            size_after(next, p, count + 1, min, max)
        } else {
            (count, next)
        }
    }
}

/// A length between the sizes: it goes on with probability `p` after each element.
pub fn collection_size_with(rng: &mut StdRng, p: u64, min_size: u64, max_size: u64) -> (r: u64)
    requires
        min_size <= max_size,
    ensures
        min_size <= r <= max_size,
        (r as nat, *final(rng)) == size_after(*old(rng), p, 0, min_size, max_size),
{
    let mut count: u64 = 0;
    while count < max_size
        invariant
            count <= max_size,
            min_size <= max_size,
            size_after(*old(rng), p, 0, min_size, max_size) == size_after(
                *rng,
                p,
                count as nat,
                min_size,
                max_size,
            ),
        decreases max_size - count,
    {
        let more = match growth(count, min_size, max_size) {
            Growth::Must => true,
            Growth::MustNot => false,
            Growth::May => chance(rng, p),
        };
        if !more {
            return count;
        }
        count = count + 1;
    }
    count
}

/// The chance to go on between two sizes.
pub open spec fn goes_on<N: Numerics>(min: u64, max: u64, p: u64) -> bool {
    exists|m: &mut N| #[trigger] call_ensures(N::p_continue, (m, min, max), p)
}

/// A length between the sizes came up: the only one, or the one that the chance to go on
/// leads to.
pub open spec fn sized<N: Numerics>(rng: StdRng, min: u64, max: u64, n: nat, next: StdRng) -> bool {
    if min == max {
        n == min && next == rng
    } else {
        exists|p: u64| #[trigger]
            goes_on::<N>(min, max, p) && (n, next) == size_after(rng, p, 0, min, max)
    }
}

/// A random length between the sizes.
pub fn draw_collection_size<N: Numerics>(
    rng: &mut StdRng,
    numerics: &mut N,
    min_size: u64,
    max_size: u64,
) -> (r: u64)
    requires
        min_size <= max_size,
    ensures
        min_size <= r <= max_size,
        sized::<N>(*old(rng), min_size, max_size, r as nat, *final(rng)),
{
    if min_size == max_size {
        return min_size;
    }
    let p: u64 = numerics.p_continue(min_size, max_size);
    assert(goes_on::<N>(min_size, max_size, p));
    collection_size_with(rng, p, min_size, max_size)
}

/// The place in shrink order of a random character, and the generator behind it.
pub open spec fn place_after(rng: StdRng, alphabet: u64) -> (u64, StdRng) {
    if alphabet > 256 {
        let (late, next) = chance_after(rng, LATE_CHANCE);
        if late {
            let (n, last) = number_after(next, (alphabet - 256) as u64);
            ((256 + n) as u64, last)
        } else {
            number_after(next, 256)
        }
    } else {
        number_after(rng, alphabet)
    }
}

/// The character at a place in shrink order.
pub open spec fn letter_at(set: IntervalSet, i: u64) -> u32 {
    nth(
        set.intervals@,
        crate::intervalset::from_shrink_order(
            i as int,
            set.idx_of_zero as int,
            set.idx_of_z as int,
        ),
    ) as u32
}

/// So many random characters, and the generator behind them.
pub open spec fn letters_after(rng: StdRng, set: IntervalSet, n: nat) -> (Seq<u32>, StdRng)
    decreases n,
{
    if n == 0 {
        (Seq::empty(), rng)
    } else {
        let (front, between) = letters_after(rng, set, (n - 1) as nat);
        let (i, next) = place_after(between, total(set.intervals@) as u64);
        (front.push(letter_at(set, i)), next)
    }
}

/// A random string over an alphabet. The characters that come late in shrink order
/// of a large alphabet are drawn one time out of five.
pub fn sample_string<N: Numerics>(
    rng: &mut StdRng,
    numerics: &mut N,
    set: &IntervalSet,
    min_size: u64,
    max_size: u64,
) -> (r: Vec<u32>)
    requires
        set.wf(),
        set.normal(),
        crate::choice::holds_codepoints(*set),
        min_size <= max_size,
    ensures
        total(set.intervals@) == 0 ==> r@.len() == 0 && *final(rng) == *old(rng),
        total(set.intervals@) > 0 ==> exists|between: StdRng| #[trigger]
            sized::<N>(*old(rng), min_size, max_size, r@.len(), between) && (r@, *final(rng))
                == letters_after(between, *set, r@.len()),
        total(set.intervals@) > 0 ==> min_size <= r@.len() <= max_size,
        forall|i: int| 0 <= i < r@.len() ==> set.has(#[trigger] r@[i] as int),
{
    let mut out: Vec<u32> = Vec::new();
    let alphabet: u64 = set.alphabet_len() as u64;
    if alphabet == 0 {
        return out;
    }
    let n: u64 = draw_collection_size(rng, numerics, min_size, max_size);
    let mut left: u64 = n;
    let ghost between = *rng;
    assert(out@ =~= Seq::<u32>::empty());
    while left > 0
        invariant
            left <= n,
            out@.len() == n - left,
            (out@, *rng) == letters_after(between, *set, (n - left) as nat),
            set.wf(),
            set.normal(),
            crate::choice::holds_codepoints(*set),
            alphabet == total(set.intervals@),
            alphabet > 0,
            forall|i: int| 0 <= i < out@.len() ==> set.has(#[trigger] out@[i] as int),
        decreases left,
    {
        let i: u64 = if alphabet > 256 {
            if chance(rng, LATE_CHANCE) {
                256 + random_below(rng, alphabet - 256)
            } else {
                random_below(rng, 256)
            }
        } else {
            random_below(rng, alphabet)
        };
        proof {
            shrink_order_marks_are_ordered(*set);
            shrink_order_is_a_bijection(
                i as int,
                set.idx_of_zero as int,
                set.idx_of_z as int,
                set.size as int,
            );
            let at = crate::intervalset::from_shrink_order(
                i as int,
                set.idx_of_zero as int,
                set.idx_of_z as int,
            );
            position_survives_its_member(set.intervals@, at);
            assert(set.has(nth(set.intervals@, at)));
        }
        let cp: i64 = match set.cp_in_shrink_order(i as i64) {
            Ok(cp) => cp,
            Err(_) => 0,
        };
        assert(cp as u32 == letter_at(*set, i));
        out.push(cp as u32);
        left = left - 1;
    }
    out
}

/// Random bytes, as many as the sizes permit.
pub fn sample_bytes<N: Numerics>(
    rng: &mut StdRng,
    numerics: &mut N,
    min_size: u64,
    max_size: u64,
) -> (r: Vec<u8>)
    requires
        min_size <= max_size,
    ensures
        min_size <= r@.len() <= max_size,
        exists|between: StdRng| #[trigger]
            sized::<N>(*old(rng), min_size, max_size, r@.len(), between) && (r@, *final(rng))
                == bytes_after(between, r@.len()),
{
    let n: u64 = draw_collection_size(rng, numerics, min_size, max_size);
    let mut buf: Vec<u8> = Vec::new();
    let mut left: u64 = n;
    while left > 0
        invariant
            left <= n,
            buf@.len() == n - left,
        decreases left,
    {
        buf.push(0);
        left = left - 1;
    }
    random_fill(rng, &mut buf);
    buf
}

// ---- floats -----------------------------------------------------------------

/// A float of random bits, read through the lexical encoding, with a random sign, and
/// the generator behind it.
pub open spec fn raw_after(rng: StdRng) -> (u64, StdRng) {
    let (word, between) = word_after(rng);
    let (keep, next) = coin_after(between);
    (
        if keep {
            float_at(word) as u64
        } else {
            negated_bits(float_at(word) as u64)
        },
        next,
    )
}

pub fn draw_float_raw(rng: &mut StdRng) -> (r: u64)
    ensures
        (r, *final(rng)) == raw_after(*old(rng)),
{
    let word: u64 = random_word(rng);
    let f: u64 = lex_to_float(word);
    if random_bool(rng) {
        f
    } else {
        negate(f)
    }
}

/// The floats that bugs like: zeros, infinities, those that are not numbers, the
/// bounds with their neighbours, and the subnormal ones. `above` and `below` are one
/// above the lower bound and one below the upper bound.
pub open spec fn peculiar(b: FloatBounds, above: u64, below: u64) -> Seq<u64> {
    seq![
        0,
        SIGN,
        INFINITY,
        (SIGN + INFINITY) as u64,
        0x7FF8_0000_0000_0000,
        0xFFF8_0000_0000_0000,
        SIGNALING_NAN_BITS,
        negated_bits(SIGNALING_NAN_BITS),
        b.min_value,
        next_up_of(b.min_value),
        above,
        below,
        negated_bits(next_up_of(negated_bits(b.max_value))),
        b.max_value,
        SMALLEST_SUBNORMAL,
        negated_bits(SMALLEST_SUBNORMAL),
        UNIT / 2,
        (SIGN + UNIT / 2) as u64,
    ]
}

fn float_candidates<N: Numerics>(numerics: &mut N, b: &FloatBounds) -> (r: Vec<u64>)
    ensures
        exists|above: u64, below: u64| #[trigger]
            one_off::<N>(*b, above, below) && r@ == peculiar(*b, above, below),
{
    let mut out: Vec<u64> = Vec::new();
    out.push(0);
    out.push(SIGN);
    out.push(INFINITY);
    out.push(SIGN + INFINITY);
    out.push(0x7FF8_0000_0000_0000);
    out.push(0xFFF8_0000_0000_0000);
    out.push(SIGNALING_NAN_BITS);
    out.push(negate(SIGNALING_NAN_BITS));
    out.push(b.min_value);
    out.push(next_up(b.min_value));
    let above: u64 = numerics.plus_one(b.min_value);
    out.push(above);
    let below: u64 = numerics.minus_one(b.max_value);
    out.push(below);
    out.push(next_down(b.max_value));
    out.push(b.max_value);
    out.push(SMALLEST_SUBNORMAL);
    out.push(negate(SMALLEST_SUBNORMAL));
    out.push(UNIT / 2);
    out.push(SIGN + UNIT / 2);
    assert(one_off::<N>(*b, above, below));
    assert(out@ =~= peculiar(*b, above, below));
    out
}

/// The float is between its bounds, or a NaN that they allow.
pub open spec fn float_respects(f: u64, b: FloatBounds) -> bool {
    (is_nan_bits(f) && b.allow_nan) || (sign_aware_le(b.min_value, f) && sign_aware_le(
        f,
        b.max_value,
    ))
}

/// The bounds are numbers, the lower one no greater than the upper one.
pub open spec fn float_bounds_ordered(b: FloatBounds) -> bool {
    !is_nan_bits(b.min_value) && !is_nan_bits(b.max_value) && sign_aware_le(
        b.min_value,
        b.max_value,
    )
}

/// One above the lower bound and one below the upper bound.
pub open spec fn one_off<N: Numerics>(b: FloatBounds, above: u64, below: u64) -> bool {
    &&& exists|m: &mut N| #[trigger] call_ensures(N::plus_one, (m, b.min_value), above)
    &&& exists|m: &mut N| #[trigger] call_ensures(N::minus_one, (m, b.max_value), below)
}

/// The point between the bounds that a float outside of them picks.
pub open spec fn point_between<N: Numerics>(f: u64, b: FloatBounds, mixed: u64) -> bool {
    exists|m: &mut N| #[trigger] call_ensures(N::mix, (m, f, &b), mixed)
}

/// A float came up that a generator leads to, where `odd` are the peculiar floats that are
/// permitted: one of them, or any, pushed into the bounds.
pub open spec fn float_drawn_from<N: Numerics>(
    rng: StdRng,
    b: FloatBounds,
    odd: Seq<u64>,
    f: u64,
    next: StdRng,
) -> bool {
    let (special, between) = special_after(rng, odd.len());
    if special {
        let (k, last) = number_after(between, odd.len() as u64);
        f == odd[k as int] && next == last
    } else {
        let (raw, last) = raw_after(between);
        &&& next == last
        &&& if b.allow_nan && is_nan_bits(raw) {
            f == raw
        } else {
            exists|mixed: u64| #[trigger]
                point_between::<N>(raw, b, mixed) && f == float_clamped(raw, mixed, b)
        }
    }
}

/// A float came up that a generator leads to.
pub open spec fn float_drawn<N: Numerics>(
    rng: StdRng,
    b: FloatBounds,
    f: u64,
    next: StdRng,
) -> bool {
    exists|above: u64, below: u64| #[trigger]
        one_off::<N>(b, above, below) && float_drawn_from::<N>(
            rng,
            b,
            peculiar(b, above, below).filter(|x: u64| float_permitted(x, b)),
            f,
            next,
        )
}

/// A random float: one of the peculiar ones now and then, else any, pushed into the
/// bounds.
pub fn sample_float<N: Numerics>(rng: &mut StdRng, numerics: &mut N, b: &FloatBounds) -> (r: u64)
    requires
        float_bounds_ordered(*b),
    ensures
        float_respects(r, *b),
        float_drawn::<N>(*old(rng), *b, r, *final(rng)),
{
    let candidates = float_candidates(numerics, b);
    let mut weird: Vec<u64> = Vec::new();
    let mut i: usize = 0;
    let ghost keep = |x: u64| float_permitted(x, *b);
    proof {
        reveal(Seq::filter);
        assert(candidates@.take(0) =~= Seq::<u64>::empty());
        assert(weird@ =~= candidates@.take(0).filter(keep));
    }
    while i < candidates.len()
        invariant
            i <= candidates.len(),
            keep == (|x: u64| float_permitted(x, *b)),
            weird@ == candidates@.take(i as int).filter(keep),
            forall|k: int| 0 <= k < weird@.len() ==> float_permitted(#[trigger] weird@[k], *b),
        decreases candidates.len() - i,
    {
        proof {
            reveal(Seq::filter);
            assert(candidates@.take(i + 1).drop_last() =~= candidates@.take(i as int));
            assert(candidates@.take(i + 1).last() == candidates@[i as int]);
        }
        if permitted_float(candidates[i], b) {
            weird.push(candidates[i]);
        }
        i = i + 1;
    }
    proof {
        let (x, y) = choose|x: u64, y: u64| #[trigger]
            one_off::<N>(*b, x, y) && candidates@ == peculiar(*b, x, y);
        assert(candidates@.take(i as int) =~= candidates@);
        assert(one_off::<N>(*b, x, y));
        assert(weird@ == peculiar(*b, x, y).filter(keep));
    }
    if weird.len() > 0 && chance(rng, SPECIAL_CHANCE) {
        let k: u64 = random_below(rng, weird.len() as u64);
        proof {
            assert(float_permitted(weird@[k as int], *b));
        }
        return weird[k as usize];
    }
    let result: u64 = draw_float_raw(rng);
    if b.allow_nan && is_nan(result) {
        return result;
    }
    let mixed: u64 = numerics.mix(result, b);
    proof {
        clamping_stays_within_bounds(result, mixed, *b);
        assert(point_between::<N>(result, *b, mixed));
    }
    let r: u64 = float_clamp(result, mixed, b);
    proof {
        let (special, between) = special_after(*old(rng), weird@.len());
        assert(!special);
        assert((result, *rng) == raw_after(between));
        assert(!(b.allow_nan && is_nan_bits(result)));
        assert(r == float_clamped(result, mixed, *b));
        assert(point_between::<N>(raw_after(between).0, *b, mixed));
    }
    r
}

/// Whether something of probability `p` happens next, never for zero or less, always for
/// one or more, and the generator behind it.
pub open spec fn toss_after(rng: StdRng, p: u64) -> (bool, StdRng) {
    if float_le(p, 0) {
        (false, rng)
    } else if float_le(ONE, p) {
        (true, rng)
    } else {
        chance_after(rng, p)
    }
}

/// True with probability `p`, never for zero or less, always for one or more.
pub fn sample_boolean(rng: &mut StdRng, p: u64) -> (r: bool)
    ensures
        (r, *final(rng)) == toss_after(*old(rng), p),
{
    if le(p, 0) {
        false
    } else if le(ONE, p) {
        true
    } else {
        chance(rng, p)
    }
}

// ---- any choice -------------------------------------------------------------

/// The constraints leave room for a choice.
pub open spec fn satisfiable(k: Constraints) -> bool {
    match k {
        Constraints::Integer { min_value, max_value, .. } => bounds_ordered(
            bound(min_value),
            bound(max_value),
        ),
        Constraints::Boolean { .. } => true,
        Constraints::Float(b) => float_bounds_ordered(b),
        Constraints::Text { intervals, min_size, max_size } => min_size <= max_size
            && crate::choice::holds_codepoints(intervals),
        Constraints::Bytes { min_size, max_size } => min_size <= max_size,
    }
}

/// The choice keeps the constraints, as far as every way to make one takes care:
/// a float may come too near to zero where the bounds leave nothing else, and
/// without letters there is only the empty string.
pub open spec fn respects(k: Constraints, c: ChoiceModel) -> bool {
    match (k, c) {
        (Constraints::Float(b), ChoiceModel::Float(f)) => float_respects(f, b),
        (Constraints::Text { intervals, .. }, ChoiceModel::Text(t)) => {
            k.permits(c) || (total(intervals.intervals@) == 0 && t.len() == 0)
        },
        _ => k.permits(c),
    }
}

/// A choice came up that a generator leads to.
pub open spec fn came_up<N: Numerics>(
    rng: StdRng,
    k: Constraints,
    weights: Seq<(Int, u64)>,
    candidates: Seq<Int>,
    c: ChoiceModel,
    next: StdRng,
) -> bool {
    match (k, c) {
        (Constraints::Boolean { p }, ChoiceModel::Boolean(b)) => (b, next) == toss_after(rng, p),
        (Constraints::Integer { min_value, max_value, .. }, ChoiceModel::Integer(n)) => {
            integer_drawn::<N>(
                rng,
                weights,
                candidates,
                bound(min_value),
                bound(max_value),
                n,
                next,
            )
        },
        (Constraints::Float(b), ChoiceModel::Float(f)) => float_drawn::<N>(rng, b, f, next),
        (Constraints::Text { intervals, min_size, max_size }, ChoiceModel::Text(t)) => {
            if total(intervals.intervals@) == 0 {
                t.len() == 0 && next == rng
            } else {
                exists|between: StdRng| #[trigger]
                    sized::<N>(rng, min_size, max_size, t.len(), between) && (t, next)
                        == letters_after(between, intervals, t.len())
            }
        },
        (Constraints::Bytes { min_size, max_size }, ChoiceModel::Bytes(b)) => {
            exists|between: StdRng| #[trigger]
                sized::<N>(rng, min_size, max_size, b.len(), between) && (b, next) == bytes_after(
                    between,
                    b.len(),
                )
        },
        _ => false,
    }
}

/// A random choice that keeps the constraints.
pub fn provider_sample<N: Numerics>(
    rng: &mut StdRng,
    numerics: &mut N,
    constraints: &Constraints,
    weights: &Vec<(Int, u64)>,
    candidates: &Vec<Int>,
) -> (r: Choice)
    requires
        constraints.wf(),
        satisfiable(*constraints),
    ensures
        constraints.fits_kind(r@),
        came_up::<N>(*old(rng), *constraints, weights@, candidates@, r@, *final(rng)),
        !(constraints is Integer) || weights_within(
            weights@,
            bound(constraints->Integer_min_value),
            bound(constraints->Integer_max_value),
        ) ==> respects(*constraints, r@),
{
    match constraints {
        Constraints::Boolean { p } => {
            let b = sample_boolean(rng, *p);
            assert(respects(*constraints, ChoiceModel::Boolean(b)));
            Choice::Boolean(b)
        },
        Constraints::Integer { min_value, max_value, .. } => {
            let n = sample_integer(rng, numerics, min_value, max_value, weights, candidates);
            Choice::Integer(n)
        },
        Constraints::Float(b) => {
            let f: u64 = sample_float(rng, numerics, b);
            assert(respects(*constraints, ChoiceModel::Float(f)));
            Choice::Float(f)
        },
        Constraints::Text { intervals, min_size, max_size } => {
            let t = sample_string(rng, numerics, intervals, *min_size, *max_size);
            proof {
                intervals.lemma_size();
                if total(intervals.intervals@) > 0 {
                    assert(constraints.permits(ChoiceModel::Text(t@)));
                }
            }
            Choice::Text(t)
        },
        Constraints::Bytes { min_size, max_size } => {
            let b = sample_bytes(rng, numerics, *min_size, *max_size);
            assert(respects(*constraints, ChoiceModel::Bytes(b@)));
            Choice::Bytes(b)
        },
    }
}

/// The host's arithmetic has one answer for each question that a random choice asks of it.
/// Integers are left out: which of them the host comes up with is not for the generator to
/// say.
pub open spec fn settled<N: Numerics>(k: Constraints) -> bool {
    match k {
        Constraints::Boolean { .. } => true,
        Constraints::Float(b) => {
            &&& forall|a: u64, c: u64, d: u64, e: u64|
                #[trigger] one_off::<N>(b, a, c) && #[trigger] one_off::<N>(b, d, e) ==> a == d
                    && c == e
            &&& forall|raw: u64, x: u64, y: u64|
                #[trigger] point_between::<N>(raw, b, x) && #[trigger] point_between::<N>(raw, b, y)
                    ==> x == y
        },
        Constraints::Text { min_size, max_size, .. } => one_way_on::<N>(min_size, max_size),
        Constraints::Bytes { min_size, max_size } => one_way_on::<N>(min_size, max_size),
        Constraints::Integer { .. } => false,
    }
}

/// There is one answer to how likely a collection goes on.
pub open spec fn one_way_on<N: Numerics>(min: u64, max: u64) -> bool {
    forall|p: u64, q: u64|
        #[trigger] goes_on::<N>(min, max, p) && #[trigger] goes_on::<N>(min, max, q) ==> p == q
}

/// A generator determines what comes up: of two random choices of the same kind from equal
/// generators, one is the other one, and the generators that are left are equal. So a seed
/// determines what a test case makes up, as far as the host's arithmetic is settled.
pub proof fn equal_generators_give_equal_choices<N: Numerics>(
    rng: StdRng,
    k: Constraints,
    weights: Seq<(Int, u64)>,
    candidates: Seq<Int>,
    c: ChoiceModel,
    next: StdRng,
    d: ChoiceModel,
    other: StdRng,
)
    requires
        settled::<N>(k),
        came_up::<N>(rng, k, weights, candidates, c, next),
        came_up::<N>(rng, k, weights, candidates, d, other),
    ensures
        c == d,
        next == other,
{
    match k {
        Constraints::Text { intervals, min_size, max_size } => {
            if total(intervals.intervals@) == 0 {
                assert(c->Text_0 =~= d->Text_0);
            } else {
                lemma_one_size::<N>(
                    rng,
                    min_size,
                    max_size,
                    c->Text_0.len(),
                    d->Text_0.len(),
                );
            }
        },
        Constraints::Bytes { min_size, max_size } => {
            lemma_one_size::<N>(rng, min_size, max_size, c->Bytes_0.len(), d->Bytes_0.len());
        },
        _ => {},
    }
}

proof fn lemma_one_size<N: Numerics>(rng: StdRng, min: u64, max: u64, m: nat, n: nat)
    requires
        one_way_on::<N>(min, max),
    ensures
        forall|a: StdRng, b: StdRng|
            #[trigger] sized::<N>(rng, min, max, m, a) && #[trigger] sized::<N>(rng, min, max, n, b)
                ==> m == n && a == b,
{
}

} // verus!
