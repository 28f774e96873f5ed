//! What random words come to.
use crate::floats::float_le;
use crate::integer::fits_bits;
use crate::provider::{
    bits_needed, chance_after, drawing_range, scale, significand, size_after, toss_after,
    uniform_after, unit_below, word_after, words_after, words_for, words_value,
};
use rand::rngs::StdRng;
use vstd::arithmetic::power::pow;
use vstd::arithmetic::power2::pow2;
use vstd::prelude::*;

verus! {

/// Something of probability one half happens for the lower half of all words; nothing of
/// probability zero or less happens, and everything of probability one or more. What happens for
/// a word happens for every smaller one.
pub proof fn chances_are_as_stated(rng: StdRng, p: u64, v: u64, w: u64)
    ensures
        unit_below(v, 0x3FE0_0000_0000_0000) <==> v < 0x10_0000_0000_0000,
        unit_below(v, p) && w <= v ==> unit_below(w, p),
        float_le(p, 0) ==> !toss_after(rng, p).0,
        float_le(0x3FF0_0000_0000_0000, p) ==> toss_after(rng, p).0,
        chance_after(rng, p).0 == unit_below((word_after(rng).0 / 2048) as u64, p),
{
    vstd::arithmetic::power2::lemma_pow2_pos(1022);
    let half = 0x3FE0_0000_0000_0000u64;
    assert(significand(half) == 0x10_0000_0000_0000 && scale(half) == 1022);
    let unit = pow2(1022) as int;
    assert(v * unit < 0x10_0000_0000_0000 * unit <==> v < 0x10_0000_0000_0000) by (nonlinear_arith)
        requires
            unit > 0,
    ;
    if w <= v {
        assert(w * unit <= v * unit) by (nonlinear_arith)
            requires
                w <= v,
                unit > 0,
        ;
    }
}

/// A uniform integer is the first number of so many random bits that is not too large, and every
/// integer of the range is such a number.
pub proof fn uniform_integers_are_random_bits(rng: StdRng, range: int, bits: u32, attempts: nat, x:
    int)
    requires
        range > 0,
        bits_needed(range, bits),
        bits < u32::MAX,
        attempts > 0,
    ensures
        ({
            let (words, next) = words_after(rng, words_for(bits));
            let n = words_value(words) % pow(2, bits as nat);
            &&& n <= range ==> uniform_after(rng, range, bits, attempts) == (n, next)
            &&& n > range ==> uniform_after(rng, range, bits, attempts) == uniform_after(
                next,
                range,
                bits,
                (attempts - 1) as nat,
            )
        }),
        0 <= x <= range ==> fits_bits(x, bits as int),
{
}

/// Integers are drawn between their bounds; without one, at least as far as two to the 128th.
pub proof fn integers_reach_far(min: Option<int>, max: Option<int>)
    ensures
        min is Some ==> drawing_range(min, max).0 == min->0,
        max is Some ==> drawing_range(min, max).1 == max->0,
        min is None ==> drawing_range(min, max).0 <= -pow(2, 128),
        max is None ==> drawing_range(min, max).1 >= pow(2, 128),
        min is None && max is Some ==> drawing_range(min, max).0 <= -2 * max->0,
        max is None && min is Some ==> drawing_range(min, max).1 >= 2 * min->0,
{
}

/// A length is between the sizes. At the smaller one the first chance decides whether it goes
/// on.
pub proof fn lengths_go_on_by_chance(rng: StdRng, p: u64, count: nat, min: u64, max: u64)
    requires
        count <= max,
        min <= max,
    ensures
        count <= size_after(rng, p, count, min, max).0 <= max,
        min <= size_after(rng, p, count, min, max).0,
        min <= count < max && !chance_after(rng, p).0 ==> size_after(rng, p, count, min, max).0
            == count,
        min <= count < max && chance_after(rng, p).0 ==> size_after(rng, p, count, min, max).0
            > count,
    decreases max - count,
{
    if count < max {
        if count < min {
            lengths_go_on_by_chance(rng, p, count + 1, min, max);
        } else {
            lengths_go_on_by_chance(chance_after(rng, p).1, p, count + 1, min, max);
        }
    }
}

} // verus!
