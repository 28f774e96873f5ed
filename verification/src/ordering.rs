//! The complexity order of integers and of sequences over an alphabet.
//!
//! Every value gets an index, the simplest one zero. Integers are counted
//! outwards from a target, first above and then below it, until one of the
//! bounds is reached; from there on the count goes on in the other direction.
//! Sequences are counted by length first and then as numbers written in the
//! alphabet.
use crate::integer::{fits_bits, magnitude, quotient, Int};
use vstd::arithmetic::power::{lemma_pow_positive, pow};
use vstd::arithmetic::power2::{lemma_pow2, lemma_pow2_strictly_increases, pow2};
use vstd::prelude::*;

verus! {

/// Sequences of this length or more are not built from an index.
pub const BUFFER_SIZE: u64 = 8192;

// ---- integers ---------------------------------------------------------------

/// The position of `value` when counting outwards from `target`: the target
/// first, then one above, one below, two above and so on.
pub open spec fn zigzag_index_of(value: int, target: int) -> int {
    if value > target {
        2 * (value - target) - 1
    } else {
        2 * (target - value)
    }
}

/// The value at position `index` when counting outwards from `target`. Positions
/// below zero mirror those above.
pub open spec fn zigzag_value_of(index: int, target: int) -> int {
    if index % 2 == 0 {
        target - quotient(index + 1, 2)
    } else {
        target + quotient(index + 1, 2)
    }
}

pub fn zigzag_index(value: &Int, shrink_towards: &Int) -> (r: Int)
    ensures
        r@ == zigzag_index_of(value@, shrink_towards@),
{
    let doubled = shrink_towards.minus(value).abs().times(&Int::of(2));
    if shrink_towards.less(value) {
        doubled.minus(&Int::of(1))
    } else {
        doubled
    }
}

pub fn zigzag_value(index: &Int, shrink_towards: &Int) -> (r: Int)
    ensures
        r@ == zigzag_value_of(index@, shrink_towards@),
{
    let two = Int::of(2);
    let n = index.plus(&Int::of(1)).over(&two);
    if index.rest(&two).is_zero() {
        shrink_towards.minus(&n)
    } else {
        shrink_towards.plus(&n)
    }
}

/// `value` lies within the bounds that are there.
pub open spec fn within(value: int, min: Option<int>, max: Option<int>) -> bool {
    &&& min is Some ==> min->0 <= value
    &&& max is Some ==> value <= max->0
}

/// The bounds leave room for at least one value.
pub open spec fn bounds_ordered(min: Option<int>, max: Option<int>) -> bool {
    min is Some && max is Some ==> min->0 <= max->0
}

/// The bound that an optional integer states.
pub open spec fn bound(b: Option<Int>) -> Option<int> {
    match b {
        Some(n) => Some(n@),
        None => None,
    }
}

/// The permitted value nearest to `target`, where the bounds permit one at all.
pub open spec fn clamped(target: int, min: Option<int>, max: Option<int>) -> int {
    let raised = if min is Some && min->0 > target {
        min->0
    } else {
        target
    };
    if max is Some && max->0 < raised {
        max->0
    } else {
        raised
    }
}

pub fn clamp_shrink_towards(
    shrink_towards: &Int,
    min_value: &Option<Int>,
    max_value: &Option<Int>,
) -> (r: Int)
    ensures
        r@ == clamped(shrink_towards@, bound(*min_value), bound(*max_value)),
{
    let raised = match min_value {
        Some(mn) if shrink_towards.less(mn) => mn.clone(),
        _ => shrink_towards.clone(),
    };
    match max_value {
        Some(mx) if mx.less(&raised) => mx.clone(),
        _ => raised,
    }
}

/// The lower bound is the nearer one, so counting outwards meets it first.
pub open spec fn lower_is_nearer(target: int, min: Option<int>, max: Option<int>) -> bool {
    min is Some && (max is None || target - min->0 < max->0 - target)
}

/// The position of `value` among the permitted integers.
pub open spec fn int_index_of(value: int, min: Option<int>, max: Option<int>, target: int) -> int {
    let t = clamped(target, min, max);
    if lower_is_nearer(t, min, max) {
        if magnitude(value - t) <= t - min->0 {
            zigzag_index_of(value, t)
        } else {
            value - min->0
        }
    } else if max is Some {
        if magnitude(value - t) <= max->0 - t {
            zigzag_index_of(value, t)
        } else {
            max->0 - value
        }
    } else {
        zigzag_index_of(value, t)
    }
}

/// The permitted integer at position `index`.
pub open spec fn int_at_index(index: int, min: Option<int>, max: Option<int>, target: int) -> int {
    let t = clamped(target, min, max);
    if lower_is_nearer(t, min, max) {
        if index <= zigzag_index_of(min->0, t) {
            zigzag_value_of(index, t)
        } else {
            index + min->0
        }
    } else if max is Some {
        if index <= zigzag_index_of(max->0, t) {
            zigzag_value_of(index, t)
        } else {
            max->0 - index
        }
    } else {
        zigzag_value_of(index, t)
    }
}

pub fn int_to_index(
    choice: &Int,
    min_value: &Option<Int>,
    max_value: &Option<Int>,
    shrink_towards: &Int,
) -> (r: Int)
    ensures
        r@ == int_index_of(choice@, bound(*min_value), bound(*max_value), shrink_towards@),
{
    let st = clamp_shrink_towards(shrink_towards, min_value, max_value);
    let distance = choice.minus(&st).abs();
    let nearer_min = match (min_value, max_value) {
        (Some(mn), Some(mx)) => st.minus(mn).less(&mx.minus(&st)),
        (Some(_), None) => true,
        _ => false,
    };
    match (min_value, max_value) {
        (Some(mn), _) if nearer_min => {
            if !st.minus(mn).less(&distance) {
                zigzag_index(choice, &st)
            } else {
                choice.minus(mn)
            }
        },
        (_, Some(mx)) => {
            if !mx.minus(&st).less(&distance) {
                zigzag_index(choice, &st)
            } else {
                mx.minus(choice)
            }
        },
        _ => zigzag_index(choice, &st),
    }
}

pub fn int_from_index(
    index: &Int,
    min_value: &Option<Int>,
    max_value: &Option<Int>,
    shrink_towards: &Int,
) -> (r: Int)
    ensures
        r@ == int_at_index(index@, bound(*min_value), bound(*max_value), shrink_towards@),
{
    let st = clamp_shrink_towards(shrink_towards, min_value, max_value);
    let nearer_min = match (min_value, max_value) {
        (Some(mn), Some(mx)) => st.minus(mn).less(&mx.minus(&st)),
        (Some(_), None) => true,
        _ => false,
    };
    match (min_value, max_value) {
        (Some(mn), _) if nearer_min => {
            if !zigzag_index(mn, &st).less(index) {
                zigzag_value(index, &st)
            } else {
                index.plus(mn)
            }
        },
        (_, Some(mx)) => {
            if !zigzag_index(mx, &st).less(index) {
                zigzag_value(index, &st)
            } else {
                mx.minus(index)
            }
        },
        _ => zigzag_value(index, &st),
    }
}

// ---- sequences over an alphabet ---------------------------------------------

/// How many sequences over an alphabet of `alphabet` letters are shorter than
/// `size`.
pub open spec fn shorter_count(size: nat, alphabet: nat) -> int
    decreases size,
{
    if size == 0 || alphabet == 0 {
        0
    } else {
        shorter_count((size - 1) as nat, alphabet) + pow(alphabet as int, (size - 1) as nat)
    }
}

/// The letters `orders` read as a number written in the alphabet.
pub open spec fn letters_value(orders: Seq<int>, alphabet: int) -> int
    decreases orders.len(),
{
    if orders.len() == 0 {
        0
    } else {
        letters_value(orders.drop_last(), alphabet) * alphabet + orders.last()
    }
}

/// Every letter is one of the alphabet.
pub open spec fn letters_valid(orders: Seq<int>, alphabet: int) -> bool {
    forall|i: int| 0 <= i < orders.len() ==> 0 <= #[trigger] orders[i] < alphabet
}

/// The position of a sequence among those of at least `min_size` letters.
pub open spec fn collection_index_of(orders: Seq<int>, min_size: nat, alphabet: nat) -> int {
    shorter_count(orders.len(), alphabet) - shorter_count(min_size, alphabet) + letters_value(
        orders,
        alphabet as int,
    )
}

/// The numbers that a vector of integers stands for.
pub open spec fn values(v: Seq<Int>) -> Seq<int> {
    v.map_values(|n: Int| n@)
}

proof fn lemma_geometric(size: nat, alphabet: nat)
    requires
        alphabet >= 1,
    ensures
        shorter_count(size, alphabet) * (alphabet - 1) == pow(alphabet as int, size) - 1,
        shorter_count(size, alphabet) >= size,
    decreases size,
{
    reveal(pow);
    if size > 0 {
        let before = (size - 1) as nat;
        lemma_geometric(before, alphabet);
        lemma_pow_positive(alphabet as int, before);
        let p = pow(alphabet as int, before);
        let c = shorter_count(before, alphabet);
        assert(pow(alphabet as int, size) == alphabet * p);
        assert((c + p) * (alphabet - 1) == c * (alphabet - 1) + p * alphabet - p)
            by (nonlinear_arith);
        assert(p * alphabet == alphabet * p) by (nonlinear_arith);
    }
}

/// There are no fewer shorter sequences for a greater length.
pub proof fn shorter_count_grows(a: nat, b: nat, alphabet: nat)
    requires
        a <= b,
    ensures
        shorter_count(a, alphabet) <= shorter_count(b, alphabet),
        alphabet > 0 && a < b ==> shorter_count(a, alphabet) < shorter_count(b, alphabet),
    decreases b,
{
    if a < b && alphabet > 0 {
        shorter_count_grows(a, (b - 1) as nat, alphabet);
        lemma_pow_positive(alphabet as int, (b - 1) as nat);
    }
}

pub fn size_to_index(size: u64, alphabet_size: u64) -> (r: Int)
    requires
        size <= u32::MAX,
    ensures
        r@ == shorter_count(size as nat, alphabet_size as nat),
{
    if alphabet_size == 0 {
        return Int::of(0);
    }
    proof {
        lemma_geometric(size as nat, alphabet_size as nat);
    }
    if alphabet_size == 1 {
        proof {
            lemma_size_is_index_for_one_letter(size as nat);
        }
        return Int::of_unsigned(size);
    }
    let one = Int::of(1);
    let a = Int::of_unsigned(alphabet_size);
    let r = a.power(size as u32).minus(&one).over(&a.minus(&one));
    proof {
        let c = shorter_count(size as nat, alphabet_size as nat);
        lemma_pow_positive(alphabet_size as int, size as nat);
        vstd::arithmetic::div_mod::lemma_div_multiples_vanish(c, alphabet_size - 1);
        assert(c * (alphabet_size - 1) == (alphabet_size - 1) * c) by (nonlinear_arith);
    }
    r
}

proof fn lemma_size_is_index_for_one_letter(size: nat)
    ensures
        shorter_count(size, 1) == size,
    decreases size,
{
    if size > 0 {
        lemma_size_is_index_for_one_letter((size - 1) as nat);
        vstd::arithmetic::power::lemma1_pow((size - 1) as nat);
    }
}

/// The length of the sequence at position `index` among all sequences: no fewer
/// than `shorter_count` sequences come before it, and the next length starts
/// behind it.
pub open spec fn size_at_index(index: int, alphabet: nat, size: nat) -> bool {
    shorter_count(size, alphabet) <= index < shorter_count(size + 1, alphabet)
}

proof fn lemma_power_of_two_is_least(alphabet: nat, size: nat)
    requires
        alphabet >= 2,
    ensures
        pow2(size) <= pow(alphabet as int, size),
{
    lemma_pow2(size);
    lemma_two_is_least(alphabet, size);
}

proof fn lemma_two_is_least(alphabet: nat, size: nat)
    requires
        alphabet >= 2,
    ensures
        pow(2, size) <= pow(alphabet as int, size),
    decreases size,
{
    reveal(pow);
    if size > 0 {
        let before = (size - 1) as nat;
        lemma_two_is_least(alphabet, before);
        lemma_pow_positive(2, before);
        let p = pow(2, before);
        let q = pow(alphabet as int, before);
        assert(2 * p <= alphabet * q) by (nonlinear_arith)
            requires
                0 < p <= q,
                alphabet >= 2,
        ;
    }
}

pub fn index_to_size(index: &Int, alphabet_size: u64) -> (r: u64)
    ensures
        alphabet_size == 0 ==> r == 0,
        alphabet_size == 1 ==> r == (if 0 <= index@ <= u64::MAX {
            index@
        } else {
            u64::MAX as int
        }),
        alphabet_size >= 2 && index@ < 0 ==> r == 0,
        alphabet_size >= 2 && index@ >= 0 ==> size_at_index(
            index@,
            alphabet_size as nat,
            r as nat,
        ),
{
    if alphabet_size == 0 {
        return 0;
    }
    if alphabet_size == 1 {
        return match index.to_u64() {
            Some(n) => n,
            None => u64::MAX,
        };
    }
    let width: u64 = index.bits();
    let a = Int::of_unsigned(alphabet_size);
    let mut total = index.times(&Int::of_unsigned(alphabet_size - 1)).plus(&Int::of(1));
    let mut s: u64 = 0;
    let ghost n = alphabet_size as int;
    let ghost start = total@;
    proof {
        reveal(pow);
        assert(index@ < 0 ==> index@ * (n - 1) <= -(n - 1)) by (nonlinear_arith)
            requires
                n >= 2,
        ;
        assert(index@ >= 0 ==> index@ * (n - 1) >= 0) by (nonlinear_arith)
            requires
                n >= 2,
        ;
        assert(start / pow(n, 0) == start);
    }
    while !total.less(&a)
        invariant
            n == alphabet_size,
            n >= 2,
            a@ == n,
            start == index@ * (n - 1) + 1,
            fits_bits(magnitude(index@), width as int),
            index@ < 0 ==> s == 0 && total@ < n,
            index@ >= 0 ==> pow(n, s as nat) <= start && total@ == start / pow(n, s as nat) && start
                >= 1,
        decreases total@,
    {
        proof {
            let p = pow(n, s as nat);
            lemma_pow_positive(n, s as nat);
            reveal(pow);
            assert(pow(n, (s + 1) as nat) == n * p);
            assert(n * p <= start) by {
                vstd::arithmetic::div_mod::lemma_fundamental_div_mod(start, p);
                vstd::arithmetic::div_mod::lemma_mod_bound(start, p);
                assert(p * (start / p) >= p * n) by (nonlinear_arith)
                    requires
                        p > 0,
                        start / p >= n,
                ;
                assert(p * n == n * p) by (nonlinear_arith);
            }
            assert(p <= index@) by {
                assert(index@ * (n - 1) + 1 == start);
                if index@ == 0 {
                    assert(n * p >= 2) by (nonlinear_arith)
                        requires
                            n >= 2,
                            p >= 1,
                    ;
                } else {
                    assert(index@ * (n - 1) + 1 <= index@ * n) by (nonlinear_arith)
                        requires
                            index@ >= 1,
                    ;
                    assert(n * p <= n * index@) by (nonlinear_arith)
                        requires
                            n * p <= index@ * n,
                    ;
                    assert(p <= index@) by (nonlinear_arith)
                        requires
                            n * p <= n * index@,
                            n >= 2,
                    ;
                }
            }
            lemma_power_of_two_is_least(alphabet_size as nat, s as nat);
            if s >= width {
                lemma_pow2_grows(width as nat, s as nat);
            }
            assert(start / p / n == start / (n * p)) by {
                vstd::arithmetic::div_mod::lemma_div_denominator(start, p, n);
                assert(p * n == n * p) by (nonlinear_arith);
            }
            assert(total@ / n < total@) by (nonlinear_arith)
                requires
                    total@ >= n,
                    n >= 2,
            ;
        }
        total = total.over(&a);
        s = s + 1;
    }
    proof {
        if index@ >= 0 {
            let p = pow(n, s as nat);
            lemma_pow_positive(n, s as nat);
            reveal(pow);
            lemma_geometric(s as nat, alphabet_size as nat);
            lemma_geometric((s + 1) as nat, alphabet_size as nat);
            vstd::arithmetic::div_mod::lemma_fundamental_div_mod(start, p);
            vstd::arithmetic::div_mod::lemma_mod_bound(start, p);
            assert(p * (start / p) <= p * (n - 1)) by (nonlinear_arith)
                requires
                    p > 0,
                    start / p <= n - 1,
            ;
            assert(p * (n - 1) + p == n * p) by (nonlinear_arith);
            assert(start < n * p);
            let low = shorter_count(s as nat, alphabet_size as nat);
            let high = shorter_count((s + 1) as nat, alphabet_size as nat);
            assert(low <= index@) by (nonlinear_arith)
                requires
                    low * (n - 1) <= index@ * (n - 1),
                    n >= 2,
            ;
            assert(index@ < high) by (nonlinear_arith)
                requires
                    index@ * (n - 1) < high * (n - 1),
                    n >= 2,
            ;
        }
    }
    s
}

proof fn lemma_pow2_grows(a: nat, b: nat)
    requires
        a <= b,
    ensures
        pow2(a) <= pow2(b),
{
    if a < b {
        lemma_pow2_strictly_increases(a, b);
    }
}

pub fn collection_index_from_orders(orders: &Vec<Int>, min_size: u64, alphabet_size: u64) -> (r: Int)
    requires
        orders.len() <= u32::MAX,
        min_size <= u32::MAX,
    ensures
        r@ == collection_index_of(values(orders@), min_size as nat, alphabet_size as nat),
{
    let len: u64 = orders.len() as u64;
    let a = Int::of_unsigned(alphabet_size);
    let ghost all = values(orders@);
    let base = size_to_index(len, alphabet_size).minus(&size_to_index(min_size, alphabet_size));
    let mut index = base.clone();
    let mut running_exp = Int::of(1);
    let mut left: usize = orders.len();
    proof {
        reveal(pow);
        assert(all.take(left as int) =~= all);
        assert(letters_value(all, a@) * 1 == letters_value(all, a@));
    }
    while left > 0
        invariant
            left <= orders.len(),
            all == values(orders@),
            a@ == alphabet_size,
            running_exp@ == pow(a@, (orders.len() - left) as nat),
            index@ + running_exp@ * letters_value(all.take(left as int), a@) == base@ + letters_value(
                all,
                a@,
            ),
        decreases left,
    {
        left = left - 1;
        let ghost exp = running_exp@;
        let ghost rest = letters_value(all.take(left as int), a@);
        index = index.plus(&running_exp.times(&orders[left]));
        running_exp = running_exp.times(&a);
        proof {
            reveal(pow);
            let whole = all.take(left + 1);
            assert(whole.drop_last() =~= all.take(left as int));
            let c = all[left as int];
            assert(whole.last() == c);
            assert(exp * (rest * a@ + c) == (exp * a@) * rest + exp * c) by (nonlinear_arith);
            assert(exp * a@ == a@ * exp) by (nonlinear_arith);
        }
    }
    proof {
        assert(all.take(0) =~= Seq::<int>::empty());
        assert(running_exp@ * 0 == 0) by (nonlinear_arith);
    }
    index
}

/// An index leads to a sequence too long to build.
#[derive(Clone, Copy, Debug, PartialEq, Eq, Structural)]
pub struct ChoiceTooLarge;

/// Whether the sequence at position `index` among all sequences, counted from the
/// empty one, is too long to be built. Over one letter nothing stands at a
/// negative position, and that is refused too.
pub open spec fn collection_too_large(index: int, alphabet: nat) -> bool {
    if alphabet == 0 {
        false
    } else {
        index >= shorter_count(BUFFER_SIZE as nat, alphabet) || (alphabet == 1 && index < 0)
    }
}

/// The sequence at position `index` among those of at least `min_size` letters.
///
/// A negative index reaches back to shorter sequences; behind the empty one, and
/// over an empty alphabet, there is only the empty sequence.
pub fn collection_value_to_orders(index: &Int, min_size: u64, alphabet_size: u64) -> (r: Result<
    Vec<Int>,
    ChoiceTooLarge,
>)
    requires
        min_size <= u32::MAX,
    ensures
        r is Err <==> collection_too_large(
            index@ + shorter_count(min_size as nat, alphabet_size as nat),
            alphabet_size as nat,
        ),
        r is Ok ==> letters_valid(values(r->Ok_0@), alphabet_size as int),
        r is Ok && alphabet_size > 0 && index@ + shorter_count(
            min_size as nat,
            alphabet_size as nat,
        ) >= 0 ==> collection_index_of(values(r->Ok_0@), min_size as nat, alphabet_size as nat)
            == index@,
        r is Ok && (alphabet_size == 0 || index@ + shorter_count(
            min_size as nat,
            alphabet_size as nat,
        ) < 0) ==> r->Ok_0@.len() == 0,
        r is Ok ==> r->Ok_0@.len() < BUFFER_SIZE,
{
    let ghost n = alphabet_size as int;
    let ghost letters = alphabet_size as nat;
    let position = index.plus(&size_to_index(min_size, alphabet_size));
    let size: u64 = index_to_size(&position, alphabet_size);
    proof {
        lemma_size_is_index_for_one_letter(BUFFER_SIZE as nat);
        lemma_size_is_index_for_one_letter(size as nat);
        lemma_size_is_index_for_one_letter((size + 1) as nat);
        if size >= BUFFER_SIZE {
            shorter_count_grows(BUFFER_SIZE as nat, size as nat, letters);
        } else {
            shorter_count_grows((size + 1) as nat, BUFFER_SIZE as nat, letters);
        }
    }
    if size >= BUFFER_SIZE {
        return Err(ChoiceTooLarge);
    }
    let mut rest = position.minus(&size_to_index(size, alphabet_size));
    let ghost whole = rest@;
    let a = Int::of_unsigned(alphabet_size);
    let mut vals: Vec<Int> = Vec::new();
    let mut i: u64 = size;
    proof {
        assert(letters_value(values(vals@), n) == 0);
        assert(0 * pow(n, i as nat) == 0) by (nonlinear_arith);
    }
    while i > 0
        invariant
            i <= size < BUFFER_SIZE,
            vals@.len() == size - i,
            a@ == alphabet_size,
            n == alphabet_size,
            size > 0 ==> n > 0 && 0 <= rest@ < pow(n, i as nat),
            letters_valid(values(vals@), n),
            letters_value(values(vals@), n) * pow(n, i as nat) + rest@ == whole,
        decreases i,
    {
        i = i - 1;
        let ghost before = values(vals@);
        let ghost value = letters_value(before, n);
        let ghost p = pow(n, i as nat);
        let ghost r0 = rest@;
        proof {
            reveal(pow);
            assert(pow(n, (i + 1) as nat) == n * p);
            lemma_pow_positive(n, i as nat);
            vstd::arithmetic::div_mod::lemma_fundamental_div_mod(r0, p);
            vstd::arithmetic::div_mod::lemma_mod_bound(r0, p);
            assert(r0 / p < n) by (nonlinear_arith)
                requires
                    r0 == p * (r0 / p) + r0 % p,
                    0 <= r0 % p,
                    r0 < n * p,
                    p > 0,
            ;
            assert(r0 / p >= 0) by (nonlinear_arith)
                requires
                    r0 >= 0,
                    p > 0,
            ;
            assert(value * (n * p) + r0 == (value * n + r0 / p) * p + r0 % p) by (nonlinear_arith)
                requires
                    r0 == p * (r0 / p) + r0 % p,
            ;
            assert(r0 == 0 ==> r0 / p == 0 && r0 % p == 0);
            assert((r0 / p) * p == p * (r0 / p)) by (nonlinear_arith);
        }
        let letter = if rest.is_zero() {
            Int::of(0)
        } else {
            let unit = a.power(i as u32);
            let letter = rest.over(&unit);
            rest = rest.minus(&letter.times(&unit));
            letter
        };
        vals.push(letter);
        proof {
            let after = values(vals@);
            assert(after.drop_last() =~= before);
            assert(after.last() == r0 / p);
            assert forall|k: int| 0 <= k < after.len() implies 0 <= #[trigger] after[k] < n by {
                if k < before.len() {
                    assert(after[k] == before[k]);
                }
            }
        }
    }
    proof {
        reveal(pow);
        assert(letters_value(values(vals@), n) * 1 == letters_value(values(vals@), n));
    }
    Ok(vals)
}

proof fn lemma_letters_bounded(orders: Seq<int>, alphabet: int)
    requires
        letters_valid(orders, alphabet),
    ensures
        0 <= letters_value(orders, alphabet) < pow(alphabet, orders.len()),
    decreases orders.len(),
{
    reveal(pow);
    if orders.len() > 0 {
        let front = orders.drop_last();
        assert forall|i: int| 0 <= i < front.len() implies 0 <= #[trigger] front[i] < alphabet by {
            assert(front[i] == orders[i]);
        }
        lemma_letters_bounded(front, alphabet);
        let v = letters_value(front, alphabet);
        let p = pow(alphabet, front.len());
        assert(0 <= orders[orders.len() - 1] < alphabet);
        assert(v * alphabet + orders.last() < alphabet * p) by (nonlinear_arith)
            requires
                0 <= v <= p - 1,
                0 <= orders.last() < alphabet,
        ;
        assert(v * alphabet >= 0) by (nonlinear_arith)
            requires
                v >= 0,
                alphabet > 0,
        ;
    }
}

proof fn lemma_letters_injective(x: Seq<int>, y: Seq<int>, alphabet: int)
    requires
        letters_valid(x, alphabet),
        letters_valid(y, alphabet),
        x.len() == y.len(),
        letters_value(x, alphabet) == letters_value(y, alphabet),
    ensures
        x == y,
    decreases x.len(),
{
    if x.len() > 0 {
        let fx = x.drop_last();
        let fy = y.drop_last();
        assert forall|i: int| 0 <= i < fx.len() implies 0 <= #[trigger] fx[i] < alphabet by {
            assert(fx[i] == x[i]);
        }
        assert forall|i: int| 0 <= i < fy.len() implies 0 <= #[trigger] fy[i] < alphabet by {
            assert(fy[i] == y[i]);
        }
        let vx = letters_value(fx, alphabet);
        let vy = letters_value(fy, alphabet);
        assert(0 <= x[x.len() - 1] < alphabet);
        assert(0 <= y[y.len() - 1] < alphabet);
        assert(vx == vy) by (nonlinear_arith)
            requires
                vx * alphabet + x.last() == vy * alphabet + y.last(),
                0 <= x.last() < alphabet,
                0 <= y.last() < alphabet,
        ;
        lemma_letters_injective(fx, fy, alphabet);
        assert(x =~= fx.push(x.last()));
        assert(y =~= fy.push(y.last()));
    } else {
        assert(x =~= y);
    }
}

/// Counted from the empty sequence, a sequence stands among those of its length.
pub proof fn position_is_within_its_length(orders: Seq<int>, alphabet: nat)
    requires
        letters_valid(orders, alphabet as int),
        alphabet > 0,
    ensures
        shorter_count(orders.len(), alphabet) <= shorter_count(orders.len(), alphabet)
            + letters_value(orders, alphabet as int) < shorter_count(orders.len() + 1, alphabet),
{
    lemma_letters_bounded(orders, alphabet as int);
}

/// Shorter sequences come first: whatever their letters, the shorter of two has
/// the smaller index.
pub proof fn shorter_sequences_come_first(
    x: Seq<int>,
    y: Seq<int>,
    min_size: nat,
    alphabet: nat,
)
    requires
        letters_valid(x, alphabet as int),
        letters_valid(y, alphabet as int),
        x.len() < y.len(),
    ensures
        collection_index_of(x, min_size, alphabet) < collection_index_of(y, min_size, alphabet),
{
    lemma_letters_bounded(x, alphabet as int);
    lemma_letters_bounded(y, alphabet as int);
    assert(0 <= y[0] < alphabet);
    shorter_count_grows(x.len() + 1, y.len(), alphabet);
}

/// No two sequences share an index, so a sequence is found again from its index;
/// and the sequences of at least `min_size` letters are those whose index is not
/// negative.
pub proof fn collection_index_identifies_the_sequence(
    x: Seq<int>,
    y: Seq<int>,
    min_size: nat,
    alphabet: nat,
)
    requires
        letters_valid(x, alphabet as int),
        letters_valid(y, alphabet as int),
    ensures
        collection_index_of(x, min_size, alphabet) == collection_index_of(y, min_size, alphabet)
            ==> x == y,
        alphabet > 0 ==> (x.len() >= min_size <==> collection_index_of(x, min_size, alphabet) >= 0),
{
    lemma_letters_bounded(x, alphabet as int);
    if x.len() < y.len() {
        shorter_sequences_come_first(x, y, min_size, alphabet);
    } else if y.len() < x.len() {
        shorter_sequences_come_first(y, x, min_size, alphabet);
    } else if letters_value(x, alphabet as int) == letters_value(y, alphabet as int) {
        lemma_letters_injective(x, y, alphabet as int);
    }
    if alphabet > 0 {
        if x.len() >= min_size {
            shorter_count_grows(min_size, x.len(), alphabet);
        } else {
            shorter_count_grows(x.len() + 1, min_size, alphabet);
        }
    }
}

/// Counting outwards reaches every integer exactly once: index and value are
/// inverse to each other, and no index is negative.
pub proof fn zigzag_is_a_bijection(value: int, index: int, target: int)
    ensures
        zigzag_index_of(value, target) >= 0,
        zigzag_value_of(zigzag_index_of(value, target), target) == value,
        index >= 0 ==> zigzag_index_of(zigzag_value_of(index, target), target) == index,
        zigzag_index_of(target, target) == 0,
{
}

/// Every permitted integer is found again from its index, the index is never
/// negative, and where both bounds are given it is less than the number of
/// permitted values.
pub proof fn int_value_survives_its_index(
    value: int,
    min: Option<int>,
    max: Option<int>,
    target: int,
)
    requires
        bounds_ordered(min, max),
        within(value, min, max),
    ensures
        int_index_of(value, min, max, target) >= 0,
        int_at_index(int_index_of(value, min, max, target), min, max, target) == value,
        min is Some && max is Some ==> int_index_of(value, min, max, target) <= max->0 - min->0,
{
}

/// Every index below the number of permitted integers leads to a permitted
/// integer, and back from it to the index.
pub proof fn int_index_survives_its_value(
    index: int,
    min: Option<int>,
    max: Option<int>,
    target: int,
)
    requires
        bounds_ordered(min, max),
        index >= 0,
        min is Some && max is Some ==> index <= max->0 - min->0,
    ensures
        within(int_at_index(index, min, max, target), min, max),
        int_index_of(int_at_index(index, min, max, target), min, max, target) == index,
{
}

/// The simplest permitted integer is the one nearest to the target.
pub proof fn int_index_zero_is_the_target(min: Option<int>, max: Option<int>, target: int)
    requires
        bounds_ordered(min, max),
    ensures
        within(clamped(target, min, max), min, max),
        int_at_index(0, min, max, target) == clamped(target, min, max),
        int_index_of(clamped(target, min, max), min, max, target) == 0,
{
}

} // verus!
