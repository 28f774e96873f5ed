//! Drawing values from strategies.
//!
//! Everything is drawn from a [`Case`]; functions and objects of the user are asked
//! of a [`Host`]. Whatever the host answers, a value that comes out conforms to the
//! strategy it was drawn from.
use crate::calendar::{date_inject_candidates, MAX_ORDINAL};
use crate::choice::{ChoiceModel, Constraints};
use crate::comparing::{key_from, keyed_in_turn, noted_at, noted_from, seen_from, with_keys};
use crate::data::{
    integer_ruled, label_number, ruled, Case, ConjectureData, Replay, Rule, Status, StopTest, Trail,
};
use crate::floats::{
    float_le, is_finite, is_nan_bits, lt, FloatBounds, INFINITY, SIGN, SMALLEST_SUBNORMAL,
};
use crate::integer::Int;
use crate::intervalset::total;
use crate::ordering::{bound, within};
use crate::provider::{goes_on, weights_within, Numerics};
use crate::reading::{
    accounted, at_places, begun, begun_at, certain, cut, end_choices, integer_between, kept_of,
    left_of, lemma_certain_is_closed, lemma_each_step, lemma_items_step, lemma_kept,
    lemma_named_step, lemma_next_taken, lemma_nothing_taken, lemma_one_taken, lemma_pair_step,
    lemma_run_end, lemma_run_step, lemma_stopped, lemma_taken_joined, named_alike, picked,
    place_choices, ran_out, shuffled, spells_collection, spells_each, spells_items, spells_named,
    spells_order, spells_pairs, spells_places, spells_run, spells_slice, swapped, taken, tried,
    tried_entries, values_of, went_on, SliceChoices,
};
use crate::hosting::{
    accepted_at, accepted_sample, all_refused, all_refused_at, applied, apply_raised, build_raised,
    built, compare_key_raised, compare_raised, compared, compared_key, composed, composite_raised,
    distinct, distinct_by_all, distinct_keys, domain_raised, domain_spent, drawn_elsewhere,
    entries_spent, expand_raised, expanded, fails, filter_raised, filter_reach, foreign_raised,
    function_raised, gives, judge_raised, judged, kept_new, kept_new_by, kept_new_keys,
    kept_unique, key_raised, keyed, keys_raised, keys_spent, lemma_kept_new, lemma_kept_new_by,
    lemma_kept_new_keys, lemma_one_more_distinct, lemma_one_more_key, lemma_one_more_unique,
    made_function, made_random, narrow_gave, narrowed, no_numerator, noted_by, noted_new,
    noted_old, picks_sample, place_numbers, raised_by, random_raised, refused_at,
    refused_too_often, resolve_raised, sample_size, sample_spent, shared_before, shared_now,
    sieved, sifted, some_without_numerator, spells_sample, stops_by, told_of_retry, too_few,
    turned_out, unique, unique_raised, values_raised, values_spent,
};
use crate::room::{contained, kept_to_room, roomed};
use crate::runner::Raised;
use crate::strategy::{
    effective_bounds, float_effective_bounds, Alphabet, Atom, Ratio, StrategyNode,
    MILLENNIUM_ORDINAL, US_PER_DAY,
};
use vstd::arithmetic::power::pow;
use vstd::prelude::*;

verus! {

/// So deep may strategies be nested that are found out when they are needed.
pub const DEFERRED_DRAW_LIMIT: u32 = 100;

/// So often is a filter tried.
pub const MAX_FILTER_TRIES: u32 = 50;

/// So many elements of a sample are tested by a filter at most.
pub const MAX_FILTER_CALLS: usize = 10_000;

/// The bits of one half.
pub const HALF: u64 = 0x3FE0_0000_0000_0000;

/// The bits of 1/128.
pub const NEAR_BOUND: u64 = 0x3F80_0000_0000_0000;

/// The bits of 2/128.
pub const AT_BOUND: u64 = 0x3F90_0000_0000_0000;

/// One entry of a dictionary.
#[derive(Debug)]
pub struct Entry {
    pub key: Value,
    pub value: Value,
}

/// One named argument.
#[derive(Debug)]
pub struct NamedValue {
    pub name: String,
    pub value: Value,
}

/// Something drawn.
#[derive(Debug)]
pub enum Value {
    Atom(Atom),
    Bool(bool),
    Int(Int),
    /// The bits of the float.
    Float(u64),
    /// The codepoints of the string.
    Text(Vec<u32>),
    Bytes(Vec<u8>),
    Tuple(Vec<Value>),
    List(Vec<Value>),
    Collection { items: Vec<Value>, frozen: bool },
    Dict(Vec<Entry>),
    Uuid { number: Int, version: Option<u8> },
    Date { ordinal: i64 },
    Time { us: i64, fold: bool },
    Datetime { ordinal: i64, us: i64, fold: bool },
    Timedelta { days: Int, microseconds: Int },
    Complex { re: u64, im: u64 },
    Ip { v6: bool, number: Int },
    Slice { start: Option<i64>, stop: Option<i64>, step: Option<Int> },
    Fraction { num: Int, den: Int },
    Decimal { num: Int, den: Int },
    /// Something to draw from while the test runs.
    Data,
}

/// Why nothing was drawn.
#[derive(Debug)]
pub enum DrawError {
    /// The test case is over.
    Stop(StopTest),
    /// The host stopped it.
    Raised(Raised),
    /// The strategy is a mistake.
    Invalid { msg: String, resolution_failed: bool },
    /// A deferred strategy is defined as itself.
    DeferredToItself,
    /// The host came up with a strategy that cannot be drawn from.
    BadStrategy,
}

/// What belongs to the user.
pub trait Host: Numerics {
    /// Calls a function on a value.
    fn apply(&mut self, func: u64, v: Value) -> Result<Value, Raised>;

    /// Whether a function accepts a value.
    fn accepts(&mut self, func: u64, v: &Value) -> Result<bool, Raised>;

    /// The strategy that a function makes of a value.
    fn expand(&mut self, func: u64, v: Value) -> Result<StrategyNode, Raised>;

    /// The strategy that a deferred one turns out to be.
    fn resolve(&mut self, thunk: u64) -> Result<StrategyNode, Raised>;

    /// What a value is unique by.
    fn key(&mut self, func: u64, v: &Value) -> Result<Value, Raised>;

    /// Whether a value is equal to one of those seen.
    fn is_seen(&mut self, seen: &Vec<Value>, v: &Value) -> Result<bool, Raised>;

    /// Whether a value is equal to the key of an entry.
    fn is_key(&mut self, entries: &Vec<Entry>, key: &Value) -> Result<bool, Raised>;

    /// Calls a target with arguments.
    fn build(&mut self, target: u64, args: Vec<Value>, kwargs: Vec<NamedValue>) -> Result<
        Value,
        Raised,
    >;

    /// Calls a function that draws as it goes. Its draws have what is left of the budget.
    fn composite(&mut self, func: u64, left: Budget, data: ConjectureData) -> (
        ConjectureData,
        Result<Value, Raised>,
    );

    /// Draws from a strategy of somebody else, which may draw in turn.
    fn foreign(&mut self, id: u64, left: Budget, data: ConjectureData) -> (
        ConjectureData,
        Result<Value, Raised>,
    );

    /// A function with the signature of `id` that draws what it gives back.
    fn function(&mut self, id: u64, result: &StrategyNode, pure: bool) -> Result<Value, Raised>;

    /// A random number generator.
    fn random(&mut self, use_true_random: bool, note_method_calls: bool) -> Result<Value, Raised>;

    /// The float of a width that is nearest to `f`.
    fn narrow(&mut self, f: u64, width: u32) -> u64;

    /// What was drawn under a key in this test case.
    fn shared(&mut self, key: &String) -> Option<Value>;

    /// Keeps what was drawn under a key.
    fn keep_shared(&mut self, key: &String, v: &Value);

    /// Called when a filter has refused something for the first time.
    fn retried(&mut self, base: &StrategyNode, func: u64);
}

// ---- how many ---------------------------------------------------------------

/// Decides how many elements a collection gets.
#[derive(Debug)]
pub struct Many {
    pub min_size: u64,
    pub max_size: u64,
    pub p_continue: u64,
    pub count: u64,
    pub rejections: u128,
    pub force_stop: bool,
}

/// After more rejections than this, a collection of `count` elements is not tried any
/// further.
pub open spec fn patience(count: int) -> int {
    if 2 * count > 3 {
        2 * count
    } else {
        3
    }
}

impl Many {
    pub open spec fn wf(&self) -> bool {
        &&& self.min_size <= self.max_size
        &&& self.count <= self.max_size
        &&& self.rejections <= patience(self.max_size as int) + 1
        &&& self.force_stop ==> self.count >= self.min_size
        &&& !self.force_stop ==> self.rejections <= patience(self.max_size as int)
    }

    /// How many more steps can be taken at most.
    pub open spec fn steps_left(&self) -> int {
        (self.max_size - self.count) + (patience(self.max_size as int) + 2 - self.rejections)
    }

    pub fn new<N: Numerics>(numerics: &mut N, min_size: u64, max_size: u64) -> (r: Many)
        requires
            min_size <= max_size,
        ensures
            r.wf(),
            r.count == 0,
            r.rejections == 0,
            !r.force_stop,
            r.min_size == min_size,
            r.max_size == max_size,
            min_size != max_size ==> goes_on::<N>(min_size, max_size, r.p_continue),
    {
        let p_continue: u64 = if min_size == max_size {
            0
        } else {
            numerics.p_continue(min_size, max_size)
        };
        Many { min_size, max_size, p_continue, count: 0, rejections: 0, force_stop: false }
    }

    /// Whether there is another element. Where the sizes leave it open, a choice is
    /// drawn; where they do not but differ, a choice is forced.
    pub fn more<N: Numerics>(&mut self, numerics: &mut N, case: &mut Case) -> (r: Result<
        bool,
        StopTest,
    >)
        requires
            old(self).wf(),
            old(case).wf(),
        ensures
            final(self).wf(),
            final(case).grown_from(*old(case)),
            final(self).min_size == old(self).min_size,
            final(self).max_size == old(self).max_size,
            final(self).rejections == old(self).rejections,
            final(self).force_stop == old(self).force_stop,
            final(self).p_continue == old(self).p_continue,
            r is Err ==> final(case).overran() && old(self).min_size != old(self).max_size,
            r is Err && old(case).replay.endless() ==> final(case).full(),
            r is Ok ==> went_on(
                *old(case),
                *final(case),
                old(self).min_size != old(self).max_size,
                r->Ok_0,
            ),
            r is Ok && r->Ok_0 ==> final(self).count == old(self).count + 1,
            !(r is Ok && r->Ok_0) ==> final(self).count == old(self).count,
            r is Ok && !r->Ok_0 ==> final(self).count >= final(self).min_size,
            r is Ok && old(self).min_size == old(self).max_size ==> r->Ok_0 == (old(self).count
                < old(self).min_size) && final(case).nodes == old(case).nodes,
            r is Ok && old(self).min_size != old(self).max_size ==> {
                &&& final(case).just_drew(*old(case), ChoiceModel::Boolean(r->Ok_0))
                &&& final(case).nodes@.last().constraints == (Constraints::Boolean {
                    p: old(self).p_continue,
                })
                &&& old(self).force_stop ==> !r->Ok_0
                &&& !old(self).force_stop && old(self).count < old(self).min_size ==> r->Ok_0
                &&& old(self).count >= old(self).max_size ==> !r->Ok_0
            },
            r is Err ==> final(case).stopped_with(*old(case), |c: ChoiceModel| c is Boolean),
    {
        proof {
            assert(case.nodes@.take(case.nodes@.len() as int) =~= case.nodes@);
        }
        if self.min_size == self.max_size {
            let cont = self.count < self.min_size;
            if cont {
                self.count = self.count + 1;
            }
            return Ok(cont);
        }
        let forced: Option<bool> = if self.force_stop {
            Some(false)
        } else if self.count < self.min_size {
            Some(true)
        } else if self.count >= self.max_size {
            Some(false)
        } else {
            None
        };
        match case.draw_boolean(numerics, self.p_continue, forced) {
            Ok(cont) => {
                if cont {
                    self.count = self.count + 1;
                }
                Ok(cont)
            },
            Err(e) => Err(e),
        }
    }

    /// Takes back the element just announced. After too many of them the collection
    /// ends, or the test case is given up where there are too few.
    pub fn reject(&mut self, case: &mut Case) -> (r: Result<(), StopTest>)
        requires
            old(self).wf(),
            old(case).wf(),
            old(self).count > 0,
            !old(self).force_stop,
        ensures
            final(self).min_size == old(self).min_size,
            final(self).max_size == old(self).max_size,
            final(self).count == old(self).count - 1,
            final(self).rejections == old(self).rejections + 1,
            ({
                let spent = final(self).rejections > patience(final(self).count as int);
                let short = final(self).count < final(self).min_size;
                &&& r is Err <==> spent && short
                &&& final(self).force_stop <==> spent && !short
            }),
            r is Ok ==> final(self).wf() && *final(case) == *old(case),
            r is Err ==> final(case).wf() && final(case).ended_from(
                *old(case),
                Status::Invalid,
                None,
            ),
    {
        self.count = self.count - 1;
        self.rejections = self.rejections + 1;
        let twice: u128 = 2 * (self.count as u128);
        let limit: u128 = if twice > 3 {
            twice
        } else {
            3
        };
        if self.rejections > limit {
            if self.count < self.min_size {
                return Err(case.mark_invalid());
            }
            self.force_stop = true;
        }
        Ok(())
    }
}

// ---- what a strategy promises -----------------------------------------------

/// A float between two others, or one that is not a number where that is allowed.
pub open spec fn float_within(f: u64, low: u64, high: u64, allow_nan: bool) -> bool {
    (is_nan_bits(f) && allow_nan) || (float_le(low, f) && float_le(f, high))
}

/// The fraction `num / den` is not below a bound.
pub open spec fn ratio_at_least(num: int, den: int, min: Option<Ratio>) -> bool {
    min is Some ==> min->0.num@ * den <= num * min->0.den@
}

/// The fraction `num / den` is not above a bound.
pub open spec fn ratio_at_most(num: int, den: int, max: Option<Ratio>) -> bool {
    max is Some ==> num * max->0.den@ <= max->0.num@ * den
}

/// The atoms of a list of atoms.
pub open spec fn atoms_of(items: Seq<Value>) -> Seq<Atom> {
    items.map_values(|v: Value| v->Atom_0)
}

/// The value is one that a slice of a sequence of the given size can be.
pub open spec fn slice_within(size: int, start: Option<i64>, stop: Option<i64>, step: Option<Int>) -> bool {
    &&& start is Some ==> -size <= start->0 < size
    &&& stop is Some ==> -size <= stop->0 <= size
    &&& step is Some ==> step->0@ != 0
}

/// The element of a sample at a place.
pub open spec fn is_sample(node: StrategyNode, i: int, v: Value) -> bool {
    match node {
        StrategyNode::SampledFrom { elements, .. } => 0 <= i < elements@.len() && v == Value::Atom(
            elements@[i],
        ),
        StrategyNode::SampledFromRange { start, step, len, .. } => 0 <= i < len@ && v is Int
            && v->Int_0@ == start@ + i * step@,
        _ => false,
    }
}

/// The value is an element of a sample.
pub open spec fn sampled(node: StrategyNode, v: Value) -> bool {
    exists|i: int| #[trigger] is_sample(node, i, v)
}

/// The denominator of decimals with so many places.
pub open spec fn decimal_unit(places: Option<i32>) -> int {
    let p = match places {
        Some(n) => n as int,
        None => 3,
    };
    pow(
        10,
        (if p < 0 {
            0
        } else if p > 12 {
            12
        } else {
            p
        }) as nat,
    )
}

/// What a value drawn from a strategy is. Nothing is said where the host has the
/// last word.
pub open spec fn conforms(node: StrategyNode, v: Value) -> bool
    decreases node,
{
    match node {
        StrategyNode::Integers { min, max } => v is Int && within(
            v->Int_0@,
            bound(min),
            bound(max),
        ),
        StrategyNode::Booleans => v is Bool,
        StrategyNode::Floats { min, max, allow_nan, allow_inf, width, .. } => {
            let (low, high) = effective_bounds(min, max, allow_inf, width);
            v is Float && float_within(v->Float_0, low, high, allow_nan)
        },
        StrategyNode::NoneVal => v == Value::Atom(Atom::Nil),
        StrategyNode::Just(a) => v == Value::Atom(a),
        StrategyNode::Nothing => false,
        StrategyNode::SampledFrom { .. } => sampled(node, v),
        StrategyNode::SampledFromRange { .. } => sampled(node, v),
        StrategyNode::OneOf(children) => exists|i: int|
            0 <= i < children@.len() && conforms(#[trigger] children@[i], v),
        StrategyNode::Tuples(children) => {
            &&& v is Tuple
            &&& v->Tuple_0@.len() == children@.len()
            &&& forall|i: int|
                0 <= i < children@.len() ==> conforms(children@[i], #[trigger] v->Tuple_0@[i])
        },
        StrategyNode::Lists { elem, min, max, swap_domain, .. } => {
            &&& v is List
            &&& v->List_0@.len() <= max
            &&& match swap_domain {
                Some(domain) => {
                    &&& v->List_0@.len() <= domain@.len()
                    &&& forall|i: int|
                        0 <= i < v->List_0@.len() ==> (#[trigger] v->List_0@[i]) is Atom
                            && domain@.contains(v->List_0@[i]->Atom_0)
                },
                None => {
                    &&& v->List_0@.len() >= min
                    &&& forall|i: int|
                        0 <= i < v->List_0@.len() ==> conforms(*elem, #[trigger] v->List_0@[i])
                },
            }
        },
        StrategyNode::Sets { elem, min, max, frozen } => {
            &&& v is Collection
            &&& v->frozen == frozen
            &&& min <= v->items@.len() <= max
            &&& forall|i: int|
                0 <= i < v->items@.len() ==> conforms(*elem, #[trigger] v->items@[i])
        },
        StrategyNode::Dictionaries { keys, values, min, max } => {
            &&& v is Dict
            &&& min <= v->Dict_0@.len() <= max
            &&& forall|i: int|
                0 <= i < v->Dict_0@.len() ==> conforms(*keys, (#[trigger] v->Dict_0@[i]).key)
                    && conforms(*values, v->Dict_0@[i].value)
        },
        StrategyNode::FixedDict { items } => {
            &&& v is Dict
            &&& v->Dict_0@.len() == items@.len()
            &&& forall|i: int|
                0 <= i < items@.len() ==> (#[trigger] v->Dict_0@[i]).key == Value::Atom(
                    items@[i].key,
                ) && conforms(items@[i].value, v->Dict_0@[i].value)
        },
        StrategyNode::Text { alphabet, min, max } => v is Text && text_conforms(
            v->Text_0@,
            alphabet,
            min as int,
            max as int,
        ),
        StrategyNode::Characters { alphabet, .. } => v is Text && text_conforms(
            v->Text_0@,
            alphabet,
            1,
            1,
        ),
        StrategyNode::Binary { min, max } => v is Bytes && min <= v->Bytes_0@.len() <= max,
        StrategyNode::Filtered { base, .. } => conforms(*base, v),
        StrategyNode::Uuids { version, allow_nil } => {
            &&& v is Uuid
            &&& v->version == version
            &&& (if allow_nil {
                0int
            } else {
                1
            }) <= v->Uuid_number@ < pow(2, 128)
        },
        StrategyNode::Permutations(values) => {
            &&& v is List
            &&& forall|i: int| 0 <= i < v->List_0@.len() ==> (#[trigger] v->List_0@[i]) is Atom
            &&& atoms_of(v->List_0@).to_multiset() == values@.to_multiset()
        },
        StrategyNode::Dates { min_ord, max_ord } => v is Date && min_ord <= v->Date_ordinal
            <= max_ord,
        StrategyNode::Times { min_us, max_us } => v is Time && min_us <= v->Time_us <= max_us,
        StrategyNode::Datetimes { min_ord, max_ord } => v is Datetime && min_ord
            <= v->Datetime_ordinal <= max_ord && 0 <= v->Datetime_us < US_PER_DAY,
        StrategyNode::Timedeltas { min_us, max_us } => {
            &&& v is Timedelta
            &&& 0 <= v->microseconds@ < US_PER_DAY
            &&& min_us@ <= v->days@ * US_PER_DAY + v->microseconds@ <= max_us@
        },
        StrategyNode::ComplexNumbers { allow_nan } => {
            &&& v is Complex
            &&& is_nan_bits(v->re) ==> allow_nan
            &&& is_nan_bits(v->im) ==> allow_nan
        },
        StrategyNode::IpAddresses { v6, net_range } => {
            &&& v is Ip
            &&& v6 is Some ==> v->v6 == v6->0
            &&& match net_range {
                Some((lo, hi)) => lo@ <= v->Ip_number@ <= hi@,
                None => 0 <= v->Ip_number@ < pow(
                    2,
                    if v->v6 {
                        128
                    } else {
                        32
                    },
                ),
            }
        },
        StrategyNode::Slices { size } => v is Slice && slice_within(
            size as int,
            v->start,
            v->stop,
            v->step,
        ) && (size == 0 ==> v->start is None && v->stop is None),
        StrategyNode::Fractions { min, max, max_denom } => {
            &&& v is Fraction
            &&& 1 <= v->Fraction_den@ <= max_denom
            &&& ratio_at_least(v->Fraction_num@, v->Fraction_den@, min)
            &&& ratio_at_most(v->Fraction_num@, v->Fraction_den@, max)
        },
        StrategyNode::Decimals { min, max, places } => {
            &&& v is Decimal
            &&& v->Decimal_den@ == decimal_unit(places)
            &&& ratio_at_least(v->Decimal_num@, v->Decimal_den@, min)
            &&& ratio_at_most(v->Decimal_num@, v->Decimal_den@, max)
        },
        StrategyNode::Data => v is Data,
        StrategyNode::Invalid { .. } => false,
        _ => true,
    }
}

/// The string is made of the alphabet, in one of the sizes; without letters there is
/// only the empty one.
pub open spec fn text_conforms(t: Seq<u32>, alphabet: Alphabet, min: int, max: int) -> bool {
    let set = alphabet.members();
    &&& forall|i: int| 0 <= i < t.len() ==> set.has(#[trigger] t[i] as int)
    &&& min <= t.len() <= max || (total(set.intervals@) == 0 && t.len() == 0)
}

/// No function of the user gets to draw: what was recorded before stays recorded.
pub open spec fn closed(node: StrategyNode) -> bool
    decreases node,
{
    match node {
        StrategyNode::OneOf(children) => forall|i: int|
            0 <= i < children@.len() ==> closed(#[trigger] children@[i]),
        StrategyNode::Tuples(children) => forall|i: int|
            0 <= i < children@.len() ==> closed(#[trigger] children@[i]),
        StrategyNode::Lists { elem, .. } => closed(*elem),
        StrategyNode::Sets { elem, .. } => closed(*elem),
        StrategyNode::Dictionaries { keys, values, .. } => closed(*keys) && closed(*values),
        StrategyNode::FixedDict { items } => forall|i: int|
            0 <= i < items@.len() ==> closed((#[trigger] items@[i]).value),
        StrategyNode::Mapped { base, .. } => closed(*base),
        StrategyNode::Filtered { base, .. } => closed(*base),
        StrategyNode::Builds { args, kwargs, .. } => {
            &&& forall|i: int| 0 <= i < args@.len() ==> closed(#[trigger] args@[i])
            &&& forall|i: int| 0 <= i < kwargs@.len() ==> closed((#[trigger] kwargs@[i]).node)
        },
        StrategyNode::Shared { base, .. } => closed(*base),
        StrategyNode::Flatmapped { .. } => false,
        StrategyNode::Deferred { .. } => false,
        StrategyNode::Composite { .. } => false,
        StrategyNode::Foreign { .. } => false,
        _ => true,
    }
}

/// What holds of a draw, whatever the host did.
pub open spec fn drew(
    before: Case,
    after: Case,
    grows: bool,
    stopped: bool,
) -> bool {
    &&& after.wf()
    &&& grows ==> after.grown_from(before)
    &&& stopped ==> after.frozen
}

// ---- single draws -----------------------------------------------------------

fn no_weights() -> (r: Vec<(Int, u64)>)
    ensures
        r@.len() == 0,
{
    Vec::new()
}

/// An integer between two bounds.
fn draw_between<N: Numerics>(
    numerics: &mut N,
    case: &mut Case,
    lo: &Int,
    hi: &Int,
) -> (r: Result<Int, StopTest>)
    requires
        old(case).wf(),
        lo@ <= hi@,
    ensures
        final(case).grown_from(*old(case)),
        r is Ok ==> lo@ <= r->Ok_0@ <= hi@,
        r is Ok ==> integer_ruled(
            old(case).replay.rule_at(0),
            Some(lo@),
            Some(hi@),
            0,
            r->Ok_0@,
        ),
        r is Ok ==> final(case).just_drew(*old(case), ChoiceModel::Integer(r->Ok_0@)),
        r is Err ==> final(case).overran(),
        r is Err <==> old(case).refuses() || final(case).length > final(case).max_length,
        r is Err && old(case).replay.endless() ==> final(case).full(),
        r is Err ==> final(case).stopped_with(
            *old(case),
            |c: ChoiceModel|
                integer_between(c, lo@, hi@) && integer_ruled(
                    old(case).replay.rule_at(0),
                    Some(lo@),
                    Some(hi@),
                    0,
                    c->Integer_0,
                ),
        ),
        r is Ok ==> final(case).rolled::<N>(
            *old(case),
            final(case).nodes@.last().constraints,
            None,
            Seq::empty(),
            Seq::empty(),
            ChoiceModel::Integer(r->Ok_0@),
        ),
{
    let weights = no_weights();
    let candidates: Vec<Int> = Vec::new();
    proof {
        assert(weights@ =~= Seq::<(Int, u64)>::empty());
        assert(candidates@ =~= Seq::<Int>::empty());
    }
    case.draw_integer(
        numerics,
        Some(lo.clone()),
        Some(hi.clone()),
        &weights,
        &candidates,
        Int::of(0),
    )
}

/// A small integer between two bounds.
fn idraw<N: Numerics>(numerics: &mut N, case: &mut Case, lo: i64, hi: i64) -> (r: Result<
    i64,
    StopTest,
>)
    requires
        old(case).wf(),
        lo <= hi,
    ensures
        final(case).grown_from(*old(case)),
        r is Ok ==> lo <= r->Ok_0 <= hi,
        r is Ok ==> integer_ruled(
            old(case).replay.rule_at(0),
            Some(lo as int),
            Some(hi as int),
            0,
            r->Ok_0 as int,
        ),
        r is Ok ==> final(case).just_drew(*old(case), ChoiceModel::Integer(r->Ok_0 as int)),
        r is Err ==> final(case).overran(),
        r is Err && old(case).replay.endless() ==> final(case).full(),
        r is Err ==> final(case).stopped_with(
            *old(case),
            |c: ChoiceModel| integer_between(c, lo as int, hi as int),
        ),
{
    match draw_between(numerics, case, &Int::of(lo), &Int::of(hi)) {
        Ok(n) => match n.to_i64() {
            Some(v) => Ok(v),
            None => Ok(lo),
        },
        Err(e) => Err(e),
    }
}

fn flip<N: Numerics>(numerics: &mut N, case: &mut Case) -> (r: Result<bool, StopTest>)
    requires
        old(case).wf(),
    ensures
        final(case).grown_from(*old(case)),
        r is Ok ==> final(case).just_drew(*old(case), ChoiceModel::Boolean(r->Ok_0)),
        r is Ok ==> flip_ruled(old(case).replay.rule_at(0), r->Ok_0),
        r is Err ==> final(case).overran(),
        r is Err && old(case).replay.endless() ==> final(case).full(),
        r is Err ==> final(case).stopped_with(*old(case), |c: ChoiceModel| c is Boolean),
{
    case.draw_boolean(numerics, HALF, None)
}

/// The weights of an integer with a wide range: the bounds and their neighbours come
/// up more often.
pub fn boundary_weights(min: &Option<Int>, max: &Option<Int>) -> (r: Vec<(Int, u64)>)
    requires
        crate::ordering::bounds_ordered(bound(*min), bound(*max)),
    ensures
        weights_within(r@, bound(*min), bound(*max)),
        min is Some && max is Some && max->0@ - min->0@ > 127 ==> {
            &&& r@.len() == 4
            &&& (r@[0].0)@ == min->0@ && r@[0].1 == AT_BOUND
            &&& (r@[1].0)@ == min->0@ + 1 && r@[1].1 == NEAR_BOUND
            &&& (r@[2].0)@ == max->0@ - 1 && r@[2].1 == NEAR_BOUND
            &&& (r@[3].0)@ == max->0@ && r@[3].1 == AT_BOUND
        },
        !(min is Some && max is Some && max->0@ - min->0@ > 127) ==> r@.len() == 0,
{
    let mut out: Vec<(Int, u64)> = Vec::new();
    if let (Some(lo), Some(hi)) = (min, max) {
        if Int::of(127).less(&hi.minus(lo)) {
            let one = Int::of(1);
            out.push((lo.clone(), AT_BOUND));
            out.push((lo.plus(&one), NEAR_BOUND));
            out.push((hi.minus(&one), NEAR_BOUND));
            out.push((hi.clone(), AT_BOUND));
        }
    }
    out
}

/// A date, with the peculiar ones more often than others.
fn draw_ordinal<N: Numerics>(
    numerics: &mut N,
    case: &mut Case,
    min_ord: i64,
    max_ord: i64,
) -> (r: Result<i64, StopTest>)
    requires
        old(case).wf(),
        min_ord <= max_ord,
    ensures
        final(case).grown_from(*old(case)),
        r is Ok ==> min_ord <= r->Ok_0 <= max_ord,
        r is Ok ==> integer_ruled(
            old(case).replay.rule_at(0),
            Some(min_ord as int),
            Some(max_ord as int),
            MILLENNIUM_ORDINAL as int,
            r->Ok_0 as int,
        ),
        r is Ok ==> final(case).just_drew(*old(case), ChoiceModel::Integer(r->Ok_0 as int)),
        r is Err ==> final(case).overran(),
        r is Err && old(case).replay.endless() ==> final(case).full(),
        r is Err ==> final(case).stopped_with(
            *old(case),
            |c: ChoiceModel| integer_between(c, min_ord as int, max_ord as int),
        ),
        r is Ok ==> rolled_a_date::<N>(*old(case), *final(case)),
{
    let candidates = if 1 <= min_ord && max_ord <= MAX_ORDINAL {
        date_inject_candidates(min_ord, max_ord)
    } else {
        Vec::new()
    };
    let weights = no_weights();
    assert(weights@ =~= Seq::<(Int, u64)>::empty());
    match case.draw_integer(
        numerics,
        Some(Int::of(min_ord)),
        Some(Int::of(max_ord)),
        &weights,
        &candidates,
        Int::of(MILLENNIUM_ORDINAL),
    ) {
        Ok(n) => {
            proof {
                assert(just_rolled::<N>(*old(case), *case, Seq::empty(), candidates@));
                assert(rolled_a_date::<N>(*old(case), *case));
            }
            match n.to_i64() {
                Some(v) => Ok(v),
                None => Ok(min_ord),
            }
        },
        Err(e) => Err(e),
    }
}

/// A span of time is what is laid down by playing back: its days, and then what is left of
/// a day, which is bounded on the first and on the last day.
pub open spec fn timedelta_ruled(
    replay: Replay,
    min_us: int,
    max_us: int,
    days: int,
    us: int,
) -> bool {
    let d = US_PER_DAY as int;
    &&& integer_ruled(replay.rule_at(0), Some(min_us / d), Some(max_us / d), 0, days)
    &&& integer_ruled(
        replay.rule_at(1),
        Some(
            if days == min_us / d {
                min_us % d
            } else {
                0
            },
        ),
        Some(
            if days == max_us / d {
                max_us % d
            } else {
                d - 1
            },
        ),
        0,
        us,
    )
}

/// A truth value is what a rule lays down.
pub open spec fn flip_ruled(rule: Rule, b: bool) -> bool {
    ruled(rule, Constraints::Boolean { p: HALF }, ChoiceModel::Boolean(b))
}

/// What is laid down by playing back is what comes out of strategies of a fixed number of
/// choices.
pub open spec fn laid_down(node: StrategyNode, replay: Replay, v: Value) -> bool {
    match node {
        StrategyNode::Integers { min, max } => integer_ruled(
            replay.rule_at(0),
            bound(min),
            bound(max),
            0,
            v->Int_0@,
        ),
        StrategyNode::Booleans => flip_ruled(replay.rule_at(0), v->Bool_0),
        StrategyNode::Floats { min, max, allow_nan, allow_inf, snm, width } => {
            let (low, high) = effective_bounds(min, max, allow_inf, width);
            width == 64 ==> ruled(
                replay.rule_at(0),
                Constraints::Float(
                    FloatBounds {
                        min_value: low,
                        max_value: high,
                        allow_nan,
                        smallest_nonzero_magnitude: snm,
                    },
                ),
                ChoiceModel::Float(v->Float_0),
            )
        },
        StrategyNode::Uuids { allow_nil, .. } => integer_ruled(
            replay.rule_at(0),
            Some(
                if allow_nil {
                    0int
                } else {
                    1
                },
            ),
            Some(pow(2, 128) - 1),
            0,
            v->Uuid_number@,
        ),
        StrategyNode::SampledFrom { elements, .. } => exists|i: int| #[trigger]
            is_sample(node, i, v) && integer_ruled(
                replay.rule_at(0),
                Some(0),
                Some(elements@.len() - 1),
                0,
                i,
            ),
        StrategyNode::SampledFromRange { len, .. } => exists|i: int| #[trigger]
            is_sample(node, i, v) && integer_ruled(
                replay.rule_at(0),
                Some(0),
                Some(len@ - 1),
                0,
                i,
            ),
        StrategyNode::Binary { min, max } => ruled(
            replay.rule_at(0),
            Constraints::Bytes { min_size: min, max_size: max },
            ChoiceModel::Bytes(v->Bytes_0@),
        ),
        StrategyNode::Text { alphabet, min, max } => exists|k: Constraints|
            #[trigger] asks_text(k, alphabet, min as int, max as int) && ruled(
                replay.rule_at(0),
                k,
                ChoiceModel::Text(v->Text_0@),
            ),
        StrategyNode::Characters { alphabet, .. } => exists|k: Constraints|
            #[trigger] asks_text(k, alphabet, 1, 1) && ruled(
                replay.rule_at(0),
                k,
                ChoiceModel::Text(v->Text_0@),
            ),
        StrategyNode::Dates { min_ord, max_ord } => integer_ruled(
            replay.rule_at(0),
            Some(min_ord as int),
            Some(max_ord as int),
            MILLENNIUM_ORDINAL as int,
            v->Date_ordinal as int,
        ),
        StrategyNode::Times { min_us, max_us } => integer_ruled(
            replay.rule_at(0),
            Some(min_us as int),
            Some(max_us as int),
            0,
            v->Time_us as int,
        ) && flip_ruled(replay.rule_at(1), v->Time_fold),
        StrategyNode::Datetimes { min_ord, max_ord } => {
            &&& integer_ruled(
                replay.rule_at(0),
                Some(min_ord as int),
                Some(max_ord as int),
                MILLENNIUM_ORDINAL as int,
                v->Datetime_ordinal as int,
            )
            &&& integer_ruled(
                replay.rule_at(1),
                Some(0),
                Some(US_PER_DAY - 1),
                0,
                v->Datetime_us as int,
            )
            &&& flip_ruled(replay.rule_at(2), v->Datetime_fold)
        },
        StrategyNode::Timedeltas { min_us, max_us } => timedelta_ruled(
            replay,
            min_us@,
            max_us@,
            v->days@,
            v->microseconds@,
        ),
        _ => true,
    }
}

/// Strings over an alphabet are asked for, of so many characters.
pub open spec fn asks_text(k: Constraints, alphabet: Alphabet, min: int, max: int) -> bool {
    &&& k is Text
    &&& k->Text_intervals.intervals@ == alphabet.members().intervals@
    &&& k->Text_min_size == min
    &&& k->Text_max_size == max
}

/// A span of time between two bounds, as days and the rest of a day.
fn draw_timedelta<N: Numerics>(
    numerics: &mut N,
    case: &mut Case,
    min_us: &Int,
    max_us: &Int,
) -> (r: Result<Value, StopTest>)
    requires
        old(case).wf(),
        min_us@ <= max_us@,
    ensures
        final(case).grown_from(*old(case)),
        r is Err ==> final(case).overran(),
        r is Err && old(case).replay.endless() ==> final(case).full(),
        r is Ok ==> {
            let v = r->Ok_0;
            &&& v is Timedelta
            &&& 0 <= v->microseconds@ < US_PER_DAY
            &&& min_us@ <= v->days@ * US_PER_DAY + v->microseconds@ <= max_us@
            &&& taken(*old(case), *final(case)) == seq![
                ChoiceModel::Integer(v->days@),
                ChoiceModel::Integer(v->microseconds@),
            ]
            &&& timedelta_ruled(
                old(case).replay,
                min_us@,
                max_us@,
                v->days@,
                v->microseconds@,
            )
        },
        r is Err ==> {
            let t = taken(*old(case), *final(case));
            let d = US_PER_DAY as int;
            &&& t.len() <= 2
            &&& t.len() > 0 ==> integer_between(t[0], min_us@ / d, max_us@ / d)
            &&& t.len() > 1 ==> integer_between(t[1], 0, d - 1)
        },
{
    let ghost start = *case;
    let per_day = Int::of(US_PER_DAY);
    let min_days = min_us.div_floor(&per_day);
    let max_days = max_us.div_floor(&per_day);
    let min_within = min_us.mod_floor(&per_day);
    let max_within = max_us.mod_floor(&per_day);
    proof {
        let d = US_PER_DAY as int;
        vstd::arithmetic::div_mod::lemma_fundamental_div_mod(min_us@, d);
        vstd::arithmetic::div_mod::lemma_fundamental_div_mod(max_us@, d);
        vstd::arithmetic::div_mod::lemma_mod_bound(min_us@, d);
        vstd::arithmetic::div_mod::lemma_mod_bound(max_us@, d);
    }
    let days = match draw_between(numerics, case, &min_days, &max_days) {
        Ok(n) => n,
        Err(e) => {
            return Err(e);
        },
    };
    let ghost middle = *case;
    let lo = if days.same(&min_days) {
        min_within
    } else {
        Int::of(0)
    };
    let hi = if days.same(&max_days) {
        max_within
    } else {
        Int::of(US_PER_DAY - 1)
    };
    let microseconds = match draw_between(numerics, case, &lo, &hi) {
        Ok(n) => n,
        Err(e) => {
            proof {
                Case::lemma_grown(start, middle, *case);
                lemma_one_taken(start, middle, ChoiceModel::Integer(days@));
                lemma_taken_joined(start, middle, *case);
            }
            return Err(e);
        },
    };
    proof {
        Case::lemma_grown(start, middle, *case);
        lemma_one_taken(start, middle, ChoiceModel::Integer(days@));
        lemma_next_taken(start, middle, *case, ChoiceModel::Integer(microseconds@));
        assert(taken(start, *case) =~= seq![
            ChoiceModel::Integer(days@),
            ChoiceModel::Integer(microseconds@),
        ]);
    }
    Ok(Value::Timedelta { days, microseconds })
}

/// A slice of an empty sequence.
fn draw_slice_of_nothing<N: Numerics>(numerics: &mut N, case: &mut Case) -> (r: Result<
    Value,
    StopTest,
>)
    requires
        old(case).wf(),
    ensures
        final(case).grown_from(*old(case)),
        r is Err ==> final(case).overran(),
        r is Err && old(case).replay.endless() ==> final(case).full(),
        r is Ok ==> r->Ok_0 is Slice && slice_within(
            0,
            r->Ok_0->start,
            r->Ok_0->stop,
            r->Ok_0->step,
        ) && r->Ok_0->start is None && r->Ok_0->stop is None,
        r is Ok ==> spells_slice(0, taken(*old(case), *final(case)), r->Ok_0),
        final(case).nodes@.len() <= old(case).nodes@.len() + 2,
{
    let ghost c0 = *case;
    let stepped = match flip(numerics, case) {
        Ok(b) => b,
        Err(e) => {
            return Err(e);
        },
    };
    proof {
        lemma_one_taken(c0, *case, ChoiceModel::Boolean(stepped));
    }
    if !stepped {
        return Ok(Value::Slice { start: None, stop: None, step: None });
    }
    let ghost c1 = *case;
    let candidates: Vec<Int> = Vec::new();
    let n = match case.draw_integer(numerics, None, None, &no_weights(), &candidates, Int::of(0)) {
        Ok(n) => n,
        Err(e) => {
            proof {
                Case::lemma_grown(c0, c1, *case);
            }
            return Err(e);
        },
    };
    proof {
        Case::lemma_grown(c0, c1, *case);
        lemma_next_taken(c0, c1, *case, ChoiceModel::Integer(n@));
    }
    let step = if n.is_zero() {
        Int::of(1)
    } else {
        n
    };
    Ok(Value::Slice { start: None, stop: None, step: Some(step) })
}

/// A slice of a sequence of the given size.
#[verifier::rlimit(60)]
fn draw_slice<N: Numerics>(numerics: &mut N, case: &mut Case, size: i64) -> (r: Result<
    Value,
    StopTest,
>)
    requires
        old(case).wf(),
        0 <= size,
    ensures
        final(case).grown_from(*old(case)),
        r is Err ==> final(case).overran(),
        r is Err && old(case).replay.endless() ==> final(case).full(),
        r is Ok ==> r->Ok_0 is Slice && slice_within(
            size as int,
            r->Ok_0->start,
            r->Ok_0->stop,
            r->Ok_0->step,
        ) && (size == 0 ==> r->Ok_0->start is None && r->Ok_0->stop is None),
        r is Ok ==> spells_slice(size as int, taken(*old(case), *final(case)), r->Ok_0),
        final(case).nodes@.len() <= old(case).nodes@.len() + 9,
{
    let ghost c0 = *case;
    if size == 0 {
        return draw_slice_of_nothing(numerics, case);
    }
    let (start, stop) = match draw_slice_ends(numerics, case, size) {
        Ok(p) => p,
        Err(e) => {
            return Err(e);
        },
    };
    let ghost c1 = *case;
    let max_step: i64 = match (start, stop) {
        (None, None) => size,
        (None, Some(b)) => b,
        (Some(a), None) => a,
        (Some(a), Some(b)) => if a > b {
            a - b
        } else {
            b - a
        },
    };
    let far: i64 = if max_step > 1 {
        max_step
    } else {
        1
    };
    let ghost from = start;
    let ghost to = stop;
    let mut step: i64 = match idraw(numerics, case, 1, far) {
        Ok(n) => n,
        Err(e) => {
            proof {
                Case::lemma_grown(c0, c1, *case);
            }
            return Err(e);
        },
    };
    let ghost c2 = *case;
    let ghost length = step as int;
    let backwards = match flip(numerics, case) {
        Ok(b) => b,
        Err(e) => {
            proof {
                Case::lemma_grown(c0, c1, c2);
                Case::lemma_grown(c0, c2, *case);
            }
            return Err(e);
        },
    };
    let ghost c3 = *case;
    let same_ends = match (start, stop) {
        (None, None) => true,
        (Some(a), Some(b)) => a == b,
        _ => false,
    };
    let a: i64 = match start {
        Some(n) => n,
        None => 0,
    };
    let b: i64 = match stop {
        Some(n) => n,
        None => 0,
    };
    if (backwards && same_ends) || b < a {
        step = -step;
    }
    let negate_start = match flip(numerics, case) {
        Ok(b) => b,
        Err(e) => {
            proof {
                Case::lemma_grown(c0, c1, c2);
                Case::lemma_grown(c0, c2, c3);
                Case::lemma_grown(c0, c3, *case);
            }
            return Err(e);
        },
    };
    let ghost c4 = *case;
    let start: Option<i64> = match start {
        Some(n) => Some(
            if negate_start {
                n - size
            } else {
                n
            },
        ),
        None => None,
    };
    let negate_stop = match flip(numerics, case) {
        Ok(b) => b,
        Err(e) => {
            proof {
                Case::lemma_grown(c0, c1, c2);
                Case::lemma_grown(c0, c2, c3);
                Case::lemma_grown(c0, c3, c4);
                Case::lemma_grown(c0, c4, *case);
            }
            return Err(e);
        },
    };
    let ghost c5 = *case;
    let stop: Option<i64> = match stop {
        Some(n) => Some(
            if negate_stop {
                n - size
            } else {
                n
            },
        ),
        None => None,
    };
    let explicit = match flip(numerics, case) {
        Ok(b) => b,
        Err(e) => {
            proof {
                Case::lemma_grown(c0, c1, c2);
                Case::lemma_grown(c0, c2, c3);
                Case::lemma_grown(c0, c3, c4);
                Case::lemma_grown(c0, c4, c5);
                Case::lemma_grown(c0, c5, *case);
            }
            return Err(e);
        },
    };
    proof {
        Case::lemma_grown(c0, c1, c2);
        Case::lemma_grown(c0, c2, c3);
        Case::lemma_grown(c0, c3, c4);
        Case::lemma_grown(c0, c4, c5);
        Case::lemma_grown(c0, c5, *case);
        lemma_next_taken(c0, c1, c2, ChoiceModel::Integer(length));
        lemma_next_taken(c0, c2, c3, ChoiceModel::Boolean(backwards));
        lemma_next_taken(c0, c3, c4, ChoiceModel::Boolean(negate_start));
        lemma_next_taken(c0, c4, c5, ChoiceModel::Boolean(negate_stop));
        lemma_next_taken(c0, c5, *case, ChoiceModel::Boolean(explicit));
    }
    let ghost stride = step as int;
    let step = if !explicit && step == 1 {
        None
    } else {
        Some(Int::of(step))
    };
    let v = Value::Slice { start, stop, step };
    proof {
        let c = SliceChoices {
            start: from,
            stop: to,
            step: length,
            backwards,
            start_from_back: negate_start,
            stop_from_back: negate_stop,
            explicit,
        };
        assert(stride == c.stride());
        lemma_slice_spelled(c, size as int, taken(c0, *case), v);
    }
    Ok(v)
}

proof fn lemma_slice_spelled(
    c: SliceChoices,
    size: int,
    t: Seq<ChoiceModel>,
    v: Value,
)
    requires
        size != 0,
        t == (end_choices(c.start) + end_choices(c.stop)).push(ChoiceModel::Integer(c.step)).push(
            ChoiceModel::Boolean(c.backwards),
        ).push(ChoiceModel::Boolean(c.start_from_back)).push(
            ChoiceModel::Boolean(c.stop_from_back),
        ).push(ChoiceModel::Boolean(c.explicit)),
        c.gives(size, v),
    ensures
        spells_slice(size, t, v),
{
    assert(t =~= c.choices());
}

/// The ends of a slice, each of them left open half of the time.
#[verifier::rlimit(40)]
fn draw_slice_ends<N: Numerics>(numerics: &mut N, case: &mut Case, size: i64) -> (r: Result<
    (Option<i64>, Option<i64>),
    StopTest,
>)
    requires
        old(case).wf(),
        0 < size,
    ensures
        final(case).grown_from(*old(case)),
        r is Err ==> final(case).overran(),
        r is Err && old(case).replay.endless() ==> final(case).full(),
        r is Ok && r->Ok_0.0 is Some ==> 0 <= (r->Ok_0.0)->0 < size,
        r is Ok && r->Ok_0.1 is Some ==> 0 <= (r->Ok_0.1)->0 <= size,
        r is Ok ==> taken(*old(case), *final(case)) == end_choices(r->Ok_0.0) + end_choices(
            r->Ok_0.1,
        ),
        final(case).nodes@.len() <= old(case).nodes@.len() + 4,
{
    let ghost c0 = *case;
    let open_start = match flip(numerics, case) {
        Ok(b) => b,
        Err(e) => {
            return Err(e);
        },
    };
    let ghost c1 = *case;
    let start: Option<i64> = if open_start {
        None
    } else {
        match idraw(numerics, case, 0, size - 1) {
            Ok(n) => Some(n),
            Err(e) => {
                proof {
                    Case::lemma_grown(c0, c1, *case);
                }
                return Err(e);
            },
        }
    };
    let ghost c2 = *case;
    proof {
        lemma_one_taken(c0, c1, ChoiceModel::Boolean(open_start));
        if !open_start {
            Case::lemma_grown(c0, c1, c2);
            lemma_next_taken(c0, c1, c2, ChoiceModel::Integer(start->0 as int));
        }
        assert(taken(c0, c2) =~= end_choices(start));
    }
    let open_stop = match flip(numerics, case) {
        Ok(b) => b,
        Err(e) => {
            proof {
                Case::lemma_grown(c0, c2, *case);
            }
            return Err(e);
        },
    };
    let ghost c3 = *case;
    proof {
        Case::lemma_grown(c0, c2, c3);
        lemma_next_taken(c0, c2, c3, ChoiceModel::Boolean(open_stop));
    }
    let stop: Option<i64> = if open_stop {
        None
    } else {
        match idraw(numerics, case, 0, size) {
            Ok(n) => Some(n),
            Err(e) => {
                proof {
                    Case::lemma_grown(c0, c3, *case);
                }
                return Err(e);
            },
        }
    };
    proof {
        if !open_stop {
            Case::lemma_grown(c0, c3, *case);
            lemma_next_taken(c0, c3, *case, ChoiceModel::Integer(stop->0 as int));
        }
        assert(taken(c0, *case) =~= end_choices(start) + end_choices(stop));
    }
    Ok((start, stop))
}

/// A numerator for a denominator, so that the fraction is between the bounds. Where
/// there is none, the test case is given up.
fn draw_numerator<N: Numerics>(
    numerics: &mut N,
    case: &mut Case,
    min: &Option<Ratio>,
    max: &Option<Ratio>,
    den: &Int,
) -> (r: Result<Int, StopTest>)
    requires
        old(case).wf(),
        crate::strategy::ratio_ok(*min),
        crate::strategy::ratio_ok(*max),
        den@ > 0,
    ensures
        final(case).grown_from(*old(case)),
        r is Err ==> final(case).frozen,
        r is Err ==> final(case).overran() || (no_numerator(*min, *max, den@) && final(
            case).nodes@ == old(case).nodes@),
        r is Err && (min is None || max is None) ==> final(case).overran(),
        r is Err && (min is None || max is None) && old(case).replay.endless() ==> final(
            case).full(),
        r is Ok ==> final(case).just_drew(*old(case), ChoiceModel::Integer(r->Ok_0@)),
        r is Ok ==> ratio_at_least(r->Ok_0@, den@, *min) && ratio_at_most(
            r->Ok_0@,
            den@,
            *max,
        ),
        r is Err ==> final(case).stopped_with(*old(case), |c: ChoiceModel| c is Integer),
        kept_to_room(*old(case), *final(case), r is Err),
{
    let lo: Option<Int> = match min {
        Some(q) => {
            let scaled = q.num.times(den);
            let n = scaled.negated().div_floor(&q.den).negated();
            proof {
                lemma_ceiling(scaled@, q.den@, n@);
            }
            Some(n)
        },
        None => None,
    };
    let hi: Option<Int> = match max {
        Some(q) => {
            let scaled = q.num.times(den);
            let n = scaled.div_floor(&q.den);
            proof {
                lemma_floor(scaled@, q.den@, n@);
            }
            Some(n)
        },
        None => None,
    };
    if let (Some(a), Some(b)) = (&lo, &hi) {
        if b.less(a) {
            proof {
                assert(case.nodes@.take(case.nodes@.len() as int) =~= case.nodes@);
                assert forall|num: int| #![trigger ratio_at_least(num, den@, *min)]
                    !(ratio_at_least(num, den@, *min) && ratio_at_most(num, den@, *max)) by {
                    lemma_none_between(
                        min->0.num@ * den@,
                        min->0.den@,
                        a@,
                        max->0.num@ * den@,
                        max->0.den@,
                        b@,
                        num,
                    );
                }
            }
            return Err(case.mark_invalid());
        }
    }
    let candidates: Vec<Int> = Vec::new();
    let ghost low = bound(lo);
    let ghost high = bound(hi);
    let r = case.draw_integer(numerics, lo, hi, &no_weights(), &candidates, Int::of(0));
    proof {
        if r is Ok {
            let n = r->Ok_0@;
            if min is Some {
                let q = min->0;
                lemma_at_least(q.num@ * den@, q.den@, low->0, n);
            }
            if max is Some {
                let q = max->0;
                lemma_at_most(q.num@ * den@, q.den@, high->0, n);
            }
        }
    }
    r
}

/// What is not below one bound and not above another one is between the bounds rounded.
proof fn lemma_none_between(a: int, b: int, low: int, c: int, d: int, high: int, num: int)
    requires
        b > 0,
        d > 0,
        low == -((-a) / b),
        high == c / d,
        high < low,
    ensures
        !(a <= num * b && num * d <= c),
{
    if a <= num * b && num * d <= c {
        vstd::arithmetic::div_mod::lemma_fundamental_div_mod(-a, b);
        vstd::arithmetic::div_mod::lemma_mod_bound(-a, b);
        vstd::arithmetic::div_mod::lemma_fundamental_div_mod(c, d);
        vstd::arithmetic::div_mod::lemma_mod_bound(c, d);
        let q = (-a) / b;
        let m = (-a) % b;
        let k = c / d;
        let e = c % d;
        assert(num > -q - 1) by (nonlinear_arith)
            requires
                -a == b * q + m,
                0 <= m < b,
                a <= num * b,
                b > 0,
        ;
        assert(num < k + 1) by (nonlinear_arith)
            requires
                c == d * k + e,
                0 <= e < d,
                num * d <= c,
                d > 0,
        ;
    }
}

proof fn lemma_ceiling(a: int, b: int, n: int)
    requires
        b > 0,
        n == -((-a) / b),
    ensures
        a <= n * b,
{
    vstd::arithmetic::div_mod::lemma_fundamental_div_mod(-a, b);
    vstd::arithmetic::div_mod::lemma_mod_bound(-a, b);
    let q = (-a) / b;
    assert(b * q == -(n * b)) by (nonlinear_arith)
        requires
            n == -q,
    ;
}

proof fn lemma_floor(a: int, b: int, n: int)
    requires
        b > 0,
        n == a / b,
    ensures
        n * b <= a,
{
    vstd::arithmetic::div_mod::lemma_fundamental_div_mod(a, b);
    vstd::arithmetic::div_mod::lemma_mod_bound(a, b);
    assert(b * n == n * b) by (nonlinear_arith);
}

proof fn lemma_at_least(a: int, b: int, low: int, n: int)
    requires
        b > 0,
        a <= low * b,
        low <= n,
    ensures
        a <= n * b,
{
    assert(low * b <= n * b) by (nonlinear_arith)
        requires
            b > 0,
            low <= n,
    ;
}

proof fn lemma_at_most(a: int, b: int, high: int, n: int)
    requires
        b > 0,
        high * b <= a,
        n <= high,
    ensures
        n * b <= a,
{
    assert(n * b <= high * b) by (nonlinear_arith)
        requires
            b > 0,
            n <= high,
    ;
}

/// All the values in some order.
fn draw_permutation<N: Numerics>(numerics: &mut N, case: &mut Case, values: &Vec<Atom>) -> (r: Result<
    Vec<Value>,
    StopTest,
>)
    requires
        old(case).wf(),
    ensures
        final(case).grown_from(*old(case)),
        r is Err ==> final(case).overran(),
        r is Err && old(case).replay.endless() ==> final(case).full(),
        r is Ok ==> forall|i: int| 0 <= i < r->Ok_0@.len() ==> (#[trigger] r->Ok_0@[i]) is Atom,
        r is Ok ==> atoms_of(r->Ok_0@).to_multiset() == values@.to_multiset(),
        r is Ok ==> spells_order(values@, taken(*old(case), *final(case)), r->Ok_0@),
        r is Err ==> taken(*old(case), *final(case)).len() < values@.len(),
{
    broadcast use vstd::seq_lib::group_to_multiset_ensures;

    let ghost start = *case;
    let mut order: Vec<Atom> = Vec::new();
    let mut i: usize = 0;
    while i < values.len()
        invariant
            i <= values.len(),
            order@ == values@.take(i as int),
            *case == start,
        decreases values.len() - i,
    {
        order.push(values[i]);
        proof {
            assert(values@.take(i + 1) =~= values@.take(i as int).push(values@[i as int]));
        }
        i = i + 1;
    }
    proof {
        assert(values@.take(i as int) =~= values@);
        assert(case.nodes@.take(case.nodes@.len() as int) =~= case.nodes@);
    }
    let n: usize = order.len();
    let mut k: usize = 0;
    proof {
        lemma_nothing_taken(start, *case);
    }
    while n > 0 && k < n - 1
        invariant
            order@.len() == n,
            n == values@.len(),
            order@.to_multiset() == values@.to_multiset(),
            start == *old(case),
            case.grown_from(start),
            k <= n,
            n > 0 ==> k < n,
            taken(start, *case).len() == k,
            forall|x: int|
                0 <= x < k ==> (#[trigger] taken(start, *case)[x]) is Integer && x <= taken(
                    start,
                    *case,
                )[x]->Integer_0 < n,
            order@ == shuffled(values@, taken(start, *case), k as nat),
        decreases n - k,
    {
        let ghost before = *case;
        let ghost s = order@;
        let j: u64 = match draw_between(
            numerics,
            case,
            &Int::of_unsigned(k as u64),
            &Int::of_unsigned((n - 1) as u64),
        ) {
            Ok(v) => match v.to_u64() {
                Some(j) => j,
                None => k as u64,
            },
            Err(e) => {
                proof {
                    Case::lemma_grown(start, before, *case);
                    lemma_taken_joined(start, before, *case);
                }
                return Err(e);
            },
        };
        let at: usize = j as usize;
        let a: Atom = order[k];
        let b: Atom = order[at];
        order.set(k, b);
        order.set(at, a);
        proof {
            Case::lemma_grown(start, before, *case);
            lemma_swap_multiset(s, k as int, at as int);
            lemma_next_taken(start, before, *case, ChoiceModel::Integer(at as int));
            lemma_shuffled_prefix(
                values@,
                taken(start, before),
                taken(start, *case),
                k as nat,
            );
            assert(order@ =~= swapped(s, k as int, at as int));
        }
        k = k + 1;
    }
    let mut out: Vec<Value> = Vec::new();
    let mut x: usize = 0;
    while x < order.len()
        invariant
            x <= order.len(),
            out@.len() == x,
            forall|y: int| 0 <= y < x ==> #[trigger] out@[y] == Value::Atom(order@[y]),
        decreases order.len() - x,
    {
        out.push(Value::Atom(order[x]));
        x = x + 1;
    }
    proof {
        assert(atoms_of(out@) =~= order@);
    }
    Ok(out)
}

/// Only the first `n` choices matter for the first `n` steps.
proof fn lemma_shuffled_prefix(s: Seq<Atom>, t: Seq<ChoiceModel>, u: Seq<ChoiceModel>, n: nat)
    requires
        n <= t.len() <= u.len(),
        forall|i: int| 0 <= i < n ==> t[i] == u[i],
    ensures
        shuffled(s, t, n) == shuffled(s, u, n),
    decreases n,
{
    if n > 0 {
        lemma_shuffled_prefix(s, t, u, (n - 1) as nat);
    }
}

proof fn lemma_swap_multiset(s: Seq<Atom>, i: int, j: int)
    requires
        0 <= i < s.len(),
        0 <= j < s.len(),
    ensures
        s.update(i, s[j]).update(j, s[i]).to_multiset() == s.to_multiset(),
{
    broadcast use vstd::seq_lib::group_to_multiset_ensures;

    let t = s.update(i, s[j]);
    let m = s.to_multiset();
    vstd::seq_lib::to_multiset_update(s, i, s[j]);
    vstd::seq_lib::to_multiset_update(t, j, s[i]);
    assert(s.contains(s[i]));
    assert(m.count(s[i]) > 0);
    if i == j {
        assert(t.update(j, s[i]) =~= s);
    } else {
        assert(t[j] == s[j]);
        assert(t.update(j, s[i]).to_multiset() =~= m);
    }
}

// ---- filtered samples -------------------------------------------------------

/// A sample that a filter can go through.
pub open spec fn is_short_sample(node: StrategyNode) -> bool {
    match node {
        StrategyNode::SampledFrom { elements, .. } => elements@.len() > 0,
        StrategyNode::SampledFromRange { len, .. } => 0 < len@ <= 1_000_000,
        _ => false,
    }
}

/// How many elements a sample has that a filter can go through; nothing where the
/// strategy is no sample, or an empty or too long one.
pub fn filter_sample_len(node: &StrategyNode) -> (r: Option<usize>)
    ensures
        match *node {
            StrategyNode::SampledFrom { elements, .. } => r == (if elements@.len() > 0 {
                Some(elements.len())
            } else {
                None
            }),
            StrategyNode::SampledFromRange { len, .. } => r == (if 0 < len@ <= 1_000_000 {
                Some(len@ as usize)
            } else {
                None
            }),
            _ => r is None,
        },
        r is Some <==> is_short_sample(*node),
{
    match node {
        StrategyNode::SampledFrom { elements, .. } => {
            if elements.len() > 0 {
                Some(elements.len())
            } else {
                None
            }
        },
        StrategyNode::SampledFromRange { len, .. } => match len.to_u64() {
            Some(n) => if 0 < n && n <= 1_000_000 {
                Some(n as usize)
            } else {
                None
            },
            None => None,
        },
        _ => None,
    }
}

/// The element of a sample at a place.
pub(crate) fn sample_at(node: &StrategyNode, i: usize) -> (r: Value)
    requires
        match *node {
            StrategyNode::SampledFrom { elements, .. } => i < elements@.len(),
            StrategyNode::SampledFromRange { len, .. } => i < len@,
            _ => false,
        },
    ensures
        is_sample(*node, i as int, r),
        sampled(*node, r),
{
    let v = match node {
        StrategyNode::SampledFrom { elements, .. } => Value::Atom(elements[i]),
        StrategyNode::SampledFromRange { start, step, .. } => {
            let at = Int::of_unsigned(i as u64);
            Value::Int(start.plus(&at.times(step)))
        },
        _ => Value::Atom(Atom::Nil),
    };
    assert(is_sample(*node, i as int, v));
    v
}

/// The elements of a sample, where a filter can go through them.
pub fn sampled_from_elements(node: &StrategyNode) -> (r: Option<Vec<Value>>)
    ensures
        r is None <==> match *node {
            StrategyNode::SampledFrom { elements, .. } => elements@.len() == 0,
            StrategyNode::SampledFromRange { len, .. } => !(0 < len@ <= 1_000_000),
            _ => true,
        },
        r is Some ==> forall|i: int|
            0 <= i < r->0@.len() ==> is_sample(*node, i, #[trigger] r->0@[i]),
        r is Some && node is SampledFrom ==> r->0@.len() == node->elements@.len(),
        r is Some && node is SampledFromRange ==> r->0@.len() == node->len@,
{
    let n: usize = match filter_sample_len(node) {
        Some(n) => n,
        None => {
            return None;
        },
    };
    let mut out: Vec<Value> = Vec::new();
    let mut i: usize = 0;
    while i < n
        invariant
            i <= n,
            out@.len() == i,
            match *node {
                StrategyNode::SampledFrom { elements, .. } => n == elements@.len(),
                StrategyNode::SampledFromRange { len, .. } => n == len@,
                _ => false,
            },
            forall|x: int| 0 <= x < i ==> is_sample(*node, x, #[trigger] out@[x]),
        decreases n - i,
    {
        out.push(sample_at(node, i));
        i = i + 1;
    }
    Some(out)
}

fn has_index(v: &Vec<usize>, i: usize) -> (r: bool)
    ensures
        r == v@.contains(i),
{
    let mut k: usize = 0;
    while k < v.len()
        invariant
            k <= v.len(),
            forall|x: int| 0 <= x < k ==> v@[x] != i,
        decreases v.len() - k,
    {
        if v[k] == i {
            proof {
                assert(v@[k as int] == i);
            }
            return true;
        }
        k = k + 1;
    }
    false
}

/// An element of a sample that a function accepts: three tries at random, then one at
/// random among those that are still possible.
fn sampled_from_filter_draw<H: Host>(
    host: &mut H,
    case: &mut Case,
    node: &StrategyNode,
    n: usize,
    func: u64,
) -> (r: Result<Value, DrawError>)
    requires
        old(case).wf(),
        n > 0,
        match *node {
            StrategyNode::SampledFrom { elements, .. } => n == elements@.len(),
            StrategyNode::SampledFromRange { len, .. } => n == len@,
            _ => false,
        },
    ensures
        final(case).grown_from(*old(case)),
        r is Ok ==> sampled(*node, r->Ok_0),
        r is Ok ==> accepted_sample::<H>(*node, func, r->Ok_0),
        r is Err && r->Err_0 is Raised ==> exists|u: Value| #[trigger]
            judge_raised::<H>(func, u, r->Err_0->Raised_0) && sampled(*node, u),
        r is Err && r->Err_0 is Stop ==> final(case).overran() || sample_spent::<H>(*node, func),
        r is Ok ==> spells_sample::<H>(*node, func, taken(*old(case), *final(case)), r->Ok_0),
        r is Err && r->Err_0 is Stop ==> final(case).frozen,
        r is Err ==> r->Err_0 is Stop || r->Err_0 is Raised,
        kept_to_room(*old(case), *final(case), r is Err && r->Err_0 is Stop),
{
    let ghost c0 = *case;
    let mut known_bad: Vec<usize> = Vec::new();
    let ghost mut known: Seq<int> = Seq::empty();
    let mut tries: u32 = 0;
    proof {
        assert(case.nodes@.take(case.nodes@.len() as int) =~= case.nodes@);
        lemma_nothing_taken(c0, *case);
        assert(taken(c0, *case) =~= place_numbers(known));
    }
    while tries < 3
        invariant
            tries <= 3,
            c0 == *old(case),
            case.grown_from(c0),
            n > 0,
            known_bad@.len() <= tries,
            n == sample_size(*node),
            known.len() == tries,
            all_refused_at::<H>(*node, n as int, func, known),
            holds_places(known_bad@, known),
            taken(c0, *case) == place_numbers(known),
            known_bad@.no_duplicates(),
            forall|x: int| 0 <= x < known_bad@.len() ==> #[trigger] known_bad@[x] < n,
            match *node {
                StrategyNode::SampledFrom { elements, .. } => n == elements@.len(),
                StrategyNode::SampledFromRange { len, .. } => n == len@,
                _ => false,
            },
        decreases 3 - tries,
    {
        let ghost before = *case;
        let i: usize = match case.choose_below(host, n, None) {
            Ok(i) => i,
            Err(e) => {
                proof {
                    Case::lemma_grown(c0, before, *case);
                }
                return Err(DrawError::Stop(e));
            },
        };
        proof {
            Case::lemma_grown(c0, before, *case);
            lemma_next_taken(c0, before, *case, ChoiceModel::Integer(i as int));
            assert(taken(c0, *case) =~= place_numbers(known.push(i as int)));
        }
        let ghost others = known;
        proof {
            known = known.push(i as int);
        }
        if !has_index(&known_bad, i) {
            let v = sample_at(node, i);
            match host.accepts(func, &v) {
                Ok(true) => {
                    proof {
                        assert(is_sample(*node, i as int, v));
                        assert(accepted_at::<H>(*node, i as int, func));
                        assert(picks_sample::<H>(
                            *node,
                            func,
                            taken(c0, *case),
                            others,
                            Seq::empty(),
                            i as int,
                        ));
                    }
                    return Ok(v);
                },
                Ok(false) => {},
                Err(e) => {
                    assert(judge_raised::<H>(func, v, e) && sampled(*node, v));
                    return Err(DrawError::Raised(e));
                },
            }
            proof {
                assert(judged::<H>(func, v, false));
                assert(is_sample(*node, i as int, v));
                assert(refused_at::<H>(*node, i as int, func));
            }
            let ghost middle = *case;
            case.note_discard();
            proof {
                assert(case.nodes@.take(middle.nodes@.len() as int) =~= middle.nodes@);
                Case::lemma_grown(c0, middle, *case);
                assert(taken(c0, *case) =~= taken(c0, middle));
            }
            let ghost bad = known_bad@;
            known_bad.push(i);
            proof {
                lemma_place_held(bad, others, i, true);
            }
        } else {
            proof {
                lemma_place_held(known_bad@, others, i, false);
                assert(others.contains(i as int));
            }
        }
        assert(all_refused_at::<H>(*node, n as int, func, known));
        tries = tries + 1;
    }
    proof {
        lemma_distinct_below(known_bad@, n);
    }
    let max_good: usize = n - known_bad.len();
    let ghost c1 = *case;
    if max_good == 0 {
        let e = case.mark_invalid();
        proof {
            assert(case.nodes@.take(c1.nodes@.len() as int) =~= c1.nodes@);
            Case::lemma_grown(c0, c1, *case);
            lemma_all_places_known::<H>(*node, func, known_bad@, known, n);
            assert(at_places(known));
        }
        return Err(DrawError::Stop(e));
    }
    let reachable: usize = if max_good < MAX_FILTER_CALLS - 3 {
        max_good
    } else {
        MAX_FILTER_CALLS - 3
    };
    let speculative: usize = match case.choose_below(host, reachable, None) {
        Ok(i) => i,
        Err(e) => {
            proof {
                Case::lemma_grown(c0, c1, *case);
            }
            return Err(DrawError::Stop(e));
        },
    };
    proof {
        Case::lemma_grown(c0, c1, *case);
        lemma_next_taken(c0, c1, *case, ChoiceModel::Integer(speculative as int));
        assert(taken(c0, *case) =~= place_numbers(known.push(speculative as int)));
    }
    let end: usize = if n < MAX_FILTER_CALLS - 3 {
        n
    } else {
        MAX_FILTER_CALLS - 3
    };
    let mut allowed: Vec<usize> = Vec::new();
    let mut i: usize = 0;
    while i < end
        invariant
            i <= end <= n,
            n == sample_size(*node),
            end == filter_reach(n as int),
            known.len() == 3,
            all_refused_at::<H>(*node, n as int, func, known),
            holds_places(known_bad@, known),
            taken(c0, *case) == place_numbers(known.push(speculative as int)),
            sieved::<H>(*node, func, known, i as int, as_places(allowed@)),
            allowed@.len() <= speculative,
            c0 == *old(case),
            case.grown_from(c0),
            forall|x: int| 0 <= x < allowed@.len() ==> #[trigger] allowed@[x] < n,
            forall|x: int|
                0 <= x < allowed@.len() ==> accepted_at::<H>(
                    *node,
                    (#[trigger] allowed@[x]) as int,
                    func,
                ),
            match *node {
                StrategyNode::SampledFrom { elements, .. } => n == elements@.len(),
                StrategyNode::SampledFromRange { len, .. } => n == len@,
                _ => false,
            },
        decreases end - i,
    {
        let ghost others = as_places(allowed@);
        if !has_index(&known_bad, i) {
            let v = sample_at(node, i);
            match host.accepts(func, &v) {
                Ok(true) => {
                    proof {
                        assert(is_sample(*node, i as int, v));
                        assert(accepted_at::<H>(*node, i as int, func));
                        assert(!known.contains(i as int)) by {
                            lemma_place_held(known_bad@, known, i, false);
                        }
                    }
                    if allowed.len() == speculative {
                        proof {
                            assert(picks_sample::<H>(
                                *node,
                                func,
                                taken(c0, *case),
                                known,
                                others,
                                i as int,
                            ));
                        }
                        return Ok(v);
                    }
                    allowed.push(i);
                    proof {
                        assert(as_places(allowed@).drop_last() =~= others);
                        assert(as_places(allowed@).last() == i);
                    }
                },
                Ok(false) => {
                    proof {
                        assert(judged::<H>(func, v, false));
                        assert(is_sample(*node, i as int, v));
                        assert(refused_at::<H>(*node, i as int, func));
                    }
                },
                Err(e) => {
                    assert(judge_raised::<H>(func, v, e) && sampled(*node, v));
                    return Err(DrawError::Raised(e));
                },
            }
        }
        proof {
            if known_bad@.contains(i) {
                lemma_place_held(known_bad@, known, i, false);
            }
        }
        i = i + 1;
    }
    let ghost c2 = *case;
    if allowed.len() == 0 {
        let e = case.mark_invalid();
        proof {
            assert(case.nodes@.take(c2.nodes@.len() as int) =~= c2.nodes@);
            Case::lemma_grown(c0, c2, *case);
            assert(as_places(allowed@) =~= Seq::<int>::empty());
            assert(at_places(known));
        }
        return Err(DrawError::Stop(e));
    }
    match case.choose_below(host, allowed.len(), None) {
        Ok(j) => {
            let at: usize = allowed[j];
            let v = sample_at(node, at);
            proof {
                Case::lemma_grown(c0, c2, *case);
                assert(accepted_at::<H>(*node, at as int, func));
                let u = choose|u: Value| #[trigger]
                    is_sample(*node, at as int, u) && judged::<H>(func, u, true);
                assert(is_sample(*node, at as int, u) && is_sample(*node, at as int, v));
                lemma_next_taken(c0, c2, *case, ChoiceModel::Integer(j as int));
                let t = taken(c0, *case);
                assert(t.take(3) =~= place_numbers(known));
                assert(picks_sample::<H>(
                    *node,
                    func,
                    t,
                    known,
                    as_places(allowed@),
                    at as int,
                ));
            }
            Ok(v)
        },
        Err(e) => {
            proof {
                Case::lemma_grown(c0, c2, *case);
            }
            Err(DrawError::Stop(e))
        },
    }
}

/// The positions as numbers.
spec fn as_places(v: Seq<usize>) -> Seq<int> {
    Seq::new(v.len(), |x: int| v[x] as int)
}

/// The positions are those among the places, each one once.
spec fn holds_places(v: Seq<usize>, places: Seq<int>) -> bool {
    &&& forall|x: int| 0 <= x < v.len() ==> places.contains(#[trigger] v[x] as int)
    &&& forall|y: int|
        0 <= y < places.len() ==> 0 <= (#[trigger] places[y]) <= usize::MAX && v.contains(
            places[y] as usize,
        )
}

proof fn lemma_place_held(v: Seq<usize>, places: Seq<int>, i: usize, fresh: bool)
    requires
        holds_places(v, places),
    ensures
        v.contains(i) <==> places.contains(i as int),
        fresh ==> holds_places(v.push(i), places.push(i as int)),
        !fresh && v.contains(i) ==> holds_places(v, places.push(i as int)),
{
    let more = places.push(i as int);
    if v.contains(i) {
        let x = choose|x: int| 0 <= x < v.len() && v[x] == i;
        assert(places.contains(v[x] as int));
    }
    if places.contains(i as int) {
        let y = choose|y: int| 0 <= y < places.len() && places[y] == i as int;
        assert(v.contains(places[y] as usize));
    }
    assert forall|x: int| 0 <= x < v.len() implies more.contains(#[trigger] v[x] as int) by {
        let y = choose|y: int| 0 <= y < places.len() && places[y] == v[x] as int;
        assert(more[y] == v[x] as int);
    }
    assert(more[places.len() as int] == i as int);
    if fresh {
        let w = v.push(i);
        assert forall|x: int| 0 <= x < w.len() implies more.contains(#[trigger] w[x] as int) by {
            if x < v.len() {
                assert(more.contains(v[x] as int));
            }
        }
        assert forall|y: int| 0 <= y < more.len() implies 0 <= (#[trigger] more[y]) <= usize::MAX
            && w.contains(more[y] as usize) by {
            if y < places.len() {
                assert(v.contains(places[y] as usize));
                let x = choose|x: int| 0 <= x < v.len() && v[x] == places[y] as usize;
                assert(w[x] == places[y] as usize);
            } else {
                assert(w[v.len() as int] == i);
            }
        }
    }
}

/// If so many places are known as there are, everything is sieved out.
proof fn lemma_all_places_known<H: Host>(
    node: StrategyNode,
    func: u64,
    bad: Seq<usize>,
    known: Seq<int>,
    n: usize,
)
    requires
        bad.len() == n,
        bad.no_duplicates(),
        forall|x: int| 0 <= x < bad.len() ==> #[trigger] bad[x] < n,
        holds_places(bad, known),
    ensures
        sieved::<H>(node, func, known, filter_reach(n as int), Seq::empty()),
{
    assert forall|i: usize| i < n implies #[trigger] bad.contains(i) by {
        if !bad.contains(i) {
            let more = bad.push(i);
            assert(more.no_duplicates());
            lemma_distinct_below(more, n);
        }
    }
    assert forall|i: int| 0 <= i < n implies #[trigger] known.contains(i) by {
        assert(bad.contains(i as usize));
        lemma_place_held(bad, known, i as usize, false);
    }
    lemma_sieved_out::<H>(node, func, known, filter_reach(n as int));
}

proof fn lemma_sieved_out<H: Host>(node: StrategyNode, func: u64, known: Seq<int>, upto: int)
    requires
        forall|i: int| 0 <= i < upto ==> #[trigger] known.contains(i),
    ensures
        sieved::<H>(node, func, known, upto, Seq::empty()),
    decreases upto,
{
    if upto > 0 {
        assert(known.contains(upto - 1));
        lemma_sieved_out::<H>(node, func, known, upto - 1);
    }
}

proof fn lemma_distinct_below(s: Seq<usize>, n: usize)
    requires
        s.no_duplicates(),
        forall|x: int| 0 <= x < s.len() ==> #[trigger] s[x] < n,
    ensures
        s.len() <= n,
    decreases n,
{
    if n == 0 {
        if s.len() > 0 {
            assert(s[0] < n);
        }
    } else {
        let m = (n - 1) as usize;
        if s.contains(m) {
            let i = choose|i: int| 0 <= i < s.len() && s[i] == m;
            let t = s.remove(i);
            assert forall|x: int| 0 <= x < t.len() implies #[trigger] t[x] < m by {
                let y = if x < i {
                    x
                } else {
                    x + 1
                };
                assert(t[x] == s[y]);
                assert(s[y] != s[i]);
            }
            assert(t.no_duplicates()) by {
                assert forall|a: int, b: int|
                    0 <= a < t.len() && 0 <= b < t.len() && a != b implies t[a] != t[b] by {
                    let x = if a < i {
                        a
                    } else {
                        a + 1
                    };
                    let y = if b < i {
                        b
                    } else {
                        b + 1
                    };
                    assert(s[x] != s[y]);
                }
            }
            lemma_distinct_below(t, m);
        } else {
            assert forall|x: int| 0 <= x < s.len() implies #[trigger] s[x] < m by {
                assert(s[x] != m);
            }
            lemma_distinct_below(s, m);
        }
    }
}

// ---- strategies without parts -----------------------------------------------

/// A float of a width between its bounds.
fn draw_float_node<H: Host>(
    host: &mut H,
    case: &mut Case,
    bounds: FloatBounds,
    width: u32,
) -> (r: Result<u64, StopTest>)
    requires
        old(case).wf(),
        crate::provider::float_bounds_ordered(bounds),
    ensures
        final(case).grown_from(*old(case)),
        r is Err <==> old(case).refuses() || final(case).length > final(case).max_length,
        r is Err ==> final(case).overran(),
        r is Ok ==> float_within(
            r->Ok_0,
            bounds.min_value,
            bounds.max_value,
            bounds.allow_nan,
        ),
        r is Ok && width == 64 ==> final(case).just_drew(*old(case), ChoiceModel::Float(r->Ok_0)),
        r is Ok && width == 64 ==> ruled(
            old(case).replay.rule_at(0),
            Constraints::Float(bounds),
            ChoiceModel::Float(r->Ok_0),
        ),
        r is Err && old(case).replay.endless() ==> final(case).full(),
        r is Ok ==> exists|f: u64| #[trigger]
            final(case).just_drew(*old(case), ChoiceModel::Float(f)) && (width != 64
                ==> narrowed::<H>(f, width, bounds, r->Ok_0)),
        r is Err ==> final(case).stopped_with(*old(case), |c: ChoiceModel| c is Float),
        r is Ok ==> final(case).rolled::<H>(
            *old(case),
            Constraints::Float(bounds),
            None,
            Seq::empty(),
            Seq::empty(),
            final(case).nodes@.last().value@,
        ) && final(case).nodes@.last().constraints == Constraints::Float(bounds),
{
    let v: u64 = match case.draw_float(host, bounds) {
        Ok(f) => f,
        Err(e) => {
            return Err(e);
        },
    };
    if width == 64 || !is_finite(v) {
        return Ok(v);
    }
    let n: u64 = host.narrow(v, width);
    assert(narrow_gave::<H>(v, width, n));
    if crate::floats::is_nan(n) {
        return Ok(v);
    }
    if lt(n, bounds.min_value) {
        return Ok(bounds.min_value);
    }
    if lt(bounds.max_value, n) {
        return Ok(bounds.max_value);
    }
    Ok(n)
}

fn decimal_unit_of(places: &Option<i32>) -> (r: Int)
    ensures
        r@ == decimal_unit(*places),
        r@ > 0,
{
    let p: i32 = match places {
        Some(n) => *n,
        None => 3,
    };
    let e: u32 = if p < 0 {
        0
    } else if p > 12 {
        12
    } else {
        p as u32
    };
    proof {
        vstd::arithmetic::power::lemma_pow_positive(10, e as nat);
    }
    Int::of(10).power(e)
}

/// The strategy is one of those that `draw_number` draws from.
spec fn is_number(node: StrategyNode) -> bool {
    node is Integers || node is Booleans || node is Floats || node is SampledFrom
        || node is SampledFromRange
}

/// The strategy is one of those that `draw_plain` draws from.
spec fn is_plain(node: StrategyNode) -> bool {
    node is NoneVal || node is Just || node is Nothing || node is Text || node is Characters
        || node is Binary || node is Data || node is Invalid
}

/// The strategy is one of those that `draw_moment` draws from.
spec fn is_moment(node: StrategyNode) -> bool {
    node is Dates || node is Times || node is Datetimes || node is Timedeltas
}

/// The strategy is one of those that `draw_special` draws from.
spec fn is_special(node: StrategyNode) -> bool {
    node is Uuids || node is Permutations || node is ComplexNumbers || node is IpAddresses
        || node is Slices || node is Fractions || node is Decimals
}

/// The strategy is one of those that `draw_with_host` draws from.
spec fn is_hosted(node: StrategyNode) -> bool {
    node is Mapped || node is Filtered || node is Flatmapped || node is Deferred || node is Builds
        || node is Composite || node is Foreign || node is Functions || node is Randoms
        || node is Shared
}

/// Draws numbers, truth values and samples.
fn draw_number<H: Host>(host: &mut H, case: &mut Case, node: &StrategyNode) -> (r: Result<
    Value,
    DrawError,
>)
    requires
        old(case).wf(),
        node.ok(),
        is_number(*node),
    ensures
        final(case).grown_from(*old(case)),
        r is Ok ==> conforms(*node, r->Ok_0),
        r is Err && r->Err_0 is Stop ==> final(case).frozen,
        r is Err ==> r->Err_0 is Stop || r->Err_0 is Invalid,
        r is Err ==> forall|b: Budget| #[trigger]
            stops_by::<H>(*node, *final(case), r->Err_0, b),
        simple_draw(*old(case), *final(case), *node, r),
        accounted::<H>(*old(case), *final(case), *node, r),
        by_chance::<H>(*old(case), *final(case), *node, r),
        forall|b: Budget| #[trigger] roomed::<H>(*old(case), *final(case), *node, r, b),
{
    let ghost start = *case;
    proof {
        assert(case.nodes@.take(case.nodes@.len() as int) =~= case.nodes@);
    }
    match node {
        StrategyNode::Integers { min, max } => {
            let candidates: Vec<Int> = Vec::new();
            let weights = boundary_weights(min, max);
            match case.draw_integer(
                host,
                min.clone(),
                max.clone(),
                &weights,
                &candidates,
                Int::of(0),
            ) {
                Ok(n) => {
                    proof {
                        lemma_one_taken(start, *case, ChoiceModel::Integer(n@));
                        assert(candidates@ =~= Seq::<Int>::empty());
                        assert(weighs(bound(*min), bound(*max), weights@));
                        assert(just_rolled::<H>(start, *case, weights@, Seq::empty()));
                    }
                    Ok(Value::Int(n))
                },
                Err(e) => Err(DrawError::Stop(e)),
            }
        },
        StrategyNode::Booleans => match case.draw_boolean(host, HALF, None) {
            Ok(b) => {
                proof {
                    lemma_one_taken(start, *case, ChoiceModel::Boolean(b));
                }
                Ok(Value::Bool(b))
            },
            Err(e) => Err(DrawError::Stop(e)),
        },
        StrategyNode::Floats { min, max, allow_nan, allow_inf, snm, width } => {
            let (low, high) = float_effective_bounds(*min, *max, *allow_inf, *width);
            let bounds = FloatBounds {
                min_value: low,
                max_value: high,
                allow_nan: *allow_nan,
                smallest_nonzero_magnitude: *snm,
            };
            match draw_float_node(host, case, bounds, *width) {
                Ok(f) => {
                    proof {
                        let g = choose|g: u64| #[trigger]
                            case.just_drew(start, ChoiceModel::Float(g)) && (*width != 64
                                ==> narrowed::<H>(g, *width, bounds, f));
                        lemma_one_taken(start, *case, ChoiceModel::Float(g));
                        if *width == 64 {
                            lemma_one_taken(start, *case, ChoiceModel::Float(f));
                        }
                    }
                    Ok(Value::Float(f))
                },
                Err(e) => Err(DrawError::Stop(e)),
            }
        },
        StrategyNode::SampledFrom { elements, .. } => {
            if elements.len() == 0 {
                return Err(DrawError::Stop(case.mark_invalid()));
            }
            match case.choose_below(host, elements.len(), None) {
                Ok(i) => {
                    proof {
                        lemma_one_taken(start, *case, ChoiceModel::Integer(i as int));
                    }
                    Ok(sample_at(node, i))
                },
                Err(e) => Err(DrawError::Stop(e)),
            }
        },
        StrategyNode::SampledFromRange { start: first, step, len, .. } => {
            if !Int::of(0).less(len) {
                return Err(DrawError::Stop(case.mark_invalid()));
            }
            match draw_between(host, case, &Int::of(0), &len.minus(&Int::of(1))) {
                Ok(i) => {
                    let v = Value::Int(first.plus(&i.times(step)));
                    proof {
                        lemma_one_taken(start, *case, ChoiceModel::Integer(i@));
                        assert(is_sample(*node, i@, v));
                    }
                    Ok(v)
                },
                Err(e) => Err(DrawError::Stop(e)),
            }
        },
        _ => Err(DrawError::Stop(case.mark_invalid())),
    }
}

/// Draws constants and strings.
fn draw_plain<H: Host>(host: &mut H, case: &mut Case, node: &StrategyNode) -> (r: Result<
    Value,
    DrawError,
>)
    requires
        old(case).wf(),
        node.ok(),
        is_plain(*node),
    ensures
        final(case).grown_from(*old(case)),
        r is Ok ==> conforms(*node, r->Ok_0),
        r is Err && r->Err_0 is Stop ==> final(case).frozen,
        r is Err ==> r->Err_0 is Stop || r->Err_0 is Invalid,
        r is Err ==> forall|b: Budget| #[trigger]
            stops_by::<H>(*node, *final(case), r->Err_0, b),
        simple_draw(*old(case), *final(case), *node, r),
        accounted::<H>(*old(case), *final(case), *node, r),
        by_chance::<H>(*old(case), *final(case), *node, r),
        forall|b: Budget| #[trigger] roomed::<H>(*old(case), *final(case), *node, r, b),
{
    let ghost start = *case;
    proof {
        assert(case.nodes@.take(case.nodes@.len() as int) =~= case.nodes@);
    }
    proof {
        lemma_nothing_taken(start, *case);
    }
    match node {
        StrategyNode::NoneVal => Ok(Value::Atom(Atom::Nil)),
        StrategyNode::Just(a) => Ok(Value::Atom(*a)),
        StrategyNode::Nothing => Err(DrawError::Stop(case.mark_invalid())),
        StrategyNode::Text { alphabet, min, max } => match case.draw_string(
            host,
            alphabet.as_set(),
            *min,
            *max,
        ) {
            Ok(t) => {
                proof {
                    lemma_one_taken(start, *case, ChoiceModel::Text(t@));
                    let k = case.nodes@.last().constraints;
                    assert(asks_text(k, *alphabet, *min as int, *max as int));
                }
                Ok(Value::Text(t))
            },
            Err(e) => Err(DrawError::Stop(e)),
        },
        StrategyNode::Characters { alphabet, .. } => match case.draw_string(
            host,
            alphabet.as_set(),
            1,
            1,
        ) {
            Ok(t) => {
                proof {
                    lemma_one_taken(start, *case, ChoiceModel::Text(t@));
                    let k = case.nodes@.last().constraints;
                    assert(asks_text(k, *alphabet, 1, 1));
                }
                Ok(Value::Text(t))
            },
            Err(e) => Err(DrawError::Stop(e)),
        },
        StrategyNode::Binary { min, max } => match case.draw_bytes(host, *min, *max) {
            Ok(b) => {
                proof {
                    lemma_one_taken(start, *case, ChoiceModel::Bytes(b@));
                }
                Ok(Value::Bytes(b))
            },
            Err(e) => Err(DrawError::Stop(e)),
        },
        StrategyNode::Data => Ok(Value::Data),
        StrategyNode::Invalid { msg, resolution_failed } => Err(
            DrawError::Invalid { msg: msg.clone(), resolution_failed: *resolution_failed },
        ),
        _ => Err(DrawError::Stop(case.mark_invalid())),
    }
}

/// Draws days, times and spans of time.
#[verifier::rlimit(60)]
fn draw_moment<H: Host>(host: &mut H, case: &mut Case, node: &StrategyNode) -> (r: Result<
    Value,
    DrawError,
>)
    requires
        old(case).wf(),
        node.ok(),
        is_moment(*node),
    ensures
        final(case).grown_from(*old(case)),
        r is Ok ==> conforms(*node, r->Ok_0),
        r is Err && r->Err_0 is Stop ==> final(case).frozen,
        r is Err ==> r->Err_0 is Stop || r->Err_0 is Invalid,
        r is Err ==> forall|b: Budget| #[trigger]
            stops_by::<H>(*node, *final(case), r->Err_0, b),
        simple_draw(*old(case), *final(case), *node, r),
        accounted::<H>(*old(case), *final(case), *node, r),
        by_chance::<H>(*old(case), *final(case), *node, r),
        forall|b: Budget| #[trigger] roomed::<H>(*old(case), *final(case), *node, r, b),
{
    let ghost start = *case;
    proof {
        assert(case.nodes@.take(case.nodes@.len() as int) =~= case.nodes@);
    }
    match node {
        StrategyNode::Dates { min_ord, max_ord } => match draw_ordinal(
            host,
            case,
            *min_ord,
            *max_ord,
        ) {
            Ok(ordinal) => {
                proof {
                    lemma_one_taken(start, *case, ChoiceModel::Integer(ordinal as int));
                }
                Ok(Value::Date { ordinal })
            },
            Err(e) => Err(DrawError::Stop(e)),
        },
        StrategyNode::Times { min_us, max_us } => {
            let us: i64 = match idraw(host, case, *min_us, *max_us) {
                Ok(n) => n,
                Err(e) => {
                    return Err(DrawError::Stop(e));
                },
            };
            let ghost middle = *case;
            let r = flip(host, case);
            proof {
                Case::lemma_grown(start, middle, *case);
                lemma_one_taken(start, middle, ChoiceModel::Integer(us as int));
                lemma_taken_joined(start, middle, *case);
            }
            match r {
                Ok(fold) => {
                    proof {
                        lemma_one_taken(start, middle, ChoiceModel::Integer(us as int));
                        lemma_next_taken(start, middle, *case, ChoiceModel::Boolean(fold));
                        assert(taken(start, *case) =~= seq![
                            ChoiceModel::Integer(us as int),
                            ChoiceModel::Boolean(fold),
                        ]);
                    }
                    Ok(Value::Time { us, fold })
                },
                Err(e) => Err(DrawError::Stop(e)),
            }
        },
        StrategyNode::Datetimes { min_ord, max_ord } => {
            let ordinal: i64 = match draw_ordinal(host, case, *min_ord, *max_ord) {
                Ok(n) => n,
                Err(e) => {
                    return Err(DrawError::Stop(e));
                },
            };
            let ghost c1 = *case;
            let drawn = idraw(host, case, 0, US_PER_DAY - 1);
            proof {
                Case::lemma_grown(start, c1, *case);
                lemma_one_taken(start, c1, ChoiceModel::Integer(ordinal as int));
                lemma_taken_joined(start, c1, *case);
            }
            let us: i64 = match drawn {
                Ok(n) => n,
                Err(e) => {
                    return Err(DrawError::Stop(e));
                },
            };
            let ghost c2 = *case;
            let r = flip(host, case);
            proof {
                Case::lemma_grown(start, c2, *case);
                lemma_next_taken(start, c1, c2, ChoiceModel::Integer(us as int));
                lemma_taken_joined(start, c2, *case);
            }
            match r {
                Ok(fold) => {
                    proof {
                        lemma_one_taken(start, c1, ChoiceModel::Integer(ordinal as int));
                        lemma_next_taken(start, c1, c2, ChoiceModel::Integer(us as int));
                        lemma_next_taken(start, c2, *case, ChoiceModel::Boolean(fold));
                        assert(taken(start, *case) =~= seq![
                            ChoiceModel::Integer(ordinal as int),
                            ChoiceModel::Integer(us as int),
                            ChoiceModel::Boolean(fold),
                        ]);
                    }
                    Ok(Value::Datetime { ordinal, us, fold })
                },
                Err(e) => Err(DrawError::Stop(e)),
            }
        },
        StrategyNode::Timedeltas { min_us, max_us } => match draw_timedelta(
            host,
            case,
            min_us,
            max_us,
        ) {
            Ok(v) => Ok(v),
            Err(e) => Err(DrawError::Stop(e)),
        },
        _ => Err(DrawError::Stop(case.mark_invalid())),
    }
}

/// Draws other things.
#[verifier::rlimit(60)]
fn draw_special<H: Host>(host: &mut H, case: &mut Case, node: &StrategyNode) -> (r: Result<
    Value,
    DrawError,
>)
    requires
        old(case).wf(),
        node.ok(),
        is_special(*node),
    ensures
        final(case).grown_from(*old(case)),
        r is Ok ==> conforms(*node, r->Ok_0),
        r is Err && r->Err_0 is Stop ==> final(case).frozen,
        r is Err ==> r->Err_0 is Stop || r->Err_0 is Invalid,
        r is Err ==> forall|b: Budget| #[trigger]
            stops_by::<H>(*node, *final(case), r->Err_0, b),
        simple_draw(*old(case), *final(case), *node, r),
        accounted::<H>(*old(case), *final(case), *node, r),
        by_chance::<H>(*old(case), *final(case), *node, r),
        forall|b: Budget| #[trigger] roomed::<H>(*old(case), *final(case), *node, r, b),
{
    let ghost start = *case;
    proof {
        assert(case.nodes@.take(case.nodes@.len() as int) =~= case.nodes@);
    }
    match node {
        StrategyNode::Uuids { version, allow_nil } => {
            let hi = Int::of(2).power(128).minus(&Int::of(1));
            let lo = Int::of(
                if *allow_nil {
                    0
                } else {
                    1
                },
            );
            proof {
                lemma_power_large();
            }
            match draw_between(host, case, &lo, &hi) {
                Ok(number) => {
                    proof {
                        lemma_one_taken(start, *case, ChoiceModel::Integer(number@));
                    }
                    Ok(Value::Uuid { number, version: *version })
                },
                Err(e) => Err(DrawError::Stop(e)),
            }
        },
        StrategyNode::Permutations(values) => match draw_permutation(host, case, values) {
            Ok(v) => Ok(Value::List(v)),
            Err(e) => Err(DrawError::Stop(e)),
        },
        StrategyNode::ComplexNumbers { allow_nan } => {
            let bounds = FloatBounds {
                min_value: SIGN + INFINITY,
                max_value: INFINITY,
                allow_nan: *allow_nan,
                smallest_nonzero_magnitude: SMALLEST_SUBNORMAL,
            };
            let re: u64 = match case.draw_float(host, bounds) {
                Ok(f) => f,
                Err(e) => {
                    return Err(DrawError::Stop(e));
                },
            };
            let ghost c1 = *case;
            let r = case.draw_float(host, bounds);
            proof {
                Case::lemma_grown(start, c1, *case);
                lemma_one_taken(start, c1, ChoiceModel::Float(re));
                lemma_taken_joined(start, c1, *case);
            }
            match r {
                Ok(im) => {
                    proof {
                        lemma_one_taken(start, c1, ChoiceModel::Float(re));
                        lemma_next_taken(start, c1, *case, ChoiceModel::Float(im));
                        assert(taken(start, *case) =~= seq![
                            ChoiceModel::Float(re),
                            ChoiceModel::Float(im),
                        ]);
                    }
                    Ok(Value::Complex { re, im })
                },
                Err(e) => Err(DrawError::Stop(e)),
            }
        },
        StrategyNode::IpAddresses { v6, net_range } => {
            let is_v6 = match v6 {
                Some(b) => *b,
                None => match flip(host, case) {
                    Ok(b) => b,
                    Err(e) => {
                        return Err(DrawError::Stop(e));
                    },
                },
            };
            let ghost c1 = *case;
            let (lo, hi) = match net_range {
                Some((lo, hi)) => (lo.clone(), hi.clone()),
                None => {
                    let bits: u32 = if is_v6 {
                        128
                    } else {
                        32
                    };
                    proof {
                        vstd::arithmetic::power::lemma_pow_positive(2, bits as nat);
                    }
                    (Int::of(0), Int::of(2).power(bits).minus(&Int::of(1)))
                },
            };
            let r = draw_between(host, case, &lo, &hi);
            proof {
                Case::lemma_grown(start, c1, *case);
                lemma_taken_joined(start, c1, *case);
                if v6 is Some {
                    lemma_nothing_taken(start, c1);
                } else {
                    lemma_one_taken(start, c1, ChoiceModel::Boolean(is_v6));
                }
            }
            match r {
                Ok(number) => {
                    proof {
                        lemma_next_taken(start, c1, *case, ChoiceModel::Integer(number@));
                        if v6 is Some {
                            lemma_nothing_taken(start, c1);
                            assert(taken(start, *case) =~= seq![ChoiceModel::Integer(number@)]);
                        } else {
                            lemma_one_taken(start, c1, ChoiceModel::Boolean(is_v6));
                            assert(taken(start, *case) =~= seq![
                                ChoiceModel::Boolean(is_v6),
                                ChoiceModel::Integer(number@),
                            ]);
                        }
                    }
                    Ok(Value::Ip { v6: is_v6, number })
                },
                Err(e) => Err(DrawError::Stop(e)),
            }
        },
        StrategyNode::Slices { size } => match draw_slice(host, case, *size as i64) {
            Ok(v) => Ok(v),
            Err(e) => Err(DrawError::Stop(e)),
        },
        StrategyNode::Fractions { min, max, max_denom } => {
            let den = match draw_between(host, case, &Int::of(1), &Int::of(*max_denom)) {
                Ok(n) => n,
                Err(e) => {
                    return Err(DrawError::Stop(e));
                },
            };
            let ghost c1 = *case;
            let r = draw_numerator(host, case, min, max, &den);
            proof {
                Case::lemma_grown(start, c1, *case);
                lemma_one_taken(start, c1, ChoiceModel::Integer(den@));
                lemma_taken_joined(start, c1, *case);
                if r is Err && !case.overran() {
                    assert(no_numerator(*min, *max, den@));
                    assert(some_without_numerator(*min, *max, *max_denom as int));
                    assert(taken(start, *case) =~= taken(start, c1));
                }
            }
            match r {
                Ok(num) => {
                    proof {
                        lemma_one_taken(start, c1, ChoiceModel::Integer(den@));
                        lemma_next_taken(start, c1, *case, ChoiceModel::Integer(num@));
                        assert(taken(start, *case) =~= seq![
                            ChoiceModel::Integer(den@),
                            ChoiceModel::Integer(num@),
                        ]);
                    }
                    Ok(Value::Fraction { num, den })
                },
                Err(e) => Err(DrawError::Stop(e)),
            }
        },
        StrategyNode::Decimals { min, max, places } => {
            let den = decimal_unit_of(places);
            match draw_numerator(host, case, min, max, &den) {
                Ok(num) => {
                    proof {
                        lemma_one_taken(start, *case, ChoiceModel::Integer(num@));
                    }
                    Ok(Value::Decimal { num, den })
                },
                Err(e) => Err(DrawError::Stop(e)),
            }
        },
        _ => Err(DrawError::Stop(case.mark_invalid())),
    }
}

proof fn lemma_power_large()
    ensures
        pow(2, 128) > 1,
{
    reveal(pow);
    vstd::arithmetic::power::lemma_pow_positive(2, 127);
    assert(pow(2, 128) == 2 * pow(2, 127));
}

/// When a strategy that takes one choice, or none, gives a value: always, unless there
/// is no room or nothing to choose from.
pub open spec fn simple_draw(
    before: Case,
    after: Case,
    node: StrategyNode,
    r: Result<Value, DrawError>,
) -> bool {
    match node {
        StrategyNode::NoneVal => r is Ok && after == before,
        StrategyNode::Just(_) => r is Ok && after == before,
        StrategyNode::Data => r is Ok && after == before,
        StrategyNode::Nothing => r is Err && after.status == Status::Invalid,
        StrategyNode::Invalid { msg, resolution_failed } => {
            &&& r is Err && r->Err_0 is Invalid
            &&& r->Err_0->msg@ == msg@
            &&& r->Err_0->resolution_failed == resolution_failed
            &&& after == before
        },
        StrategyNode::Integers { .. } => {
            &&& r is Err <==> before.refuses() || after.length > after.max_length
            &&& r is Ok ==> after.just_drew(before, ChoiceModel::Integer(r->Ok_0->Int_0@))
        },
        StrategyNode::Booleans => {
            &&& r is Err <==> before.refuses() || after.length > after.max_length
            &&& r is Ok ==> after.just_drew(before, ChoiceModel::Boolean(r->Ok_0->Bool_0))
        },
        StrategyNode::Floats { width, .. } => {
            &&& r is Err <==> before.refuses() || after.length > after.max_length
            &&& r is Ok && width == 64 ==> after.just_drew(
                before,
                ChoiceModel::Float(r->Ok_0->Float_0),
            )
        },
        StrategyNode::SampledFrom { elements, .. } => {
            &&& elements@.len() == 0 ==> r is Err && after.status == Status::Invalid
            &&& elements@.len() > 0 ==> (r is Err <==> before.refuses() || after.length
                > after.max_length)
            &&& elements@.len() > 0 && r is Ok ==> exists|i: int|
                #[trigger] is_sample(node, i, r->Ok_0) && after.just_drew(
                    before,
                    ChoiceModel::Integer(i),
                )
        },
        StrategyNode::SampledFromRange { len, .. } => {
            &&& len@ <= 0 ==> r is Err && after.status == Status::Invalid
            &&& len@ > 0 ==> (r is Err <==> before.refuses() || after.length > after.max_length)
            &&& len@ > 0 && r is Err && taken(before, after).len() > 0 ==> integer_ruled(
                before.replay.rule_at(0),
                Some(0),
                Some(len@ - 1),
                0,
                taken(before, after)[0]->Integer_0,
            )
            &&& len@ > 0 && r is Ok ==> exists|i: int|
                #[trigger] is_sample(node, i, r->Ok_0) && after.just_drew(
                    before,
                    ChoiceModel::Integer(i),
                )
        },
        StrategyNode::Fractions { min, max, .. } => r is Err ==> after.overran() || exists|den: int|
            #[trigger] no_numerator(min, max, den) && taken(before, after) == seq![
                ChoiceModel::Integer(den),
            ],
        StrategyNode::Decimals { min, max, places } => r is Err ==> after.overran() || (
        no_numerator(min, max, decimal_unit(places)) && after.nodes@ == before.nodes@),
        StrategyNode::Text { .. } => r is Ok ==> after.just_drew(
            before,
            ChoiceModel::Text(r->Ok_0->Text_0@),
        ),
        StrategyNode::Binary { .. } => r is Ok ==> after.just_drew(
            before,
            ChoiceModel::Bytes(r->Ok_0->Bytes_0@),
        ),
        _ => true,
    }
}

/// The weights that come with an integer between bounds: a wide range has its ends and their
/// neighbours come up more often.
pub open spec fn weighs(min: Option<int>, max: Option<int>, weights: Seq<(Int, u64)>) -> bool {
    if min is Some && max is Some && max->0 - min->0 > 127 {
        &&& weights.len() == 4
        &&& (weights[0].0)@ == min->0 && weights[0].1 == AT_BOUND
        &&& (weights[1].0)@ == min->0 + 1 && weights[1].1 == NEAR_BOUND
        &&& (weights[2].0)@ == max->0 - 1 && weights[2].1 == NEAR_BOUND
        &&& (weights[3].0)@ == max->0 && weights[3].1 == AT_BOUND
    } else {
        weights.len() == 0
    }
}

/// The choice just recorded came from the generator, if nothing was played back.
pub open spec fn just_rolled<N: Numerics>(
    before: Case,
    after: Case,
    weights: Seq<(Int, u64)>,
    candidates: Seq<Int>,
) -> bool {
    let last = after.nodes@.last();
    after.rolled::<N>(before, last.constraints, None, weights, candidates, last.value@)
}

/// The choice just recorded came from the generator, with some days more likely than others.
pub open spec fn rolled_a_date<N: Numerics>(before: Case, after: Case) -> bool {
    exists|candidates: Seq<Int>| #[trigger]
        just_rolled::<N>(before, after, Seq::empty(), candidates)
}

/// What a strategy of one choice gives, if nothing is played back, is what the generator of
/// the test case leads to.
pub open spec fn by_chance<H: Host>(
    before: Case,
    after: Case,
    node: StrategyNode,
    r: Result<Value, DrawError>,
) -> bool {
    r is Ok ==> match node {
        StrategyNode::Integers { min, max } => exists|weights: Seq<(Int, u64)>|
            weighs(bound(min), bound(max), weights) && #[trigger] just_rolled::<H>(
                before,
                after,
                weights,
                Seq::empty(),
            ),
        StrategyNode::Dates { .. } => rolled_a_date::<H>(before, after),
        StrategyNode::Booleans
        | StrategyNode::Floats { .. }
        | StrategyNode::SampledFrom { .. }
        | StrategyNode::SampledFromRange { .. }
        | StrategyNode::Text { .. }
        | StrategyNode::Characters { .. }
        | StrategyNode::Binary { .. }
        | StrategyNode::Uuids { .. } => just_rolled::<H>(
            before,
            after,
            Seq::empty(),
            Seq::empty(),
        ),
        _ => true,
    }
}

// ---- strategies with parts --------------------------------------------------

/// How much deeper the drawing may go: so many strategies that are found out when
/// they are needed, and so many that a function makes of a value.
#[derive(Clone, Copy, Debug, PartialEq, Eq, Structural)]
pub struct Budget {
    pub deferred: u32,
    pub expanded: u64,
}

impl Budget {
    /// What is left when a function has made a strategy.
    pub open spec fn once_expanded(self) -> Budget {
        Budget { deferred: self.deferred, expanded: (self.expanded - 1) as u64 }
    }

    /// What is left when a deferred strategy was found out.
    pub open spec fn once_deferred(self) -> Budget {
        Budget { deferred: (self.deferred - 1) as u32, expanded: self.expanded }
    }

    pub fn full() -> (r: Budget)
        ensures
            r.deferred == DEFERRED_DRAW_LIMIT,
            r.expanded == u64::MAX,
    {
        Budget { deferred: DEFERRED_DRAW_LIMIT, expanded: u64::MAX }
    }
}

/// One value from each of the strategies.
fn draw_each<H: Host>(
    host: &mut H,
    case: &mut Case,
    children: &Vec<StrategyNode>,
    budget: Budget,
) -> (r: Result<Vec<Value>, DrawError>)
    requires
        old(case).wf(),
        forall|i: int| 0 <= i < children@.len() ==> (#[trigger] children@[i]).ok(),
    ensures
        drew(
            *old(case),
            *final(case),
            forall|i: int| 0 <= i < children@.len() ==> closed(#[trigger] children@[i]),
            r is Err && r->Err_0 is Stop,
        ),
        r is Ok ==> r->Ok_0@.len() == children@.len() && forall|i: int|
            0 <= i < children@.len() ==> conforms(children@[i], #[trigger] r->Ok_0@[i]),
        r is Ok ==> forall|i: int|
            0 <= i < children@.len() ==> gives::<H>(children@[i], #[trigger] r->Ok_0@[i], budget),
        r is Err ==> exists|i: int|
            0 <= i < children@.len() && stops_by::<H>(
                #[trigger] children@[i],
                *final(case),
                r->Err_0,
                budget,
            ),
        r is Ok && (forall|i: int| 0 <= i < children@.len() ==> closed(#[trigger] children@[i]))
            ==> spells_each::<H>(children@, taken(*old(case), *final(case)), r->Ok_0@),
        r is Err && old(case).replay.endless() && (forall|i: int|
            0 <= i < children@.len() ==> certain(#[trigger] children@[i])) ==> ran_out(
            *final(case),
            r->Err_0,
        ),
        r is Err && (forall|i: int| 0 <= i < children@.len() ==> certain(#[trigger] children@[i]))
            ==> exists|k: int, vs: Seq<Value>|
            {
                &&& #[trigger] cut(k) && #[trigger] tried(vs)
                &&& 0 <= k <= taken(*old(case), *final(case)).len()
                &&& spells_each::<H>(children@, taken(*old(case), *final(case)).take(k), vs)
                &&& begun_at::<H>(
                    children@,
                    vs.len() as int,
                    taken(*old(case), *final(case)).skip(k),
                )
            },
        (forall|i: int|
            0 <= i < children@.len() ==> contained::<H>(#[trigger] children@[i], budget))
            ==> kept_to_room(*old(case), *final(case), r is Err && r->Err_0 is Stop),
    decreases budget.expanded, budget.deferred, children, 0int,
{
    let ghost start = *case;
    let ghost all_closed = forall|i: int|
        0 <= i < children@.len() ==> closed(#[trigger] children@[i]);
    let ghost all_contained = forall|i: int|
        0 <= i < children@.len() ==> contained::<H>(#[trigger] children@[i], budget);
    let ghost all_certain = forall|i: int|
        0 <= i < children@.len() ==> certain(#[trigger] children@[i]);
    let mut out: Vec<Value> = Vec::new();
    let mut i: usize = 0;
    proof {
        assert(case.nodes@.take(case.nodes@.len() as int) =~= case.nodes@);
        lemma_nothing_taken(start, *case);
        if all_certain {
            assert forall|x: int| 0 <= x < children@.len() implies closed(
                #[trigger] children@[x],
            ) by {
                lemma_certain_is_closed(children@[x]);
            }
        }
    }
    while i < children.len()
        invariant
            i <= children.len(),
            start == *old(case),
            case.wf(),
            all_closed == (forall|x: int|
                0 <= x < children@.len() ==> closed(#[trigger] children@[x])),
            all_certain == (forall|x: int|
                0 <= x < children@.len() ==> certain(#[trigger] children@[x])),
            all_certain ==> all_closed,
            all_closed ==> case.grown_from(start),
            all_closed ==> spells_each::<H>(children@, taken(start, *case), out@),
            forall|x: int| 0 <= x < children@.len() ==> (#[trigger] children@[x]).ok(),
            all_contained == (forall|x: int|
                0 <= x < children@.len() ==> contained::<H>(#[trigger] children@[x], budget)),
            all_contained && start.replay.endless() ==> case.replay.endless(),
            out@.len() == i,
            forall|x: int| 0 <= x < i ==> conforms(children@[x], #[trigger] out@[x]),
            forall|x: int| 0 <= x < i ==> gives::<H>(children@[x], #[trigger] out@[x], budget),
        decreases children.len() - i,
    {
        let ghost before = *case;
        assert(children@[i as int].ok());
        let drawn = draw_node(host, case, &children[i], budget);
        proof {
            if all_closed {
                assert(closed(children@[i as int]));
                Case::lemma_grown(start, before, *case);
                if drawn is Ok {
                    lemma_each_step::<H>(children@, start, before, *case, out@, drawn->Ok_0);
                }
            }
            if all_certain {
                assert(certain(children@[i as int]));
                if drawn is Err {
                    let t = taken(start, *case);
                    let k = taken(start, before).len() as int;
                    lemma_taken_joined(start, before, *case);
                    assert(t.take(k) =~= taken(start, before));
                    assert(t.skip(k) =~= taken(before, *case));
                    assert(cut(k) && tried(out@));
                    assert(begun_at::<H>(children@, out@.len() as int, t.skip(k)));
                }
            }
        }
        match drawn {
            Ok(v) => {
                out.push(v);
            },
            Err(e) => {
                return Err(e);
            },
        }
        i = i + 1;
    }
    Ok(out)
}

/// The choices are those that a list begins with.
pub open spec fn list_begun<H: Host>(
    elem: StrategyNode,
    min: u64,
    max: u64,
    t: Seq<ChoiceModel>,
) -> bool {
    exists|k: int, us: Seq<Value>|
        {
            &&& #[trigger] cut(k) && #[trigger] tried(us)
            &&& 0 <= k <= t.len()
            &&& us.len() <= max
            &&& spells_run::<H>(elem, min != max, t.take(k), us)
            &&& if min == max {
                begun::<H>(elem, t.skip(k))
            } else {
                ||| t.len() == k
                ||| t.len() == k + 1 && t[k] is Boolean
                ||| t.len() > k && t[k] == ChoiceModel::Boolean(true) && begun::<H>(
                    elem,
                    t.skip(k + 1),
                )
            }
        }
}

proof fn lemma_list_begun<H: Host>(
    elem: StrategyNode,
    min: u64,
    max: u64,
    start: Case,
    before: Case,
    after: Case,
    us: Seq<Value>,
)
    requires
        before.grown_from(start),
        after.grown_from(before),
        min != max,
        us.len() <= max,
        spells_run::<H>(elem, true, taken(start, before), us),
        after.stopped_with(before, |c: ChoiceModel| c is Boolean),
    ensures
        list_begun::<H>(elem, min, max, taken(start, after)),
{
    let t = taken(start, after);
    let k = taken(start, before).len() as int;
    lemma_taken_joined(start, before, after);
    lemma_stopped(before, after, |c: ChoiceModel| c is Boolean);
    assert(t.take(k) =~= taken(start, before));
    assert(cut(k) && tried(us));
    if t.len() > k {
        assert(t[k] == taken(before, after)[0]);
    }
}

proof fn lemma_element_begun<H: Host>(
    elem: StrategyNode,
    min: u64,
    max: u64,
    start: Case,
    before: Case,
    middle: Case,
    after: Case,
    us: Seq<Value>,
)
    requires
        before.grown_from(start),
        middle.grown_from(before),
        after.grown_from(middle),
        us.len() <= max,
        spells_run::<H>(elem, min != max, taken(start, before), us),
        went_on(before, middle, min != max, true),
        begun::<H>(elem, taken(middle, after)),
    ensures
        list_begun::<H>(elem, min, max, taken(start, after)),
{
    let t = taken(start, after);
    let k = taken(start, before).len() as int;
    Case::lemma_grown(before, middle, after);
    lemma_taken_joined(start, before, after);
    lemma_taken_joined(before, middle, after);
    assert(t.take(k) =~= taken(start, before));
    assert(cut(k) && tried(us));
    if min == max {
        lemma_nothing_taken(before, middle);
        assert(t.skip(k) =~= taken(middle, after));
    } else {
        lemma_one_taken(before, middle, ChoiceModel::Boolean(true));
        assert(t[k] == ChoiceModel::Boolean(true));
        assert(t.skip(k + 1) =~= taken(middle, after));
    }
}

/// The elements of a list, unique by each of the key functions.
fn draw_elements<H: Host>(
    host: &mut H,
    case: &mut Case,
    elem: &StrategyNode,
    min: u64,
    max: u64,
    unique_by: &Vec<u64>,
    budget: Budget,
) -> (r: Result<Vec<Value>, DrawError>)
    requires
        old(case).wf(),
        elem.ok(),
        crate::strategy::sizes_ok(min, max),
    ensures
        drew(*old(case), *final(case), closed(*elem), r is Err && r->Err_0 is Stop),
        r is Ok ==> min <= r->Ok_0@.len() <= max && forall|i: int|
            0 <= i < r->Ok_0@.len() ==> conforms(*elem, #[trigger] r->Ok_0@[i]),
        r is Ok ==> unique::<H>(unique_by@, r->Ok_0@) && forall|i: int|
            0 <= i < r->Ok_0@.len() ==> gives::<H>(*elem, #[trigger] r->Ok_0@[i], budget),
        r is Err ==> stops_by::<H>(*elem, *final(case), r->Err_0, budget) || (r->Err_0 is Stop && (final(
            case).overran() || keys_spent::<H>(*elem, unique_by@, min as int, budget))) || (r->Err_0 is Raised
            && keys_raised::<H>(*elem, unique_by@, r->Err_0->Raised_0, budget)),
        r is Ok && closed(*elem) ==> exists|us: Seq<Value>|
            {
                &&& #[trigger] tried(us)
                &&& kept_of(r->Ok_0@, us)
                &&& unique_by@.len() == 0 ==> us == r->Ok_0@
                &&& kept_unique::<H>(unique_by@, us, r->Ok_0@)
                &&& spells_collection::<H>(*elem, min != max, taken(*old(case), *final(case)), us)
            },
        r is Err && old(case).replay.endless() && unique_by@.len() == 0 && certain(*elem)
            ==> ran_out(*final(case), r->Err_0),
        r is Err && unique_by@.len() == 0 && certain(*elem) ==> list_begun::<H>(
            *elem,
            min,
            max,
            taken(*old(case), *final(case)),
        ),
        contained::<H>(*elem, budget) ==> kept_to_room(
            *old(case),
            *final(case),
            r is Err && r->Err_0 is Stop,
        ),
    decreases budget.expanded, budget.deferred, elem, 3int,
{
    let ghost start = *case;
    let ghost mut us: Seq<Value> = Seq::empty();
    let mut out: Vec<Value> = Vec::new();
    let mut seen: Vec<Vec<Value>> = Vec::new();
    while seen.len() < unique_by.len()
        invariant
            seen@.len() <= unique_by@.len(),
            forall|x: int| 0 <= x < seen@.len() ==> (#[trigger] seen@[x])@.len() == 0,
        decreases unique_by.len() - seen.len(),
    {
        seen.push(Vec::new());
    }
    let mut many = Many::new(host, min, max);
    proof {
        assert(case.nodes@.take(case.nodes@.len() as int) =~= case.nodes@);
        lemma_nothing_taken(start, *case);
        assert(out@ =~= us);
        assert forall|j: int| 0 <= j < unique_by@.len() implies
            #[trigger] crate::hosting::distinct_by::<H>(
            unique_by@[j],
            out@,
            lists_of(seen@)[j],
        ) by {
            assert(seen@[j]@.len() == 0);
        }
        if certain(*elem) {
            lemma_certain_is_closed(*elem);
        }
    }
    loop
        invariant
            start == *old(case),
            case.wf(),
            elem.ok(),
            many.wf(),
            many.min_size == min,
            many.max_size == max,
            closed(*elem) ==> case.grown_from(start),
            closed(*elem) ==> spells_run::<H>(*elem, min != max, taken(start, *case), us),
            certain(*elem) ==> closed(*elem),
            contained::<H>(*elem, budget) && start.replay.endless() ==> case.replay.endless(),
            kept_of(out@, us),
            unique_by@.len() == 0 ==> us == out@,
            seen@.len() == unique_by@.len(),
            out@.len() == many.count,
            forall|x: int| 0 <= x < out@.len() ==> conforms(*elem, #[trigger] out@[x]),
            forall|x: int| 0 <= x < out@.len() ==> gives::<H>(*elem, #[trigger] out@[x], budget),
            distinct_by_all::<H>(unique_by@, out@, lists_of(seen@)),
            kept_new_by::<H>(unique_by@, us, out@, lists_of(seen@)),
            us.len() - out@.len() == many.rejections,
            forall|x: int| 0 <= x < us.len() ==> gives::<H>(*elem, #[trigger] us[x], budget),
        decreases many.steps_left(),
    {
        let ghost c0 = *case;
        let ghost steps = many.steps_left();
        let more = many.more(host, case);
        proof {
            if closed(*elem) {
                Case::lemma_grown(start, c0, *case);
            }
        }
        match more {
            Ok(true) => {},
            Ok(false) => {
                proof {
                    if closed(*elem) {
                        lemma_run_end::<H>(*elem, min != max, start, c0, *case, us);
                    }
                    assert(tried(us));
                }
                return Ok(out);
            },
            Err(e) => {
                proof {
                    if unique_by@.len() == 0 && certain(*elem) {
                        lemma_list_begun::<H>(*elem, min, max, start, c0, *case, us);
                    }
                }
                return Err(DrawError::Stop(e));
            },
        }
        let ghost c1 = *case;
        let drawn = draw_node(host, case, elem, budget);
        proof {
            if closed(*elem) {
                Case::lemma_grown(start, c1, *case);
            }
        }
        let v = match drawn {
            Ok(v) => v,
            Err(e) => {
                proof {
                    if unique_by@.len() == 0 && certain(*elem) {
                        lemma_element_begun::<H>(*elem, min, max, start, c0, c1, *case, us);
                    }
                }
                return Err(e);
            },
        };
        proof {
            if closed(*elem) {
                lemma_run_step::<H>(*elem, min != max, start, c0, c1, *case, us, v);
            }
            lemma_kept(out@, us, v);
        }
        let ghost others = us;
        proof {
            us = us.push(v);
        }
        let ghost noted = lists_of(seen@);
        let fresh = match note_unique(host, unique_by, &mut seen, &v) {
            Ok(b) => b,
            Err(e) => {
                return Err(DrawError::Raised(e));
            },
        };
        proof {
            lemma_kept_new_by::<H>(unique_by@, others, out@, noted, v, lists_of(seen@));
        }
        if fresh {
            proof {
                lemma_one_more_unique::<H>(unique_by@, out@, v, noted, lists_of(seen@));
            }
            out.push(v);
        } else {
            let ghost c2 = *case;
            let rejected = many.reject(case);
            proof {
                if closed(*elem) {
                    assert(case.nodes@.take(c2.nodes@.len() as int) =~= c2.nodes@);
                    Case::lemma_grown(start, c2, *case);
                }
            }
            if let Err(e) = rejected {
                proof {
                    assert(kept_unique::<H>(unique_by@, us, out@));
                    assert(too_few(us.len() as int, out@.len() as int, min as int));
                }
                return Err(DrawError::Stop(e));
            }
        }
    }
}

/// The values of each of the lists.
pub open spec fn lists_of(s: Seq<Vec<Value>>) -> Seq<Seq<Value>> {
    s.map_values(|x: Vec<Value>| x@)
}

/// Whether a value is new by each of the key functions; its keys are then kept.
pub(crate) fn note_unique<H: Host>(
    host: &mut H,
    unique_by: &Vec<u64>,
    seen: &mut Vec<Vec<Value>>,
    v: &Value,
) -> (r: Result<bool, Raised>)
    requires
        old(seen)@.len() == unique_by@.len(),
    ensures
        final(seen)@.len() == old(seen)@.len(),
        r is Ok && r->Ok_0 ==> noted_new::<H>(
            unique_by@,
            *v,
            lists_of(old(seen)@),
            lists_of(final(seen)@),
        ),
        r is Ok && !r->Ok_0 ==> noted_old::<H>(unique_by@, *v, lists_of(old(seen)@)),
        r is Err ==> raised_by::<H>(r->Err_0),
        r is Err ==> unique_raised::<H>(unique_by@, *v, r->Err_0),
        unique_by@.len() == 0 ==> r == Ok::<bool, Raised>(true),
        r is Ok ==> noted_from(
            |h: &mut H| *final(h),
            *old(host),
            *final(host),
            unique_by@,
            lists_of(old(seen)@),
            *v,
            lists_of(final(seen)@),
            r,
        ),
        r is Err ==> noted_from(
            |h: &mut H| *final(h),
            *old(host),
            *final(host),
            unique_by@,
            lists_of(old(seen)@),
            *v,
            lists_of(old(seen)@),
            r,
        ),
        r is Ok && !r->Ok_0 ==> final(seen)@ == old(seen)@,
{
    let mut keys: Vec<Value> = Vec::new();
    let mut i: usize = 0;
    while i < unique_by.len()
        invariant
            i <= unique_by.len(),
            keys@.len() == i,
            seen@ == old(seen)@,
            keyed_in_turn(
                |h: &mut H| *final(h),
                *old(host),
                *host,
                unique_by@,
                lists_of(old(seen)@),
                *v,
                keys@,
            ),
            seen@.len() == unique_by@.len(),
            forall|j: int|
                0 <= j < i ==> keyed::<H>(unique_by@[j], *v, #[trigger] keys@[j]) && compared::<H>(
                    old(seen)@[j]@,
                    keys@[j],
                    false,
                ),
        decreases unique_by.len() - i,
    {
        let ghost h0 = *host;
        let asked = host.key(unique_by[i], v);
        let ghost h1 = *host;
        assert(key_from(|h: &mut H| *final(h), h0, h1, unique_by@[i as int], *v, asked));
        let key = match asked {
            Ok(k) => k,
            Err(e) => {
                proof {
                    assert(asked == Err::<Value, Raised>(e));
                    assert(key_raised::<H>(unique_by@[i as int], *v, e));
                    assert(noted_at(
                        |h: &mut H| *final(h),
                        h0,
                        h1,
                        unique_by@,
                        lists_of(old(seen)@),
                        *v,
                        keys@,
                        lists_of(old(seen)@),
                        Err(e),
                    ));
                }
                return Err(e);
            },
        };
        let found = host.is_seen(&seen[i], &key);
        proof {
            assert(asked == Ok::<Value, Raised>(key));
            assert(lists_of(old(seen)@)[i as int] == seen@[i as int]@);
            assert(seen_from(
                |h: &mut H| *final(h),
                h1,
                *host,
                lists_of(old(seen)@)[i as int],
                key,
                found,
            ));
        }
        match found {
            Ok(true) => {
                proof {
                    assert(noted_at(
                        |h: &mut H| *final(h),
                        h0,
                        *host,
                        unique_by@,
                        lists_of(old(seen)@),
                        *v,
                        keys@,
                        lists_of(old(seen)@),
                        Ok(false),
                    ));
                    assert(lists_of(old(seen)@)[i as int] == seen@[i as int]@);
                    assert(keyed::<H>(unique_by@[i as int], *v, key));
                    assert(compared::<H>(lists_of(old(seen)@)[i as int], key, true));
                }
                return Ok(false);
            },
            Ok(false) => {},
            Err(e) => {
                proof {
                    assert(keyed::<H>(unique_by@[i as int], *v, key));
                    assert(compare_raised::<H>(key, e));
                    assert(noted_at(
                        |h: &mut H| *final(h),
                        h0,
                        *host,
                        unique_by@,
                        lists_of(old(seen)@),
                        *v,
                        keys@,
                        lists_of(old(seen)@),
                        Err(e),
                    ));
                }
                return Err(e);
            },
        }
        proof {
            assert(keyed::<H>(unique_by@[i as int], *v, key));
            assert(compared::<H>(old(seen)@[i as int]@, key, false));
        }
        let ghost others = keys@;
        keys.push(key);
        proof {
            assert(keys@.drop_last() =~= others);
            assert(key_from(
                |h: &mut H| *final(h),
                h0,
                h1,
                unique_by@[keys@.len() - 1],
                *v,
                Ok(keys@.last()),
            ));
            assert(found == Ok::<bool, Raised>(false));
            assert(seen_from(
                |h: &mut H| *final(h),
                h1,
                *host,
                lists_of(old(seen)@)[keys@.len() - 1],
                keys@.last(),
                Ok(false),
            ));
        }
        i = i + 1;
    }
    let ghost found = keys@;
    let ghost asked = *host;
    let mut left: usize = keys.len();
    while left > 0
        invariant
            *host == asked,
            keys@ == found.take(left as int),
            left <= found.len(),
            found.len() == seen@.len(),
            seen@.len() == old(seen)@.len(),
            forall|x: int|
                0 <= x < seen@.len() ==> (#[trigger] seen@[x])@ == (if x >= left {
                    old(seen)@[x]@.push(found[x])
                } else {
                    old(seen)@[x]@
                }),
        decreases left,
    {
        left = left - 1;
        assert(keys@.len() > 0);
        match keys.pop() {
            Some(key) => {
                assert(key == found[left as int]);
                seen[left].push(key);
            },
            None => {},
        }
        assert(keys@ =~= found.take(left as int));
    }
    proof {
        assert(lists_of(seen@) =~= with_keys(lists_of(old(seen)@), found));
        assert(noted_at(
            |h: &mut H| *final(h),
            asked,
            asked,
            unique_by@,
            lists_of(old(seen)@),
            *v,
            found,
            lists_of(seen@),
            Ok(true),
        ));
        assert forall|j: int| 0 <= j < unique_by@.len() implies #[trigger] noted_by::<H>(
            unique_by@[j],
            *v,
            lists_of(old(seen)@)[j],
            lists_of(seen@)[j],
        ) by {
            assert(seen@[j]@ == old(seen)@[j]@.push(found[j]));
            assert(seen@[j]@.drop_last() =~= old(seen)@[j]@);
            assert(keyed::<H>(unique_by@[j], *v, found[j]));
        }
    }
    Ok(true)
}

/// The elements of a set.
fn draw_distinct<H: Host>(
    host: &mut H,
    case: &mut Case,
    elem: &StrategyNode,
    min: u64,
    max: u64,
    budget: Budget,
) -> (r: Result<Vec<Value>, DrawError>)
    requires
        old(case).wf(),
        elem.ok(),
        crate::strategy::sizes_ok(min, max),
    ensures
        drew(*old(case), *final(case), closed(*elem), r is Err && r->Err_0 is Stop),
        r is Ok ==> min <= r->Ok_0@.len() <= max && forall|i: int|
            0 <= i < r->Ok_0@.len() ==> conforms(*elem, #[trigger] r->Ok_0@[i]),
        r is Ok ==> distinct::<H>(r->Ok_0@) && forall|i: int|
            0 <= i < r->Ok_0@.len() ==> gives::<H>(*elem, #[trigger] r->Ok_0@[i], budget),
        r is Err ==> stops_by::<H>(*elem, *final(case), r->Err_0, budget) || (r->Err_0 is Stop && (final(
            case).overran() || values_spent::<H>(*elem, min as int, budget))) || (r->Err_0 is Raised && values_raised::<H>(
            *elem,
            r->Err_0->Raised_0,
            budget,
        )),
        r is Ok && closed(*elem) ==> exists|us: Seq<Value>|
            #[trigger] tried(us) && kept_of(r->Ok_0@, us) && kept_new::<H>(
                us,
                r->Ok_0@,
            ) && spells_collection::<H>(
                *elem,
                min != max,
                taken(*old(case), *final(case)),
                us,
            ),
        contained::<H>(*elem, budget) ==> kept_to_room(
            *old(case),
            *final(case),
            r is Err && r->Err_0 is Stop,
        ),
    decreases budget.expanded, budget.deferred, elem, 3int,
{
    let ghost start = *case;
    let ghost mut us: Seq<Value> = Seq::empty();
    let mut out: Vec<Value> = Vec::new();
    let mut many = Many::new(host, min, max);
    proof {
        assert(case.nodes@.take(case.nodes@.len() as int) =~= case.nodes@);
        lemma_nothing_taken(start, *case);
    }
    loop
        invariant
            start == *old(case),
            case.wf(),
            elem.ok(),
            many.wf(),
            many.min_size == min,
            many.max_size == max,
            closed(*elem) ==> case.grown_from(start),
            closed(*elem) ==> spells_run::<H>(*elem, min != max, taken(start, *case), us),
            contained::<H>(*elem, budget) && start.replay.endless() ==> case.replay.endless(),
            kept_of(out@, us),
            out@.len() == many.count,
            forall|x: int| 0 <= x < out@.len() ==> conforms(*elem, #[trigger] out@[x]),
            forall|x: int| 0 <= x < out@.len() ==> gives::<H>(*elem, #[trigger] out@[x], budget),
            distinct::<H>(out@),
            kept_new::<H>(us, out@),
            us.len() - out@.len() == many.rejections,
            forall|x: int| 0 <= x < us.len() ==> gives::<H>(*elem, #[trigger] us[x], budget),
        decreases many.steps_left(),
    {
        let ghost c0 = *case;
        let more = many.more(host, case);
        proof {
            if closed(*elem) {
                Case::lemma_grown(start, c0, *case);
            }
        }
        match more {
            Ok(true) => {},
            Ok(false) => {
                proof {
                    if closed(*elem) {
                        lemma_run_end::<H>(*elem, min != max, start, c0, *case, us);
                    }
                    assert(tried(us));
                }
                return Ok(out);
            },
            Err(e) => {
                return Err(DrawError::Stop(e));
            },
        }
        let ghost c1 = *case;
        let drawn = draw_node(host, case, elem, budget);
        proof {
            if closed(*elem) {
                Case::lemma_grown(start, c1, *case);
            }
        }
        let v = match drawn {
            Ok(v) => v,
            Err(e) => {
                return Err(e);
            },
        };
        proof {
            if closed(*elem) {
                lemma_run_step::<H>(*elem, min != max, start, c0, c1, *case, us, v);
            }
            lemma_kept(out@, us, v);
            lemma_kept_new::<H>(us, out@, v);
            us = us.push(v);
        }
        match host.is_seen(&out, &v) {
            Ok(false) => {
                proof {
                    assert(compared::<H>(out@, v, false));
                    lemma_one_more_distinct::<H>(out@, v);
                }
                out.push(v);
            },
            Ok(true) => {
                assert(compared::<H>(out@, v, true));
                let ghost c2 = *case;
                let rejected = many.reject(case);
                proof {
                    if closed(*elem) {
                        assert(case.nodes@.take(c2.nodes@.len() as int) =~= c2.nodes@);
                        Case::lemma_grown(start, c2, *case);
                    }
                }
                if let Err(e) = rejected {
                    proof {
                        assert(kept_new::<H>(us, out@));
                        assert(too_few(us.len() as int, out@.len() as int, min as int));
                    }
                    return Err(DrawError::Stop(e));
                }
            },
            Err(e) => {
                assert(compare_raised::<H>(v, e));
                return Err(DrawError::Raised(e));
            },
        }
    }
}

/// The entries of a dictionary.
fn draw_entries<H: Host>(
    host: &mut H,
    case: &mut Case,
    node: &StrategyNode,
    budget: Budget,
) -> (r: Result<Value, DrawError>)
    requires
        old(case).wf(),
        node.ok(),
        node is Dictionaries,
    ensures
        drew(*old(case), *final(case), closed(*node), r is Err && r->Err_0 is Stop),
        r is Ok ==> conforms(*node, r->Ok_0),
        r is Ok ==> gives::<H>(*node, r->Ok_0, budget),
        r is Err ==> stops_by::<H>(*node, *final(case), r->Err_0, budget),
        accounted::<H>(*old(case), *final(case), *node, r),
        roomed::<H>(*old(case), *final(case), *node, r, budget),
    decreases budget.expanded, budget.deferred, node, 1int,
{
    let ghost start = *case;
    let (keys, values, min, max): (&StrategyNode, &StrategyNode, u64, u64) = match node {
        StrategyNode::Dictionaries { keys, values, min, max } => (&**keys, &**values, *min, *max),
        _ => {
            return Err(DrawError::BadStrategy);
        },
    };
    let ghost both = closed(*keys) && closed(*values);
    let ghost mut es: Seq<Entry> = Seq::empty();
    let mut out: Vec<Entry> = Vec::new();
    let mut many = Many::new(host, min, max);
    proof {
        assert(case.nodes@.take(case.nodes@.len() as int) =~= case.nodes@);
        lemma_nothing_taken(start, *case);
    }
    loop
        invariant
            start == *old(case),
            both == (closed(*keys) && closed(*values)),
            both == closed(*node),
            node is Dictionaries,
            *keys == *node->keys,
            *values == *node->values,
            min == node->Dictionaries_min,
            max == node->Dictionaries_max,
            case.wf(),
            keys.ok(),
            values.ok(),
            many.wf(),
            many.min_size == min,
            many.max_size == max,
            both ==> case.grown_from(start),
            both ==> spells_pairs::<H>(*node, taken(start, *case), es),
            contained::<H>(*keys, budget) && contained::<H>(*values, budget)
                && start.replay.endless() ==> case.replay.endless(),
            kept_of(out@, es),
            out@.len() == many.count,
            forall|x: int|
                0 <= x < out@.len() ==> conforms(*keys, (#[trigger] out@[x]).key) && conforms(
                    *values,
                    out@[x].value,
                ),
            forall|x: int|
                0 <= x < out@.len() ==> gives::<H>(*keys, (#[trigger] out@[x]).key, budget) && gives::<H>(
                    *values,
                    out@[x].value,
                    budget,
                ),
            distinct_keys::<H>(out@),
            kept_new_keys::<H>(es, out@),
            es.len() - out@.len() == many.rejections,
            forall|x: int|
                0 <= x < es.len() ==> gives::<H>(*keys, (#[trigger] es[x]).key, budget)
                    && gives::<H>(*values, es[x].value, budget),
        decreases many.steps_left(),
    {
        let ghost c0 = *case;
        let more = many.more(host, case);
        proof {
            if both {
                Case::lemma_grown(start, c0, *case);
            }
        }
        match more {
            Ok(true) => {},
            Ok(false) => {
                let v = Value::Dict(out);
                proof {
                    assert(conforms(*node, v));
                    assert(tried_entries(es));
                    if both {
                        lemma_taken_joined(start, c0, *case);
                        if min != max {
                            lemma_one_taken(c0, *case, ChoiceModel::Boolean(false));
                            assert(taken(start, *case).drop_last() =~= taken(start, c0));
                        } else {
                            lemma_nothing_taken(c0, *case);
                            assert(taken(start, *case) =~= taken(start, c0));
                        }
                    }
                }
                return Ok(v);
            },
            Err(e) => {
                return Err(DrawError::Stop(e));
            },
        }
        let ghost c1 = *case;
        let drawn_key = draw_node(host, case, keys, budget);
        proof {
            if both {
                Case::lemma_grown(start, c1, *case);
            }
        }
        let key = match drawn_key {
            Ok(v) => v,
            Err(e) => {
                return Err(e);
            },
        };
        let ghost c2 = *case;
        let drawn_value = draw_node(host, case, values, budget);
        proof {
            if both {
                Case::lemma_grown(start, c2, *case);
            }
        }
        let value = match drawn_value {
            Ok(v) => v,
            Err(e) => {
                return Err(e);
            },
        };
        let ghost e = Entry { key, value };
        proof {
            if both {
                lemma_pair_step::<H>(*node, start, c0, c1, c2, *case, es, e);
            }
            lemma_kept(out@, es, e);
            lemma_kept_new_keys::<H>(es, out@, e);
            es = es.push(e);
        }
        match host.is_key(&out, &key) {
            Ok(false) => {
                proof {
                    assert(compared_key::<H>(out@, key, false));
                    lemma_one_more_key::<H>(out@, Entry { key, value });
                }
                out.push(Entry { key, value });
            },
            Ok(true) => {
                assert(compared_key::<H>(out@, key, true));
                let ghost c3 = *case;
                let rejected = many.reject(case);
                proof {
                    if both {
                        assert(case.nodes@.take(c3.nodes@.len() as int) =~= c3.nodes@);
                        Case::lemma_grown(start, c3, *case);
                    }
                }
                if let Err(e) = rejected {
                    proof {
                        assert(kept_new_keys::<H>(es, out@));
                        assert(too_few(es.len() as int, out@.len() as int, min as int));
                        assert(entries_spent::<H>(*keys, *values, min as int, budget));
                    }
                    return Err(DrawError::Stop(e));
                }
            },
            Err(e) => {
                assert(compare_key_raised::<H>(key, e));
                return Err(DrawError::Raised(e));
            },
        }
    }
}

/// A list without repetitions from a small domain: elements are taken out of it until
/// it is empty.
fn draw_from_domain<H: Host>(
    host: &mut H,
    case: &mut Case,
    domain: &Vec<Atom>,
    min: u64,
    max: u64,
) -> (r: Result<Vec<Value>, DrawError>)
    requires
        old(case).wf(),
        crate::strategy::sizes_ok(min, max),
    ensures
        drew(*old(case), *final(case), true, r is Err && r->Err_0 is Stop),
        r is Ok ==> r->Ok_0@.len() <= max && r->Ok_0@.len() <= domain@.len() && forall|i: int|
            0 <= i < r->Ok_0@.len() ==> (#[trigger] r->Ok_0@[i]) is Atom && domain@.contains(
                r->Ok_0@[i]->Atom_0,
            ),
        r is Err ==> (r->Err_0 is Stop && (final(case).overran() || domain_spent::<H>(domain@, min as int))) || (
        r->Err_0 is Raised && domain_raised::<H>(domain@, r->Err_0->Raised_0)),
        r is Ok ==> distinct::<H>(r->Ok_0@),
        r is Ok ==> exists|places: Seq<int>| #[trigger]
            at_places(places) && spells_places(
                domain@,
                places,
                min != max,
                taken(*old(case), *final(case)),
            ) && kept_of(r->Ok_0@, picked(domain@, places)) && kept_new::<H>(
                picked(domain@, places),
                r->Ok_0@,
            ),
        kept_to_room(*old(case), *final(case), r is Err && r->Err_0 is Stop),
{
    let ghost start = *case;
    let mut remaining: Vec<Atom> = Vec::new();
    let mut i: usize = 0;
    while i < domain.len()
        invariant
            i <= domain.len(),
            remaining@.len() == i,
            forall|x: int| 0 <= x < i ==> #[trigger] remaining@[x] == domain@[x],
        decreases domain.len() - i,
    {
        remaining.push(domain[i]);
        i = i + 1;
    }
    proof {
        assert(remaining@ =~= domain@);
        assert(case.nodes@.take(case.nodes@.len() as int) =~= case.nodes@);
    }
    let ghost mut places: Seq<int> = Seq::empty();
    let mut out: Vec<Value> = Vec::new();
    let mut many = Many::new(host, min, max);
    proof {
        lemma_nothing_taken(start, *case);
    }
    while remaining.len() > 0
        invariant
            start == *old(case),
            case.grown_from(start),
            many.wf(),
            many.min_size == min,
            many.max_size == max,
            out@.len() == many.count,
            out@.len() + remaining@.len() <= domain@.len(),
            places.len() + remaining@.len() == domain@.len(),
            remaining@ == left_of(domain@, places),
            forall|x: int|
                0 <= x < places.len() ==> 0 <= (#[trigger] places[x]) < domain@.len() - x,
            taken(start, *case) == place_choices(places, min != max),
            kept_of(out@, picked(domain@, places)),
            distinct::<H>(out@),
            kept_new::<H>(picked(domain@, places), out@),
            places.len() - out@.len() == many.rejections,
            forall|x: int|
                0 <= x < remaining@.len() ==> domain@.contains(#[trigger] remaining@[x]),
            forall|x: int|
                0 <= x < out@.len() ==> (#[trigger] out@[x]) is Atom && domain@.contains(
                    out@[x]->Atom_0,
                ),
        decreases remaining@.len(),
    {
        let ghost c0 = *case;
        let more = many.more(host, case);
        proof {
            Case::lemma_grown(start, c0, *case);
        }
        match more {
            Ok(true) => {},
            Ok(false) => {
                proof {
                    lemma_taken_joined(start, c0, *case);
                    if min != max {
                        lemma_one_taken(c0, *case, ChoiceModel::Boolean(false));
                    } else {
                        lemma_nothing_taken(c0, *case);
                        assert(taken(start, *case) =~= place_choices(places, false)
                            + Seq::<ChoiceModel>::empty());
                    }
                    assert(at_places(places));
                }
                return Ok(out);
            },
            Err(e) => {
                return Err(DrawError::Stop(e));
            },
        }
        let ghost c1 = *case;
        let chosen = case.choose_below(host, remaining.len(), None);
        proof {
            Case::lemma_grown(start, c1, *case);
        }
        let j: usize = match chosen {
            Ok(j) => j,
            Err(e) => {
                return Err(DrawError::Stop(e));
            },
        };
        let ghost before = remaining@;
        let a: Atom = remaining.swap_remove(j);
        proof {
            assert(domain@.contains(before[j as int]));
            assert forall|x: int| 0 <= x < remaining@.len() implies domain@.contains(
                #[trigger] remaining@[x],
            ) by {
                if x == j {
                    assert(domain@.contains(before[before.len() - 1]));
                } else {
                    assert(domain@.contains(before[x]));
                }
            }
        }
        let v = Value::Atom(a);
        proof {
            let next = places.push(j as int);
            assert(next.drop_last() =~= places);
            lemma_taken_joined(start, c0, c1);
            if min != max {
                lemma_one_taken(c0, c1, ChoiceModel::Boolean(true));
            } else {
                lemma_nothing_taken(c0, c1);
            }
            lemma_next_taken(start, c1, *case, ChoiceModel::Integer(j as int));
            assert(taken(start, *case) =~= place_choices(next, min != max));
            assert(remaining@ =~= left_of(domain@, next));
            lemma_kept(out@, picked(domain@, places), v);
            lemma_kept_new::<H>(picked(domain@, places), out@, v);
            assert(picked(domain@, next) =~= picked(domain@, places).push(v));
            places = next;
        }
        match host.is_seen(&out, &v) {
            Ok(false) => {
                proof {
                    assert(compared::<H>(out@, v, false));
                    lemma_one_more_distinct::<H>(out@, v);
                }
                out.push(v);
            },
            Ok(true) => {
                assert(compared::<H>(out@, v, true));
                let ghost c2 = *case;
                let rejected = many.reject(case);
                proof {
                    assert(case.nodes@.take(c2.nodes@.len() as int) =~= c2.nodes@);
                    Case::lemma_grown(start, c2, *case);
                }
                if let Err(e) = rejected {
                    proof {
                        assert(kept_new::<H>(picked(domain@, places), out@));
                        assert(too_few(places.len() as int, out@.len() as int, min as int));
                    }
                    return Err(DrawError::Stop(e));
                }
            },
            Err(e) => {
                assert(compare_raised::<H>(Value::Atom(a), e));
                return Err(DrawError::Raised(e));
            },
        }
    }
    proof {
        assert(taken(start, *case) =~= place_choices(places, min != max)
            + Seq::<ChoiceModel>::empty());
        assert(at_places(places));
    }
    Ok(out)
}

/// A dictionary with fixed keys.
fn draw_fixed<H: Host>(host: &mut H, case: &mut Case, node: &StrategyNode, budget: Budget) -> (r:
    Result<Value, DrawError>)
    requires
        old(case).wf(),
        node.ok(),
        node is FixedDict,
    ensures
        drew(*old(case), *final(case), closed(*node), r is Err && r->Err_0 is Stop),
        r is Ok ==> conforms(*node, r->Ok_0),
        r is Ok ==> gives::<H>(*node, r->Ok_0, budget),
        r is Err ==> stops_by::<H>(*node, *final(case), r->Err_0, budget),
        accounted::<H>(*old(case), *final(case), *node, r),
        roomed::<H>(*old(case), *final(case), *node, r, budget),
    decreases budget.expanded, budget.deferred, node, 1int,
{
    let ghost start = *case;
    let items = match node {
        StrategyNode::FixedDict { items } => items,
        _ => {
            return Err(DrawError::BadStrategy);
        },
    };
    let mut out: Vec<Entry> = Vec::new();
    let mut i: usize = 0;
    proof {
        assert(case.nodes@.take(case.nodes@.len() as int) =~= case.nodes@);
        lemma_nothing_taken(start, *case);
        if certain(*node) {
            lemma_certain_is_closed(*node);
        }
    }
    while i < items.len()
        invariant
            i <= items.len(),
            start == *old(case),
            node is FixedDict,
            node.ok(),
            node->items == *items,
            case.wf(),
            closed(*node) ==> case.grown_from(start),
            certain(*node) ==> closed(*node),
            closed(*node) ==> spells_items::<H>(items@, taken(start, *case), out@),
            contained::<H>(*node, budget) && start.replay.endless() ==> case.replay.endless(),
            out@.len() == i,
            forall|x: int|
                0 <= x < i ==> (#[trigger] out@[x]).key == Value::Atom(items@[x].key) && conforms(
                    items@[x].value,
                    out@[x].value,
                ),
            forall|x: int|
                0 <= x < i ==> gives::<H>(items@[x].value, (#[trigger] out@[x]).value, budget),
        decreases items.len() - i,
    {
        let ghost before = *case;
        assert(items@[i as int].value.ok());
        let drawn = draw_node(host, case, &items[i].value, budget);
        proof {
            if closed(*node) {
                assert(closed(items@[i as int].value));
                Case::lemma_grown(start, before, *case);
            }
            if certain(*node) {
                assert(certain(items@[i as int].value));
                if drawn is Err {
                    let t = taken(start, *case);
                    let k = taken(start, before).len() as int;
                    lemma_taken_joined(start, before, *case);
                    assert(t.take(k) =~= taken(start, before));
                    assert(t.skip(k) =~= taken(before, *case));
                    assert(cut(k) && tried_entries(out@));
                    assert(begun::<H>(*node, t));
                }
            }
        }
        match drawn {
            Ok(value) => {
                let e = Entry { key: Value::Atom(items[i].key), value };
                proof {
                    if closed(*node) {
                        lemma_items_step::<H>(items@, start, before, *case, out@, e);
                    }
                }
                out.push(e);
            },
            Err(e) => {
                return Err(e);
            },
        }
        i = i + 1;
    }
    let v = Value::Dict(out);
    assert(conforms(*node, v));
    Ok(v)
}

/// A value of a collection.
fn draw_collection<H: Host>(
    host: &mut H,
    case: &mut Case,
    node: &StrategyNode,
    budget: Budget,
) -> (r: Result<Value, DrawError>)
    requires
        old(case).wf(),
        node.ok(),
        node is OneOf || node is Tuples || node is Lists || node is Sets,
    ensures
        drew(*old(case), *final(case), closed(*node), r is Err && r->Err_0 is Stop),
        r is Ok ==> conforms(*node, r->Ok_0),
        r is Ok ==> gives::<H>(*node, r->Ok_0, budget),
        r is Err ==> stops_by::<H>(*node, *final(case), r->Err_0, budget),
        accounted::<H>(*old(case), *final(case), *node, r),
        roomed::<H>(*old(case), *final(case), *node, r, budget),
    decreases budget.expanded, budget.deferred, node, 1int,
{
    let ghost start = *case;
    match node {
        StrategyNode::OneOf(children) => {
            proof {
                assert(case.nodes@.take(case.nodes@.len() as int) =~= case.nodes@);
            }
            if children.len() == 0 {
                return Err(DrawError::Stop(case.mark_invalid()));
            }
            let i: usize = match case.choose_below(host, children.len(), None) {
                Ok(i) => i,
                Err(e) => {
                    return Err(DrawError::Stop(e));
                },
            };
            let ghost middle = *case;
            assert(children@[i as int].ok());
            let r = draw_node(host, case, &children[i], budget);
            proof {
                if closed(*node) {
                    assert(closed(children@[i as int]));
                    Case::lemma_grown(start, middle, *case);
                }
                if certain(*node) {
                    lemma_certain_is_closed(*node);
                    assert(certain(children@[i as int]));
                    lemma_one_taken(start, middle, ChoiceModel::Integer(i as int));
                    lemma_taken_joined(start, middle, *case);
                    assert(taken(start, *case).skip(1) =~= taken(middle, *case));
                    if r is Err {
                        assert(begun_at::<H>(children@, i as int, taken(start, *case).skip(1)));
                    }
                }
                if r is Ok {
                    assert(conforms(children@[i as int], r->Ok_0));
                    assert(gives::<H>(children@[i as int], r->Ok_0, budget));
                    assert(conforms(*node, r->Ok_0));
                    if closed(*node) {
                        lemma_one_taken(start, middle, ChoiceModel::Integer(i as int));
                        lemma_taken_joined(start, middle, *case);
                        assert(taken(start, *case).skip(1) =~= taken(middle, *case));
                        assert(cut(i as int));
                    }
                }
            }
            r
        },
        StrategyNode::Tuples(children) => match draw_each(host, case, children, budget) {
            Ok(v) => {
                let v = Value::Tuple(v);
                assert(conforms(*node, v));
                Ok(v)
            },
            Err(e) => Err(e),
        },
        StrategyNode::Lists { elem, min, max, unique_by, swap_domain } => {
            let drawn = match swap_domain {
                Some(domain) => draw_from_domain(host, case, domain, *min, *max),
                None => draw_elements(host, case, elem, *min, *max, unique_by, budget),
            };
            match drawn {
                Ok(v) => {
                    let v = Value::List(v);
                    assert(conforms(*node, v));
                    Ok(v)
                },
                Err(e) => Err(e),
            }
        },
        StrategyNode::Sets { elem, min, max, frozen } => match draw_distinct(
            host,
            case,
            elem,
            *min,
            *max,
            budget,
        ) {
            Ok(items) => {
                let v = Value::Collection { items, frozen: *frozen };
                assert(conforms(*node, v));
                Ok(v)
            },
            Err(e) => Err(e),
        },
        _ => Err(DrawError::BadStrategy),
    }
}

/// A value that a function accepts, if one comes up within a number of tries.
fn draw_filtered<H: Host>(
    host: &mut H,
    case: &mut Case,
    base: &StrategyNode,
    func: u64,
    budget: Budget,
) -> (r: Result<Value, DrawError>)
    requires
        old(case).wf(),
        base.ok(),
    ensures
        drew(*old(case), *final(case), closed(*base), r is Err && r->Err_0 is Stop),
        r is Ok ==> conforms(*base, r->Ok_0),
        r is Ok && is_short_sample(*base) ==> accepted_sample::<H>(
            *base,
            func,
            r->Ok_0,
        ),
        r is Ok && is_short_sample(*base) ==> spells_sample::<H>(
            *base,
            func,
            taken(*old(case), *final(case)),
            r->Ok_0,
        ),
        r is Ok && !is_short_sample(*base) ==> exists|us: Seq<Value>|
            {
                &&& #[trigger] tried(us)
                &&& sifted::<H>(func, us)
                &&& us.last() == r->Ok_0
                &&& us.len() > 1 ==> told_of_retry::<H>(*base, func)
                &&& us.len() > 1 && closed(*base) ==> final(case).spans.has_discards
                &&& forall|i: int| 0 <= i < us.len() ==> gives::<H>(*base, #[trigger] us[i], budget)
                &&& closed(*base) ==> spells_run::<H>(
                    *base,
                    false,
                    taken(*old(case), *final(case)),
                    us,
                )
            },
        r is Err ==> stops_by::<H>(*base, *final(case), r->Err_0, budget) || (r->Err_0 is Stop && (final(
            case).overran() || refused_too_often::<H>(*base, func, budget))) || (r->Err_0 is Raised
            && filter_raised::<H>(*base, func, r->Err_0->Raised_0, budget)),
        contained::<H>(*base, budget) ==> kept_to_room(
            *old(case),
            *final(case),
            r is Err && r->Err_0 is Stop,
        ),
    decreases budget.expanded, budget.deferred, base, 3int,
{
    let ghost start = *case;
    if let Some(n) = filter_sample_len(base) {
        return sampled_from_filter_draw(host, case, base, n, func);
    }
    let ghost mut us: Seq<Value> = Seq::empty();
    let mut tries: u32 = 0;
    proof {
        assert(case.nodes@.take(case.nodes@.len() as int) =~= case.nodes@);
        lemma_nothing_taken(start, *case);
    }
    while tries <= MAX_FILTER_TRIES
        invariant
            start == *old(case),
            case.wf(),
            base.ok(),
            closed(*base) ==> case.grown_from(start),
            closed(*base) ==> spells_run::<H>(*base, false, taken(start, *case), us),
            contained::<H>(*base, budget) && start.replay.endless() ==> case.replay.endless(),
            tries <= MAX_FILTER_TRIES + 1,
            us.len() == tries,
            all_refused::<H>(func, us),
            tries > 0 ==> told_of_retry::<H>(*base, func),
            tries > 0 && closed(*base) ==> case.spans.has_discards,
            forall|i: int| 0 <= i < us.len() ==> gives::<H>(*base, #[trigger] us[i], budget),
            !is_short_sample(*base),
        decreases MAX_FILTER_TRIES + 1 - tries,
    {
        let ghost c0 = *case;
        let drawn = draw_node(host, case, base, budget);
        proof {
            if closed(*base) {
                Case::lemma_grown(start, c0, *case);
            }
        }
        let v = match drawn {
            Ok(v) => v,
            Err(e) => {
                return Err(e);
            },
        };
        proof {
            if closed(*base) {
                assert(c0.nodes@.take(c0.nodes@.len() as int) =~= c0.nodes@);
                lemma_run_step::<H>(*base, false, start, c0, c0, *case, us, v);
            }
        }
        let ghost others = us;
        proof {
            us = us.push(v);
            assert(tried(us));
        }
        match host.accepts(func, &v) {
            Ok(true) => {
                proof {
                    assert(judged::<H>(func, v, true));
                    assert(us.drop_last() =~= others);
                }
                return Ok(v);
            },
            Ok(false) => {
                proof {
                    assert(judged::<H>(func, v, false));
                    assert forall|i: int| 0 <= i < us.len() implies #[trigger] judged::<H>(
                        func,
                        us[i],
                        false,
                    ) by {
                        if i < others.len() {
                            assert(judged::<H>(func, others[i], false));
                        }
                    }
                }
            },
            Err(e) => {
                assert(judge_raised::<H>(func, v, e));
                return Err(DrawError::Raised(e));
            },
        }
        let ghost c1 = *case;
        case.note_discard();
        proof {
            if closed(*base) {
                assert(case.nodes@.take(c1.nodes@.len() as int) =~= c1.nodes@);
                Case::lemma_grown(start, c1, *case);
                lemma_taken_joined(start, c1, *case);
                lemma_nothing_taken(c1, *case);
                assert(taken(start, *case) =~= taken(start, c1));
            }
        }
        tries = tries + 1;
        if tries == 1 {
            host.retried(base, func);
            assert(told_of_retry::<H>(*base, func));
        }
    }
    let ghost last = *case;
    assert(tried(us) && us.len() == MAX_FILTER_TRIES + 1);
    let e = case.mark_invalid();
    proof {
        if closed(*base) {
            assert(case.nodes@.take(last.nodes@.len() as int) =~= last.nodes@);
            Case::lemma_grown(start, last, *case);
        }
    }
    Err(DrawError::Stop(e))
}

/// How a filter, if it is not on a sample, comes to a value: values were drawn until one was
/// accepted, and if others were refused before, that was noted in the test case.
pub open spec fn sifting<H: Host>(
    before: Case,
    after: Case,
    node: StrategyNode,
    r: Result<Value, DrawError>,
) -> bool {
    match node {
        StrategyNode::Filtered { base, func } => r is Ok && closed(*base) && !is_short_sample(*base)
            ==> exists|us: Seq<Value>|
            {
                &&& #[trigger] tried(us)
                &&& sifted::<H>(func, us)
                &&& us.last() == r->Ok_0
                &&& spells_run::<H>(*base, false, taken(before, after), us)
                &&& us.len() > 1 ==> after.spans.has_discards
            },
        _ => true,
    }
}

/// Calls a target with drawn arguments.
fn draw_built<H: Host>(
    host: &mut H,
    case: &mut Case,
    node: &StrategyNode,
    budget: Budget,
) -> (r: Result<Value, DrawError>)
    requires
        old(case).wf(),
        node.ok(),
        node is Builds,
    ensures
        drew(*old(case), *final(case), closed(*node), r is Err && r->Err_0 is Stop),
        accounted::<H>(*old(case), *final(case), *node, r),
        r is Ok ==> gives::<H>(*node, r->Ok_0, budget),
        r is Err ==> stops_by::<H>(*node, *final(case), r->Err_0, budget),
        roomed::<H>(*old(case), *final(case), *node, r, budget),
    decreases budget.expanded, budget.deferred, node, 0int,
{
    let ghost start = *case;
    let (target, args, kwargs) = match node {
        StrategyNode::Builds { target, args, kwargs } => (*target, args, kwargs),
        _ => {
            return Err(DrawError::BadStrategy);
        },
    };
    let values = match draw_each(host, case, args, budget) {
        Ok(v) => v,
        Err(e) => {
            return Err(e);
        },
    };
    let ghost middle = *case;
    let ghost us = values@;
    let ghost mut ws: Seq<Value> = Seq::empty();
    let mut named: Vec<NamedValue> = Vec::new();
    let mut i: usize = 0;
    proof {
        assert(case.nodes@.take(case.nodes@.len() as int) =~= case.nodes@);
        lemma_nothing_taken(middle, *case);
    }
    while i < kwargs.len()
        invariant
            i <= kwargs.len(),
            start == *old(case),
            node is Builds,
            node.ok(),
            node->Builds_kwargs == *kwargs,
            case.wf(),
            closed(*node) ==> middle.grown_from(start) && case.grown_from(middle),
            closed(*node) ==> case.grown_from(start),
            closed(*node) ==> spells_named::<H>(kwargs@, taken(middle, *case), ws),
            contained::<H>(*node, budget) && start.replay.endless() ==> case.replay.endless(),
            ws.len() == i,
            named@.len() == i,
            ws == values_of(named@),
            forall|x: int|
                0 <= x < i ==> (#[trigger] named@[x]).name@ == kwargs@[x].name@ && gives::<H>(
                    kwargs@[x].node,
                    named@[x].value,
                    budget,
                ),
        decreases kwargs.len() - i,
    {
        let ghost before = *case;
        assert(kwargs@[i as int].node.ok());
        let drawn = draw_node(host, case, &kwargs[i].node, budget);
        proof {
            if closed(*node) {
                assert(closed(kwargs@[i as int].node));
                Case::lemma_grown(start, before, *case);
                Case::lemma_grown(middle, before, *case);
                if drawn is Ok {
                    lemma_named_step::<H>(kwargs@, middle, before, *case, ws, drawn->Ok_0);
                }
            }
            if drawn is Ok {
                ws = ws.push(drawn->Ok_0);
            }
        }
        match drawn {
            Ok(value) => {
                named.push(NamedValue { name: kwargs[i].name.clone(), value });
                assert(ws =~= values_of(named@));
            },
            Err(e) => {
                return Err(e);
            },
        }
        i = i + 1;
    }
    proof {
        if closed(*node) {
            let t = taken(start, *case);
            let k = taken(start, middle).len() as int;
            lemma_taken_joined(start, middle, *case);
            assert(t.take(k) =~= taken(start, middle));
            assert(t.skip(k) =~= taken(middle, *case));
            assert(cut(k));
        }
    }
    let ghost pos = values;
    let ghost kws = named;
    let answer = host.build(target, values, named);
    proof {
        if answer is Ok {
            assert(answer == Ok::<Value, Raised>(answer->Ok_0));
            assert(built::<H>(target, pos, kws, answer->Ok_0));
            assert forall|x: int| 0 <= x < args@.len() implies gives::<H>(
                #[trigger] args@[x],
                pos@[x],
                budget,
            ) by {
                assert(gives::<H>(args@[x], us[x], budget));
            }
            assert forall|x: int| 0 <= x < kwargs@.len() implies kws@[x].name@ == (
            #[trigger] kwargs@[x]).name@ && gives::<H>(kwargs@[x].node, kws@[x].value, budget) by {
                assert(kws@[x].name@ == kwargs@[x].name@);
            }
            assert(gives::<H>(*node, answer->Ok_0, budget));
            if closed(*node) {
                let t = taken(start, *case);
                let k = taken(start, middle).len() as int;
                assert(named_alike(kwargs@, kws@));
                assert(cut(k) && built::<H>(target, pos, kws, answer->Ok_0));
                assert(crate::reading::spells::<H>(*node, t, answer->Ok_0));
            }
        }
    }
    match answer {
        Ok(v) => Ok(v),
        Err(e) => {
            proof {
                assert(answer == Err::<Value, Raised>(e));
                assert(build_raised::<H>(target, pos, kws, e));
                assert forall|x: int| 0 <= x < args@.len() implies gives::<H>(
                    #[trigger] args@[x],
                    pos@[x],
                    budget,
                ) by {
                    assert(gives::<H>(args@[x], us[x], budget));
                }
                assert forall|x: int| 0 <= x < kwargs@.len() implies kws@[x].name@ == (
                #[trigger] kwargs@[x]).name@ && gives::<H>(
                    kwargs@[x].node,
                    kws@[x].value,
                    budget,
                ) by {
                    assert(kws@[x].name@ == kwargs@[x].name@);
                }
                assert(fails::<H>(*node, DrawError::Raised(e), budget));
            }
            Err(DrawError::Raised(e))
        },
    }
}

/// What the host gives or raises, as the result of a draw.
pub open spec fn as_drawn(answer: Result<Value, Raised>) -> Result<Value, DrawError> {
    match answer {
        Ok(v) => Ok(v),
        Err(e) => Err(DrawError::Raised(e)),
    }
}

/// Hands the test case to the host and takes it back: what the host's function makes of
/// the test case stays, and what it gives or raises is the result.
fn draw_by_host<H: Host>(
    host: &mut H,
    case: &mut Case,
    id: u64,
    composite: bool,
    budget: Budget,
) -> (r: Result<Value, DrawError>)
    requires
        old(case).wf(),
    ensures
        final(case).wf(),
        r is Err ==> r->Err_0 is Raised,
        r is Err && composite ==> composite_raised::<H>(id, r->Err_0->Raised_0, budget),
        r is Err && !composite ==> foreign_raised::<H>(id, r->Err_0->Raised_0, budget),
        r is Ok && composite ==> composed::<H>(id, r->Ok_0, budget),
        r is Ok && !composite ==> drawn_elsewhere::<H>(id, r->Ok_0, budget),
        composite ==> exists|
            h: &mut H,
            given: ConjectureData,
            back: ConjectureData,
            answer: Result<Value, Raised>,
        |
            {
                &&& #[trigger] call_ensures(H::composite, (h, id, budget, given), (back, answer))
                &&& *h == *old(host) && *final(h) == *final(host)
                &&& given.case() == *old(case) && back.case() == *final(case)
                &&& r == as_drawn(answer)
            },
        !composite ==> exists|
            h: &mut H,
            given: ConjectureData,
            back: ConjectureData,
            answer: Result<Value, Raised>,
        |
            {
                &&& #[trigger] call_ensures(H::foreign, (h, id, budget, given), (back, answer))
                &&& *h == *old(host) && *final(h) == *final(host)
                &&& given.case() == *old(case) && back.case() == *final(case)
                &&& r == as_drawn(answer)
            },
{
    let mut taken = Case::new(0, None, None, None);
    core::mem::swap(case, &mut taken);
    let sealed = ConjectureData::seal(taken);
    let (data, result) = if composite {
        host.composite(id, budget, sealed)
    } else {
        host.foreign(id, budget, sealed)
    };
    *case = data.unseal();
    match result {
        Ok(v) => Ok(v),
        Err(e) => Err(DrawError::Raised(e)),
    }
}

/// A value of a strategy in which functions of the user take part.
fn draw_with_host<H: Host>(
    host: &mut H,
    case: &mut Case,
    node: &StrategyNode,
    budget: Budget,
) -> (r: Result<Value, DrawError>)
    requires
        old(case).wf(),
        node.ok(),
        is_hosted(*node),
    ensures
        drew(*old(case), *final(case), closed(*node), r is Err && r->Err_0 is Stop),
        r is Ok ==> node is Mapped || node is Flatmapped || node is Builds || node is Composite
            || node is Deferred || node is Foreign || node is Functions || node is Randoms
            || node is Shared || (node is Filtered && conforms(*node, r->Ok_0)),
        accounted::<H>(*old(case), *final(case), *node, r),
        sifting::<H>(*old(case), *final(case), *node, r),
        r is Ok ==> gives::<H>(*node, r->Ok_0, budget),
        r is Err ==> stops_by::<H>(*node, *final(case), r->Err_0, budget),
        roomed::<H>(*old(case), *final(case), *node, r, budget),
    decreases budget.expanded, budget.deferred, node, 1int,
{
    let ghost start = *case;
    proof {
        assert(case.nodes@.take(case.nodes@.len() as int) =~= case.nodes@);
        lemma_nothing_taken(start, *case);
    }
    match node {
        StrategyNode::Mapped { base, func } => match draw_node(host, case, base, budget) {
            Ok(v) => {
                let ghost u = v;
                let answer = host.apply(*func, v);
                match answer {
                    Ok(w) => {
                        assert(answer == Ok::<Value, Raised>(w));
                        assert(applied::<H>(*func, u, w));
                        Ok(w)
                    },
                    Err(e) => {
                        assert(answer == Err::<Value, Raised>(e));
                        assert(apply_raised::<H>(*func, u, e));
                        Err(DrawError::Raised(e))
                    },
                }
            },
            Err(e) => Err(e),
        },
        StrategyNode::Filtered { base, func } => draw_filtered(host, case, base, *func, budget),
        StrategyNode::Flatmapped { base, func } => {
            let v = match draw_node(host, case, base, budget) {
                Ok(v) => v,
                Err(e) => {
                    return Err(e);
                },
            };
            let ghost u = v;
            let answer = host.expand(*func, v);
            let next = match answer {
                Ok(n) => n,
                Err(e) => {
                    assert(answer == Err::<StrategyNode, Raised>(e));
                    assert(expand_raised::<H>(*func, u, e));
                    return Err(DrawError::Raised(e));
                },
            };
            assert(answer == Ok::<StrategyNode, Raised>(next));
            assert(expanded::<H>(*func, u, next));
            if budget.expanded == 0 {
                return Err(DrawError::Stop(case.mark_invalid()));
            }
            if !next.check() {
                return Err(DrawError::BadStrategy);
            }
            let rest = Budget { deferred: budget.deferred, expanded: budget.expanded - 1 };
            draw_node(host, case, &next, rest)
        },
        StrategyNode::Deferred { thunk } => {
            let answer = host.resolve(*thunk);
            let next = match answer {
                Ok(n) => n,
                Err(e) => {
                    assert(answer == Err::<StrategyNode, Raised>(e));
                    assert(resolve_raised::<H>(*thunk, e));
                    return Err(DrawError::Raised(e));
                },
            };
            assert(answer == Ok::<StrategyNode, Raised>(next));
            assert(turned_out::<H>(*thunk, next));
            if let StrategyNode::Deferred { thunk: inner } = &next {
                if *inner == *thunk {
                    return Err(DrawError::DeferredToItself);
                }
            }
            if budget.deferred == 0 {
                return Err(DrawError::Stop(case.mark_invalid()));
            }
            if !next.check() {
                return Err(DrawError::BadStrategy);
            }
            let rest = Budget { deferred: budget.deferred - 1, expanded: budget.expanded };
            draw_node(host, case, &next, rest)
        },
        StrategyNode::Builds { .. } => draw_built(host, case, node, budget),
        StrategyNode::Composite { func } => draw_by_host(host, case, *func, true, budget),
        StrategyNode::Foreign { id } => draw_by_host(host, case, *id, false, budget),
        StrategyNode::Functions { id, result, pure } => {
            let answer = host.function(*id, result, *pure);
            match answer {
                Ok(v) => {
                    assert(answer == Ok::<Value, Raised>(v));
                    assert(made_function::<H>(*id, **result, *pure, v));
                    Ok(v)
                },
                Err(e) => {
                    assert(answer == Err::<Value, Raised>(e));
                    assert(function_raised::<H>(*id, **result, *pure, e));
                    Err(DrawError::Raised(e))
                },
            }
        },
        StrategyNode::Randoms { use_true_random, note_method_calls } => {
            let answer = host.random(*use_true_random, *note_method_calls);
            match answer {
                Ok(v) => {
                    assert(answer == Ok::<Value, Raised>(v));
                    assert(made_random::<H>(*use_true_random, *note_method_calls, v));
                    Ok(v)
                },
                Err(e) => {
                    assert(answer == Err::<Value, Raised>(e));
                    assert(random_raised::<H>(*use_true_random, *note_method_calls, e));
                    Err(DrawError::Raised(e))
                },
            }
        },
        StrategyNode::Shared { base, key, .. } => {
            let before = host.shared(key);
            if let Some(v) = before {
                assert(before == Some(v));
                assert(shared_before::<H>(*key, v));
                return Ok(v);
            }
            match draw_node(host, case, base, budget) {
                Ok(v) => {
                    host.keep_shared(key, &v);
                    assert(shared_now::<H>(*key, v));
                    Ok(v)
                },
                Err(e) => Err(e),
            }
        },
        _ => Err(DrawError::BadStrategy),
    }
}

/// Draws a value from a strategy.
pub fn draw_node<H: Host>(host: &mut H, case: &mut Case, node: &StrategyNode, budget: Budget) -> (r:
    Result<Value, DrawError>)
    requires
        old(case).wf(),
        node.ok(),
    ensures
        drew(*old(case), *final(case), closed(*node), r is Err && r->Err_0 is Stop),
        r is Ok ==> conforms(*node, r->Ok_0),
        simple_draw(*old(case), *final(case), *node, r),
        accounted::<H>(*old(case), *final(case), *node, r),
        by_chance::<H>(*old(case), *final(case), *node, r),
        sifting::<H>(*old(case), *final(case), *node, r),
        r is Ok ==> gives::<H>(*node, r->Ok_0, budget),
        r is Err ==> stops_by::<H>(*node, *final(case), r->Err_0, budget),
        roomed::<H>(*old(case), *final(case), *node, r, budget),
    decreases budget.expanded, budget.deferred, node, 2int,
{
    match node {
        StrategyNode::Integers { .. } => draw_number(host, case, node),
        StrategyNode::Booleans => draw_number(host, case, node),
        StrategyNode::Floats { .. } => draw_number(host, case, node),
        StrategyNode::SampledFrom { .. } => draw_number(host, case, node),
        StrategyNode::SampledFromRange { .. } => draw_number(host, case, node),
        StrategyNode::NoneVal => draw_plain(host, case, node),
        StrategyNode::Just(_) => draw_plain(host, case, node),
        StrategyNode::Nothing => draw_plain(host, case, node),
        StrategyNode::Text { .. } => draw_plain(host, case, node),
        StrategyNode::Characters { .. } => draw_plain(host, case, node),
        StrategyNode::Binary { .. } => draw_plain(host, case, node),
        StrategyNode::Data => draw_plain(host, case, node),
        StrategyNode::Invalid { .. } => draw_plain(host, case, node),
        StrategyNode::Dates { .. } => draw_moment(host, case, node),
        StrategyNode::Times { .. } => draw_moment(host, case, node),
        StrategyNode::Datetimes { .. } => draw_moment(host, case, node),
        StrategyNode::Timedeltas { .. } => draw_moment(host, case, node),
        StrategyNode::Uuids { .. } => draw_special(host, case, node),
        StrategyNode::Permutations(_) => draw_special(host, case, node),
        StrategyNode::ComplexNumbers { .. } => draw_special(host, case, node),
        StrategyNode::IpAddresses { .. } => draw_special(host, case, node),
        StrategyNode::Slices { .. } => draw_special(host, case, node),
        StrategyNode::Fractions { .. } => draw_special(host, case, node),
        StrategyNode::Decimals { .. } => draw_special(host, case, node),
        StrategyNode::OneOf(_) => draw_collection(host, case, node, budget),
        StrategyNode::Tuples(_) => draw_collection(host, case, node, budget),
        StrategyNode::Lists { .. } => draw_collection(host, case, node, budget),
        StrategyNode::Sets { .. } => draw_collection(host, case, node, budget),
        StrategyNode::Dictionaries { .. } => draw_entries(host, case, node, budget),
        StrategyNode::FixedDict { .. } => draw_fixed(host, case, node, budget),
        _ => draw_with_host(host, case, node, budget),
    }
}

// ---- draws in a span --------------------------------------------------------

/// `after` is `before` with a span opened.
pub open spec fn span_opened(before: Case, after: Case, label: u64) -> bool {
    &&& after.wf()
    &&& after.same_but_spans(before)
    &&& after.spans.open == before.spans.open + 1
    &&& after.spans.trail@ == before.spans.trail@.push(
        Trail::Start(label_number(before.spans.labels@, label) as usize),
    )
}

/// `after` is `before` with its innermost span ended, unless it was over.
pub open spec fn span_ended(before: Case, after: Case) -> bool {
    &&& after.wf()
    &&& after.same_but_spans(before)
    &&& before.frozen || before.spans.open == 0 ==> after == before
    &&& !before.frozen && before.spans.open > 0 ==> after.spans.open == before.spans.open - 1
        && after.spans.trail@ == before.spans.trail@.push(Trail::Stop { discard: false })
}

/// A value was drawn between the start and the end of a span.
pub open spec fn drawn_between<H: Host>(
    before: Case,
    opened: Case,
    drawn: Case,
    after: Case,
    node: StrategyNode,
    label: u64,
    budget: Budget,
    r: Result<Value, DrawError>,
) -> bool {
    &&& span_opened(before, opened, label)
    &&& drew(opened, drawn, closed(node), r is Err && r->Err_0 is Stop)
    &&& simple_draw(opened, drawn, node, r)
    &&& accounted::<H>(opened, drawn, node, r)
    &&& sifting::<H>(opened, drawn, node, r)
    &&& by_chance::<H>(opened, drawn, node, r)
    &&& r is Err ==> stops_by::<H>(node, drawn, r->Err_0, budget)
    &&& roomed::<H>(opened, drawn, node, r, budget)
    &&& span_ended(drawn, after)
}

/// Draws a value from a strategy in a span of its own. A strategy whose bounds or sizes
/// make no sense is refused.
pub fn draw_in_span<H: Host>(
    host: &mut H,
    data: ConjectureData,
    node: &StrategyNode,
    label: u64,
    budget: Budget,
) -> (r: (ConjectureData, Result<Value, DrawError>))
    ensures
        !node.ok() ==> r.0 == data && r.1 is Err && r.1->Err_0 is BadStrategy,
        r.1 is Ok ==> conforms(*node, r.1->Ok_0),
        r.1 is Ok ==> gives::<H>(*node, r.1->Ok_0, budget),
        node.ok() ==> exists|opened: Case, drawn: Case| #[trigger]
            drawn_between::<H>(data.case(), opened, drawn, r.0.case(), *node, label, budget, r.1),
{
    if !node.check() {
        return (data, Err(DrawError::BadStrategy));
    }
    let mut case = data.unseal();
    let ghost before = case;
    case.open_span(label);
    let ghost opened = case;
    let outcome = draw_node(host, &mut case, node, budget);
    let ghost drawn = case;
    case.stop_span(false);
    proof {
        assert(drawn_between::<H>(before, opened, drawn, case, *node, label, budget, outcome));
    }
    (ConjectureData::seal(case), outcome)
}

} // verus!
