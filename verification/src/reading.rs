//! How choices spell values.
//!
//! The choices that are recorded while a value is drawn say what the value is.
use crate::choice::ChoiceModel;
use crate::data::{integer_ruled, rule_from, Case, PrefixEntry, Rule};
use crate::drawing::{
    atoms_of, closed, conforms, decimal_unit, is_sample, is_short_sample, laid_down, simple_draw, DrawError,
    Entry, Host, NamedValue, Value,
};
use crate::hosting::{
    applied, built, distinct, distinct_keys, kept_new, kept_new_keys,
    kept_unique, made_function, made_random, narrowed,
    shared_before, shared_now, sifted, spells_sample, unique,
};
use crate::floats::FloatBounds;
use crate::integer::Int;
use crate::ordering::{bound, within, BUFFER_SIZE};
use crate::strategy::{
    effective_bounds, Atom, FixedItem, NamedNode, StrategyNode, US_PER_DAY,
};
use vstd::arithmetic::power::pow;
use vstd::prelude::*;

verus! {

/// The choices recorded between two states of a test case.
pub open spec fn taken(before: Case, after: Case) -> Seq<ChoiceModel> {
    Seq::new(
        (after.nodes@.len() - before.nodes@.len()) as nat,
        |i: int| after.nodes@[before.nodes@.len() + i].value@,
    )
}

pub(crate) proof fn lemma_nothing_taken(a: Case, b: Case)
    requires
        a.nodes@ == b.nodes@,
    ensures
        taken(a, b) == Seq::<ChoiceModel>::empty(),
{
    assert(taken(a, b) =~= Seq::<ChoiceModel>::empty());
}

pub(crate) proof fn lemma_one_taken(a: Case, b: Case, v: ChoiceModel)
    requires
        b.just_drew(a, v),
    ensures
        taken(a, b) == seq![v],
{
    assert(taken(a, b) =~= seq![v]);
}

pub(crate) proof fn lemma_taken_joined(a: Case, b: Case, c: Case)
    requires
        b.grown_from(a),
        c.grown_from(b),
    ensures
        taken(a, c) == taken(a, b) + taken(b, c),
{
    assert forall|i: int| 0 <= i < taken(a, b).len() implies taken(a, c)[i] == #[trigger] taken(
        a,
        b,
    )[i] by {
        let at = a.nodes@.len() + i;
        assert(b.nodes@[at] == c.nodes@.take(b.nodes@.len() as int)[at]);
    }
    assert(taken(a, c) =~= taken(a, b) + taken(b, c));
}

pub(crate) proof fn lemma_next_taken(a: Case, b: Case, c: Case, v: ChoiceModel)
    requires
        b.grown_from(a),
        c.grown_from(b),
        c.just_drew(b, v),
    ensures
        taken(a, c) == taken(a, b).push(v),
{
    lemma_taken_joined(a, b, c);
    lemma_one_taken(b, c, v);
    assert(taken(a, c) =~= taken(a, b).push(v));
}

// ---- parts ------------------------------------------------------------------

/// `vs` are some of `us`, in their order.
pub open spec fn kept_of<T>(vs: Seq<T>, us: Seq<T>) -> bool
    decreases us.len(),
{
    if us.len() == 0 {
        vs.len() == 0
    } else {
        ||| kept_of(vs, us.drop_last())
        ||| vs.len() > 0 && vs.last() == us.last() && kept_of(vs.drop_last(), us.drop_last())
    }
}

pub(crate) proof fn lemma_kept<T>(vs: Seq<T>, us: Seq<T>, v: T)
    requires
        kept_of(vs, us),
    ensures
        kept_of(vs.push(v), us.push(v)),
        kept_of(vs, us.push(v)),
{
    assert(us.push(v).drop_last() =~= us);
    assert(vs.push(v).drop_last() =~= vs);
}

/// One end of a slice: whether it is open, and else where it is.
pub open spec fn end_choices(end: Option<i64>) -> Seq<ChoiceModel> {
    match end {
        None => seq![ChoiceModel::Boolean(true)],
        Some(n) => seq![ChoiceModel::Boolean(false), ChoiceModel::Integer(n as int)],
    }
}

/// An end of a slice, counted from the back if that is asked for.
pub open spec fn shifted(end: Option<i64>, back: bool, size: int) -> Option<int> {
    match end {
        None => None,
        Some(n) => Some(
            if back {
                n - size
            } else {
                n as int
            },
        ),
    }
}

/// What was chosen for a slice.
pub struct SliceChoices {
    pub start: Option<i64>,
    pub stop: Option<i64>,
    pub step: int,
    pub backwards: bool,
    pub start_from_back: bool,
    pub stop_from_back: bool,
    pub explicit: bool,
}

impl SliceChoices {
    pub open spec fn choices(self) -> Seq<ChoiceModel> {
        end_choices(self.start) + end_choices(self.stop) + seq![
            ChoiceModel::Integer(self.step),
            ChoiceModel::Boolean(self.backwards),
            ChoiceModel::Boolean(self.start_from_back),
            ChoiceModel::Boolean(self.stop_from_back),
            ChoiceModel::Boolean(self.explicit),
        ]
    }

    /// The step with its direction.
    pub open spec fn stride(self) -> int {
        let a = match self.start {
            Some(n) => n as int,
            None => 0,
        };
        let b = match self.stop {
            Some(n) => n as int,
            None => 0,
        };
        if (self.backwards && self.start == self.stop) || b < a {
            -self.step
        } else {
            self.step
        }
    }

    /// `v` is the slice that was chosen.
    pub open spec fn gives(self, size: int, v: Value) -> bool {
        &&& v is Slice
        &&& (match v->start {
            Some(n) => Some(n as int),
            None => None,
        }) == shifted(self.start, self.start_from_back, size)
        &&& (match v->stop {
            Some(n) => Some(n as int),
            None => None,
        }) == shifted(self.stop, self.stop_from_back, size)
        &&& v->step is None <==> !self.explicit && self.stride() == 1
        &&& v->step is Some ==> v->step->0@ == self.stride()
    }
}

/// The choices spell a slice of something of a size.
pub open spec fn spells_slice(size: int, t: Seq<ChoiceModel>, v: Value) -> bool {
    if size == 0 {
        &&& v is Slice && v->start is None && v->stop is None
        &&& t.len() > 0 && t[0] == ChoiceModel::Boolean(v->step is Some)
        &&& v->step is None ==> t.len() == 1
        &&& v->step is Some ==> t.len() == 2 && t[1] is Integer && v->step->0@ == (
        if t[1]->Integer_0 == 0 {
            1
        } else {
            t[1]->Integer_0
        })
    } else {
        exists|c: SliceChoices| t == c.choices() && #[trigger] c.gives(size, v)
    }
}

/// Two elements change places.
pub open spec fn swapped(s: Seq<Atom>, i: int, j: int) -> Seq<Atom> {
    s.update(i, s[j]).update(j, s[i])
}

/// The elements after the first `n` of them have changed places with the chosen ones.
pub open spec fn shuffled(s: Seq<Atom>, t: Seq<ChoiceModel>, n: nat) -> Seq<Atom>
    decreases n,
{
    if n == 0 {
        s
    } else {
        swapped(shuffled(s, t, (n - 1) as nat), n - 1, t[n - 1]->Integer_0)
    }
}

/// The choices spell an order of the elements.
pub open spec fn spells_order(s: Seq<Atom>, t: Seq<ChoiceModel>, vs: Seq<Value>) -> bool {
    &&& t.len() == (if s.len() == 0 {
        0
    } else {
        s.len() - 1
    })
    &&& forall|i: int|
        0 <= i < t.len() ==> (#[trigger] t[i]) is Integer && i <= t[i]->Integer_0 < s.len()
    &&& forall|i: int| 0 <= i < vs.len() ==> (#[trigger] vs[i]) is Atom
    &&& atoms_of(vs) == shuffled(s, t, t.len())
}

/// What is left when the element at a place is replaced by the last one.
pub open spec fn without(s: Seq<Atom>, j: int) -> Seq<Atom> {
    s.update(j, s.last()).drop_last()
}

/// What is left of a domain once elements were taken out at the places.
pub open spec fn left_of(domain: Seq<Atom>, places: Seq<int>) -> Seq<Atom>
    decreases places.len(),
{
    if places.len() == 0 {
        domain
    } else {
        without(left_of(domain, places.drop_last()), places.last())
    }
}

/// What was taken out of a domain at the places.
pub open spec fn picked(domain: Seq<Atom>, places: Seq<int>) -> Seq<Value>
    decreases places.len(),
{
    if places.len() == 0 {
        Seq::empty()
    } else {
        picked(domain, places.drop_last()).push(
            Value::Atom(left_of(domain, places.drop_last())[places.last()]),
        )
    }
}

/// The choices for the places, each behind the choice to go on where that is open.
pub open spec fn place_choices(places: Seq<int>, marked: bool) -> Seq<ChoiceModel>
    decreases places.len(),
{
    if places.len() == 0 {
        Seq::empty()
    } else if marked {
        place_choices(places.drop_last(), marked).push(ChoiceModel::Boolean(true)).push(
            ChoiceModel::Integer(places.last()),
        )
    } else {
        place_choices(places.drop_last(), marked).push(ChoiceModel::Integer(places.last()))
    }
}

/// The choices take elements out of a domain at the places, until they stop or nothing
/// is left.
pub open spec fn spells_places(
    domain: Seq<Atom>,
    places: Seq<int>,
    marked: bool,
    t: Seq<ChoiceModel>,
) -> bool {
    &&& places.len() <= domain.len()
    &&& forall|i: int|
        0 <= i < places.len() ==> 0 <= (#[trigger] places[i]) < domain.len() - i
    &&& t == place_choices(places, marked) + (if marked && places.len() < domain.len() {
        seq![ChoiceModel::Boolean(false)]
    } else {
        Seq::empty()
    })
}

// ---- values -----------------------------------------------------------------

/// Marks the place where choices are cut in two.
pub open spec fn cut(k: int) -> bool {
    true
}

/// Marks the places where elements were taken out.
pub open spec fn at_places(places: Seq<int>) -> bool {
    true
}

/// The values of named arguments.
pub open spec fn values_of(ws: Seq<NamedValue>) -> Seq<Value> {
    ws.map_values(|w: NamedValue| w.value)
}

/// Named arguments have the names of these.
pub open spec fn named_alike(c: Seq<NamedNode>, ws: Seq<NamedValue>) -> bool {
    forall|i: int| 0 <= i < ws.len() && i < c.len() ==> (#[trigger] ws[i]).name@ == c[i].name@
}

/// Marks values that were drawn on the way.
pub open spec fn tried(us: Seq<Value>) -> bool {
    true
}

/// Marks entries that were drawn on the way.
pub open spec fn tried_entries(us: Seq<Entry>) -> bool {
    true
}

/// The choices spell the value of a strategy.
pub open spec fn spells<H: Host>(node: StrategyNode, t: Seq<ChoiceModel>, v: Value) -> bool
    decreases node, 3int, 0nat,
{
    match node {
        StrategyNode::NoneVal => t.len() == 0 && v == Value::Atom(Atom::Nil),
        StrategyNode::Just(a) => t.len() == 0 && v == Value::Atom(a),
        StrategyNode::Data => t.len() == 0 && v is Data,
        StrategyNode::Integers { .. } => v is Int && t == seq![
            ChoiceModel::Integer(v->Int_0@),
        ],
        StrategyNode::Booleans => v is Bool && t == seq![ChoiceModel::Boolean(v->Bool_0)],
        StrategyNode::Floats { min, max, allow_nan, allow_inf, snm, width } => {
            let (low, high) = effective_bounds(min, max, allow_inf, width);
            let bounds = FloatBounds {
                min_value: low,
                max_value: high,
                allow_nan,
                smallest_nonzero_magnitude: snm,
            };
            &&& v is Float
            &&& t.len() == 1 && t[0] is Float
            &&& width == 64 ==> t == seq![ChoiceModel::Float(v->Float_0)]
            &&& width != 64 ==> narrowed::<H>(t[0]->Float_0, width, bounds, v->Float_0)
        },
        StrategyNode::SampledFrom { .. } => t.len() == 1 && t[0] is Integer && is_sample(
            node,
            t[0]->Integer_0,
            v,
        ),
        StrategyNode::SampledFromRange { .. } => t.len() == 1 && t[0] is Integer && is_sample(
            node,
            t[0]->Integer_0,
            v,
        ),
        StrategyNode::Text { .. } => v is Text && t == seq![ChoiceModel::Text(v->Text_0@)],
        StrategyNode::Characters { .. } => v is Text && t == seq![ChoiceModel::Text(v->Text_0@)],
        StrategyNode::Binary { .. } => v is Bytes && t == seq![ChoiceModel::Bytes(v->Bytes_0@)],
        StrategyNode::Dates { .. } => v is Date && t == seq![
            ChoiceModel::Integer(v->Date_ordinal as int),
        ],
        StrategyNode::Times { .. } => v is Time && t == seq![
            ChoiceModel::Integer(v->Time_us as int),
            ChoiceModel::Boolean(v->Time_fold),
        ],
        StrategyNode::Datetimes { .. } => v is Datetime && t == seq![
            ChoiceModel::Integer(v->Datetime_ordinal as int),
            ChoiceModel::Integer(v->Datetime_us as int),
            ChoiceModel::Boolean(v->Datetime_fold),
        ],
        StrategyNode::Timedeltas { .. } => v is Timedelta && t == seq![
            ChoiceModel::Integer(v->days@),
            ChoiceModel::Integer(v->microseconds@),
        ],
        StrategyNode::Uuids { version, .. } => v is Uuid && v->version == version && t == seq![
            ChoiceModel::Integer(v->Uuid_number@),
        ],
        StrategyNode::ComplexNumbers { .. } => v is Complex && t == seq![
            ChoiceModel::Float(v->re),
            ChoiceModel::Float(v->im),
        ],
        StrategyNode::IpAddresses { v6, .. } => v is Ip && (v6 is Some ==> v->v6 == v6->0) && t == (
        if v6 is Some {
            seq![ChoiceModel::Integer(v->Ip_number@)]
        } else {
            seq![ChoiceModel::Boolean(v->v6), ChoiceModel::Integer(v->Ip_number@)]
        }),
        StrategyNode::Fractions { .. } => v is Fraction && t == seq![
            ChoiceModel::Integer(v->Fraction_den@),
            ChoiceModel::Integer(v->Fraction_num@),
        ],
        StrategyNode::Decimals { places, .. } => v is Decimal && v->Decimal_den@ == decimal_unit(
            places,
        ) && t == seq![
            ChoiceModel::Integer(v->Decimal_num@),
        ],
        StrategyNode::Slices { size } => spells_slice(size as int, t, v),
        StrategyNode::Permutations(values) => v is List && spells_order(values@, t, v->List_0@),
        StrategyNode::OneOf(children) => t.len() > 0 && exists|i: int|
            #[trigger] cut(i) && 0 <= i < children@.len() && t[0] == ChoiceModel::Integer(i)
                && spells::<H>(children@[i], t.skip(1), v),
        StrategyNode::Tuples(children) => v is Tuple && v->Tuple_0@.len() == children@.len()
            && spells_each::<H>(children@, t, v->Tuple_0@),
        StrategyNode::FixedDict { items } => v is Dict && v->Dict_0@.len() == items@.len()
            && spells_items::<H>(items@, t, v->Dict_0@),
        StrategyNode::Lists { elem, min, max, unique_by, swap_domain } => v is List
            && match swap_domain {
            Some(domain) => exists|places: Seq<int>| #[trigger]
                at_places(places) && spells_places(domain@, places, min != max, t) && kept_of(
                    v->List_0@,
                    picked(domain@, places),
                ) && distinct::<H>(v->List_0@) && kept_new::<H>(
                    picked(domain@, places),
                    v->List_0@,
                ),
            None => exists|us: Seq<Value>|
                {
                    &&& #[trigger] tried(us)
                    &&& kept_of(v->List_0@, us)
                    &&& unique_by@.len() == 0 ==> us == v->List_0@
                    &&& unique::<H>(unique_by@, v->List_0@)
                    &&& kept_unique::<H>(unique_by@, us, v->List_0@)
                    &&& min <= v->List_0@.len() <= max
                    &&& spells_collection::<H>(*elem, min != max, t, us)
                },
        },
        StrategyNode::Sets { elem, min, max, .. } => v is Collection && distinct::<H>(
            v->items@,
        ) && exists|us: Seq<Value>|
            #[trigger] tried(us) && kept_of(v->items@, us) && kept_new::<H>(
                us,
                v->items@,
            ) && spells_collection::<H>(
                *elem,
                min != max,
                t,
                us,
            ),
        StrategyNode::Dictionaries { min, max, .. } => v is Dict && distinct_keys::<H>(
            v->Dict_0@,
        ) && exists|es: Seq<Entry>|
            {
                &&& #[trigger] tried_entries(es)
                &&& kept_of(v->Dict_0@, es)
                &&& kept_new_keys::<H>(es, v->Dict_0@)
                &&& min == max ==> spells_pairs::<H>(node, t, es)
                &&& min != max ==> t.len() > 0 && t.last() == ChoiceModel::Boolean(false)
                    && spells_pairs::<H>(node, t.drop_last(), es)
            },
        StrategyNode::Mapped { base, func } => exists|u: Value| #[trigger]
            applied::<H>(func, u, v) && spells::<H>(*base, t, u),
        StrategyNode::Filtered { base, func } => if is_short_sample(*base) {
            spells_sample::<H>(*base, func, t, v)
        } else {
            exists|us: Seq<Value>|
                {
                    &&& #[trigger] tried(us)
                    &&& sifted::<H>(func, us)
                    &&& us.last() == v
                    &&& spells_run::<H>(*base, false, t, us)
                }
        },
        StrategyNode::Builds { target, args, kwargs } => exists|
            k: int,
            us: Vec<Value>,
            ws: Vec<NamedValue>,
        |
            {
                &&& #[trigger] cut(k) && #[trigger] built::<H>(target, us, ws, v)
                &&& 0 <= k <= t.len()
                &&& us@.len() == args@.len() && spells_each::<H>(args@, t.take(k), us@)
                &&& ws@.len() == kwargs@.len() && named_alike(kwargs@, ws@) && spells_named::<H>(
                    kwargs@,
                    t.skip(k),
                    values_of(ws@),
                )
            },
        StrategyNode::Shared { base, key, .. } => {
            ||| t.len() == 0 && shared_before::<H>(key, v)
            ||| spells::<H>(*base, t, v) && shared_now::<H>(key, v)
        },
        StrategyNode::Functions { id, result, pure } => t.len() == 0 && made_function::<H>(
            id,
            *result,
            pure,
            v,
        ),
        StrategyNode::Randoms { use_true_random, note_method_calls } => t.len() == 0
            && made_random::<H>(use_true_random, note_method_calls, v),
        StrategyNode::Nothing => false,
        StrategyNode::Invalid { .. } => false,
        _ => true,
    }
}

/// The choices spell values of the first strategies, one after the other.
pub open spec fn spells_each<H: Host>(c: Seq<StrategyNode>, t: Seq<ChoiceModel>, vs: Seq<Value>) -> bool
    decreases c, 0int, vs.len(),
{
    if vs.len() == 0 {
        t.len() == 0
    } else {
        vs.len() <= c.len() && exists|k: int|
            #[trigger] cut(k) && 0 <= k <= t.len() && spells_each::<H>(c, t.take(k), vs.drop_last())
                && spells::<H>(c[vs.len() - 1], t.skip(k), vs.last())
    }
}

/// The choices spell values of the first arguments, one after the other.
pub open spec fn spells_named<H: Host>(c: Seq<NamedNode>, t: Seq<ChoiceModel>, vs: Seq<Value>) -> bool
    decreases c, 0int, vs.len(),
{
    if vs.len() == 0 {
        t.len() == 0
    } else {
        vs.len() <= c.len() && exists|k: int|
            #[trigger] cut(k) && 0 <= k <= t.len() && spells_named::<H>(c, t.take(k), vs.drop_last())
                && spells::<H>(c[vs.len() - 1].node, t.skip(k), vs.last())
    }
}

/// The choices spell the values of the first items, one after the other.
pub open spec fn spells_items<H: Host>(c: Seq<FixedItem>, t: Seq<ChoiceModel>, es: Seq<Entry>) -> bool
    decreases c, 0int, es.len(),
{
    if es.len() == 0 {
        t.len() == 0
    } else {
        es.len() <= c.len() && es.last().key == Value::Atom(c[es.len() - 1].key) && exists|k: int|
            #[trigger] cut(k) && 0 <= k <= t.len() && spells_items::<H>(c, t.take(k), es.drop_last())
                && spells::<H>(c[es.len() - 1].value, t.skip(k), es.last().value)
    }
}

/// The choices spell values of one strategy, one after the other, each behind the choice
/// to go on where that is open.
pub open spec fn spells_run<H: Host>(
    elem: StrategyNode,
    marked: bool,
    t: Seq<ChoiceModel>,
    us: Seq<Value>,
) -> bool
    decreases elem, 4int, us.len(),
{
    if us.len() == 0 {
        t.len() == 0
    } else {
        exists|k: int|
            {
                &&& #[trigger] cut(k) && 0 <= k <= t.len()
                &&& spells_run::<H>(elem, marked, t.take(k), us.drop_last())
                &&& marked ==> k < t.len() && t[k] == ChoiceModel::Boolean(true) && spells::<H>(
                    elem,
                    t.skip(k + 1),
                    us.last(),
                )
                &&& !marked ==> spells::<H>(elem, t.skip(k), us.last())
            }
    }
}

/// The choices spell values of one strategy, and that there are no more of them where
/// that is open.
pub open spec fn spells_collection<H: Host>(
    elem: StrategyNode,
    marked: bool,
    t: Seq<ChoiceModel>,
    us: Seq<Value>,
) -> bool
    decreases elem, 5int, 0nat,
{
    if marked {
        t.len() > 0 && t.last() == ChoiceModel::Boolean(false) && spells_run::<H>(
            elem,
            true,
            t.drop_last(),
            us,
        )
    } else {
        spells_run::<H>(elem, false, t, us)
    }
}

/// The choices spell entries of a dictionary, one after the other, each behind the choice
/// to go on where that is open.
pub open spec fn spells_pairs<H: Host>(node: StrategyNode, t: Seq<ChoiceModel>, es: Seq<Entry>) -> bool
    decreases node, 2int, es.len(),
{
    if es.len() == 0 {
        t.len() == 0
    } else {
        match node {
            StrategyNode::Dictionaries { keys, values, min, max } => exists|k: int, m: int|
                {
                    let from: int = if min != max {
                        k + 1
                    } else {
                        k
                    };
                    &&& #[trigger] cut(k) && #[trigger] cut(m)
                    &&& 0 <= k && from <= m <= t.len()
                    &&& spells_pairs::<H>(node, t.take(k), es.drop_last())
                    &&& min != max ==> t[k] == ChoiceModel::Boolean(true)
                    &&& spells::<H>(*keys, t.subrange(from, m), es.last().key)
                    &&& spells::<H>(*values, t.skip(m), es.last().value)
                },
            _ => false,
        }
    }
}

// ---- certainty --------------------------------------------------------------

/// A strategy that gives a value whenever there is room for the choices.
pub open spec fn certain(node: StrategyNode) -> bool
    decreases node,
{
    match node {
        StrategyNode::NoneVal => true,
        StrategyNode::Just(_) => true,
        StrategyNode::Data => true,
        StrategyNode::Integers { .. } => true,
        StrategyNode::Booleans => true,
        StrategyNode::Floats { .. } => true,
        StrategyNode::SampledFrom { elements, .. } => elements@.len() > 0,
        StrategyNode::SampledFromRange { len, .. } => len@ > 0,
        StrategyNode::Text { min, .. } => min < BUFFER_SIZE,
        StrategyNode::Characters { .. } => true,
        StrategyNode::Binary { min, .. } => min < BUFFER_SIZE,
        StrategyNode::Dates { .. } => true,
        StrategyNode::Times { .. } => true,
        StrategyNode::Datetimes { .. } => true,
        StrategyNode::Timedeltas { .. } => true,
        StrategyNode::Uuids { .. } => true,
        StrategyNode::ComplexNumbers { .. } => true,
        StrategyNode::IpAddresses { .. } => true,
        StrategyNode::Slices { .. } => true,
        StrategyNode::Permutations(_) => true,
        StrategyNode::Fractions { min, max, .. } => min is None || max is None,
        StrategyNode::Decimals { min, max, .. } => min is None || max is None,
        StrategyNode::OneOf(children) => children@.len() > 0 && forall|i: int|
            0 <= i < children@.len() ==> certain(#[trigger] children@[i]),
        StrategyNode::Tuples(children) => forall|i: int|
            0 <= i < children@.len() ==> certain(#[trigger] children@[i]),
        StrategyNode::FixedDict { items } => forall|i: int|
            0 <= i < items@.len() ==> certain((#[trigger] items@[i]).value),
        StrategyNode::Lists { elem, unique_by, swap_domain, .. } => swap_domain is None
            && unique_by@.len() == 0 && certain(*elem),
        _ => false,
    }
}

/// Nothing was drawn, and there is no room left.
pub open spec fn ran_out(after: Case, e: DrawError) -> bool {
    e is Stop && after.overran() && after.full()
}

/// An integer choice between two bounds.
pub open spec fn integer_between(c: ChoiceModel, low: int, high: int) -> bool {
    c is Integer && low <= c->Integer_0 <= high
}

/// The choices are those that a value of the strategy begins with: what was recorded when a
/// draw from it ended for want of room.
pub open spec fn begun<H: Host>(node: StrategyNode, t: Seq<ChoiceModel>) -> bool
    decreases node,
{
    match node {
        StrategyNode::NoneVal => t.len() == 0,
        StrategyNode::Just(_) => t.len() == 0,
        StrategyNode::Data => t.len() == 0,
        StrategyNode::Integers { min, max } => t.len() <= 1 && (t.len() > 0 ==> t[0] is Integer
            && within(t[0]->Integer_0, bound(min), bound(max))),
        StrategyNode::Booleans => t.len() <= 1 && (t.len() > 0 ==> t[0] is Boolean),
        StrategyNode::Floats { .. } => t.len() <= 1 && (t.len() > 0 ==> t[0] is Float),
        StrategyNode::SampledFrom { elements, .. } => t.len() <= 1 && (t.len() > 0
            ==> integer_between(t[0], 0, elements@.len() - 1)),
        StrategyNode::SampledFromRange { len, .. } => t.len() <= 1 && (t.len() > 0
            ==> integer_between(t[0], 0, len@ - 1)),
        StrategyNode::Text { .. } => t.len() <= 1 && (t.len() > 0 ==> t[0] is Text),
        StrategyNode::Characters { .. } => t.len() <= 1 && (t.len() > 0 ==> t[0] is Text),
        StrategyNode::Binary { .. } => t.len() <= 1 && (t.len() > 0 ==> t[0] is Bytes),
        StrategyNode::Dates { min_ord, max_ord } => t.len() <= 1 && (t.len() > 0
            ==> integer_between(t[0], min_ord as int, max_ord as int)),
        StrategyNode::Times { min_us, max_us } => {
            &&& t.len() <= 2
            &&& t.len() > 0 ==> integer_between(t[0], min_us as int, max_us as int)
            &&& t.len() > 1 ==> t[1] is Boolean
        },
        StrategyNode::Datetimes { min_ord, max_ord } => {
            &&& t.len() <= 3
            &&& t.len() > 0 ==> integer_between(t[0], min_ord as int, max_ord as int)
            &&& t.len() > 1 ==> integer_between(t[1], 0, US_PER_DAY - 1)
            &&& t.len() > 2 ==> t[2] is Boolean
        },
        StrategyNode::Timedeltas { min_us, max_us } => {
            &&& t.len() <= 2
            &&& t.len() > 0 ==> integer_between(
                t[0],
                min_us@ / (US_PER_DAY as int),
                max_us@ / (US_PER_DAY as int),
            )
            &&& t.len() > 1 ==> integer_between(t[1], 0, US_PER_DAY - 1)
        },
        StrategyNode::Uuids { .. } => t.len() <= 1 && (t.len() > 0 ==> integer_between(
            t[0],
            0,
            pow(2, 128) - 1,
        )),
        StrategyNode::ComplexNumbers { .. } => {
            &&& t.len() <= 2
            &&& t.len() > 0 ==> t[0] is Float
            &&& t.len() > 1 ==> t[1] is Float
        },
        StrategyNode::IpAddresses { v6, .. } => match v6 {
            Some(_) => t.len() <= 1 && (t.len() > 0 ==> t[0] is Integer),
            None => {
                &&& t.len() <= 2
                &&& t.len() > 0 ==> t[0] is Boolean
                &&& t.len() > 1 ==> t[1] is Integer
            },
        },
        StrategyNode::Slices { .. } => t.len() <= 9,
        StrategyNode::Permutations(values) => t.len() < values@.len(),
        StrategyNode::Fractions { max_denom, .. } => {
            &&& t.len() <= 2
            &&& t.len() > 0 ==> integer_between(t[0], 1, max_denom as int)
            &&& t.len() > 1 ==> t[1] is Integer
        },
        StrategyNode::Decimals { .. } => t.len() <= 1 && (t.len() > 0 ==> t[0] is Integer),
        StrategyNode::OneOf(children) => t.len() == 0 || (integer_between(
            t[0],
            0,
            children@.len() - 1,
        ) && (t.len() == 1 || begun_at::<H>(children@, t[0]->Integer_0, t.skip(1)))),
        StrategyNode::Tuples(children) => exists|k: int, vs: Seq<Value>|
            {
                &&& #[trigger] cut(k) && #[trigger] tried(vs)
                &&& 0 <= k <= t.len()
                &&& spells_each::<H>(children@, t.take(k), vs)
                &&& begun_at::<H>(children@, vs.len() as int, t.skip(k))
            },
        StrategyNode::FixedDict { items } => exists|k: int, es: Seq<Entry>|
            {
                &&& #[trigger] cut(k) && #[trigger] tried_entries(es)
                &&& 0 <= k <= t.len()
                &&& spells_items::<H>(items@, t.take(k), es)
                &&& es.len() < items@.len() && begun::<H>(
                    items@[es.len() as int].value,
                    t.skip(k),
                )
            },
        StrategyNode::Lists { elem, min, max, .. } => exists|k: int, us: Seq<Value>|
            {
                &&& #[trigger] cut(k) && #[trigger] tried(us)
                &&& 0 <= k <= t.len()
                &&& us.len() <= max
                &&& spells_run::<H>(*elem, min != max, t.take(k), us)
                &&& if min == max {
                    begun::<H>(*elem, t.skip(k))
                } else {
                    ||| t.len() == k
                    ||| t.len() == k + 1 && t[k] is Boolean
                    ||| t.len() > k && t[k] == ChoiceModel::Boolean(true) && begun::<H>(
                        *elem,
                        t.skip(k + 1),
                    )
                }
            },
        _ => true,
    }
}

/// The choices are those that a value of one of the strategies begins with.
pub open spec fn begun_at<H: Host>(
    children: Seq<StrategyNode>,
    i: int,
    t: Seq<ChoiceModel>,
) -> bool
    decreases children,
{
    0 <= i < children.len() && begun::<H>(children[i], t)
}

/// What a draw that failed leaves recorded behind what was recorded before it.
pub(crate) proof fn lemma_stopped(a: Case, b: Case, fits: spec_fn(ChoiceModel) -> bool)
    requires
        b.stopped_with(a, fits),
    ensures
        taken(a, b).len() <= 1,
        taken(a, b).len() == 1 ==> fits(taken(a, b)[0]),
{
    if b.nodes@ == a.nodes@ {
        lemma_nothing_taken(a, b);
    } else {
        assert(taken(a, b)[0] == b.nodes@.last().value@);
    }
}

/// What a draw comes to: the choices that it recorded spell the value, what was played back
/// has laid it down, and a strategy that is certain gives one as long as there is room; if it
/// does not, what was recorded is what a value begins with.
pub open spec fn accounted<H: Host>(
    before: Case,
    after: Case,
    node: StrategyNode,
    r: Result<Value, DrawError>,
) -> bool {
    &&& closed(node) && r is Ok ==> spells::<H>(node, taken(before, after), r->Ok_0)
    &&& r is Ok ==> laid_down(node, before.replay, r->Ok_0)
    &&& certain(node) && before.replay.endless() && r is Err ==> ran_out(after, r->Err_0)
    &&& certain(node) && r is Err ==> begun::<H>(node, taken(before, after))
}

// ---- steps ------------------------------------------------------------------

/// A strategy that is certain lets no function of the user draw.
pub(crate) proof fn lemma_certain_is_closed(node: StrategyNode)
    requires
        certain(node),
    ensures
        closed(node),
    decreases node,
{
    match node {
        StrategyNode::OneOf(children) => {
            assert forall|i: int| 0 <= i < children@.len() implies closed(
                #[trigger] children@[i],
            ) by {
                lemma_certain_is_closed(children@[i]);
            }
        },
        StrategyNode::Tuples(children) => {
            assert forall|i: int| 0 <= i < children@.len() implies closed(
                #[trigger] children@[i],
            ) by {
                lemma_certain_is_closed(children@[i]);
            }
        },
        StrategyNode::FixedDict { items } => {
            assert forall|i: int| 0 <= i < items@.len() implies closed(
                (#[trigger] items@[i]).value,
            ) by {
                lemma_certain_is_closed(items@[i].value);
            }
        },
        StrategyNode::Lists { elem, .. } => {
            lemma_certain_is_closed(*elem);
        },
        _ => {},
    }
}

pub(crate) proof fn lemma_each_step<H: Host>(
    c: Seq<StrategyNode>,
    start: Case,
    before: Case,
    after: Case,
    vs: Seq<Value>,
    v: Value,
)
    requires
        before.grown_from(start),
        after.grown_from(before),
        vs.len() < c.len(),
        spells_each::<H>(c, taken(start, before), vs),
        spells::<H>(c[vs.len() as int], taken(before, after), v),
    ensures
        spells_each::<H>(c, taken(start, after), vs.push(v)),
{
    let t = taken(start, after);
    let k = taken(start, before).len() as int;
    lemma_taken_joined(start, before, after);
    assert(t.take(k) =~= taken(start, before));
    assert(t.skip(k) =~= taken(before, after));
    assert(vs.push(v).drop_last() =~= vs);
    assert(cut(k));
}

pub(crate) proof fn lemma_named_step<H: Host>(
    c: Seq<NamedNode>,
    start: Case,
    before: Case,
    after: Case,
    vs: Seq<Value>,
    v: Value,
)
    requires
        before.grown_from(start),
        after.grown_from(before),
        vs.len() < c.len(),
        spells_named::<H>(c, taken(start, before), vs),
        spells::<H>(c[vs.len() as int].node, taken(before, after), v),
    ensures
        spells_named::<H>(c, taken(start, after), vs.push(v)),
{
    let t = taken(start, after);
    let k = taken(start, before).len() as int;
    lemma_taken_joined(start, before, after);
    assert(t.take(k) =~= taken(start, before));
    assert(t.skip(k) =~= taken(before, after));
    assert(vs.push(v).drop_last() =~= vs);
    assert(cut(k));
}

pub(crate) proof fn lemma_items_step<H: Host>(
    c: Seq<FixedItem>,
    start: Case,
    before: Case,
    after: Case,
    es: Seq<Entry>,
    e: Entry,
)
    requires
        before.grown_from(start),
        after.grown_from(before),
        es.len() < c.len(),
        e.key == Value::Atom(c[es.len() as int].key),
        spells_items::<H>(c, taken(start, before), es),
        spells::<H>(c[es.len() as int].value, taken(before, after), e.value),
    ensures
        spells_items::<H>(c, taken(start, after), es.push(e)),
{
    let t = taken(start, after);
    let k = taken(start, before).len() as int;
    lemma_taken_joined(start, before, after);
    assert(t.take(k) =~= taken(start, before));
    assert(t.skip(k) =~= taken(before, after));
    assert(es.push(e).drop_last() =~= es);
    assert(cut(k));
}

/// The choice to go on has been made: it was recorded where it was open.
pub open spec fn went_on(before: Case, after: Case, marked: bool, more: bool) -> bool {
    &&& after.grown_from(before)
    &&& marked ==> after.just_drew(before, ChoiceModel::Boolean(more))
    &&& !marked ==> after.nodes@ == before.nodes@
}

pub(crate) proof fn lemma_run_step<H: Host>(
    elem: StrategyNode,
    marked: bool,
    start: Case,
    before: Case,
    middle: Case,
    after: Case,
    us: Seq<Value>,
    u: Value,
)
    requires
        before.grown_from(start),
        went_on(before, middle, marked, true),
        after.grown_from(middle),
        spells_run::<H>(elem, marked, taken(start, before), us),
        spells::<H>(elem, taken(middle, after), u),
    ensures
        spells_run::<H>(elem, marked, taken(start, after), us.push(u)),
{
    let t = taken(start, after);
    let k = taken(start, before).len() as int;
    Case::lemma_grown(start, before, middle);
    lemma_taken_joined(start, before, middle);
    lemma_taken_joined(start, middle, after);
    if marked {
        lemma_one_taken(before, middle, ChoiceModel::Boolean(true));
        assert(t.skip(k + 1) =~= taken(middle, after));
        assert(t[k] == ChoiceModel::Boolean(true));
    } else {
        lemma_nothing_taken(before, middle);
        assert(t.skip(k) =~= taken(middle, after));
    }
    assert(t.take(k) =~= taken(start, before));
    assert(us.push(u).drop_last() =~= us);
    assert(cut(k));
}

pub(crate) proof fn lemma_run_end<H: Host>(
    elem: StrategyNode,
    marked: bool,
    start: Case,
    before: Case,
    after: Case,
    us: Seq<Value>,
)
    requires
        before.grown_from(start),
        went_on(before, after, marked, false),
        spells_run::<H>(elem, marked, taken(start, before), us),
    ensures
        spells_collection::<H>(elem, marked, taken(start, after), us),
{
    lemma_taken_joined(start, before, after);
    if marked {
        lemma_one_taken(before, after, ChoiceModel::Boolean(false));
        assert(taken(start, after).drop_last() =~= taken(start, before));
    } else {
        lemma_nothing_taken(before, after);
        assert(taken(start, after) =~= taken(start, before));
    }
}

pub(crate) proof fn lemma_pair_step<H: Host>(
    node: StrategyNode,
    start: Case,
    before: Case,
    middle: Case,
    keyed: Case,
    after: Case,
    es: Seq<Entry>,
    e: Entry,
)
    requires
        node is Dictionaries,
        before.grown_from(start),
        went_on(before, middle, node->Dictionaries_min != node->Dictionaries_max, true),
        keyed.grown_from(middle),
        after.grown_from(keyed),
        spells_pairs::<H>(node, taken(start, before), es),
        spells::<H>(*node->keys, taken(middle, keyed), e.key),
        spells::<H>(*node->values, taken(keyed, after), e.value),
    ensures
        spells_pairs::<H>(node, taken(start, after), es.push(e)),
{
    let marked = node->Dictionaries_min != node->Dictionaries_max;
    let t = taken(start, after);
    let k = taken(start, before).len() as int;
    Case::lemma_grown(start, before, middle);
    Case::lemma_grown(start, middle, keyed);
    lemma_taken_joined(start, before, middle);
    lemma_taken_joined(start, middle, keyed);
    lemma_taken_joined(start, keyed, after);
    let from = taken(start, middle).len() as int;
    let m = taken(start, keyed).len() as int;
    if marked {
        lemma_one_taken(before, middle, ChoiceModel::Boolean(true));
        assert(t[k] == ChoiceModel::Boolean(true));
    } else {
        lemma_nothing_taken(before, middle);
    }
    assert(t.take(k) =~= taken(start, before));
    assert(t.subrange(from, m) =~= taken(middle, keyed));
    assert(t.skip(m) =~= taken(keyed, after));
    assert(es.push(e).drop_last() =~= es);
    assert(cut(k) && cut(m));
}

// ---- laws -------------------------------------------------------------------

/// The two values are the same, part by part.
pub open spec fn same_value(v: Value, w: Value) -> bool
    decreases v,
{
    match (v, w) {
        (Value::Atom(a), Value::Atom(b)) => a == b,
        (Value::Bool(a), Value::Bool(b)) => a == b,
        (Value::Int(a), Value::Int(b)) => a@ == b@,
        (Value::Float(a), Value::Float(b)) => a == b,
        (Value::Text(a), Value::Text(b)) => a@ == b@,
        (Value::Bytes(a), Value::Bytes(b)) => a@ == b@,
        (Value::Tuple(a), Value::Tuple(b)) => a@.len() == b@.len() && forall|i: int|
            0 <= i < a@.len() ==> same_value(#[trigger] a@[i], b@[i]),
        (Value::List(a), Value::List(b)) => a@.len() == b@.len() && forall|i: int|
            0 <= i < a@.len() ==> same_value(#[trigger] a@[i], b@[i]),
        (
            Value::Collection { items, frozen },
            Value::Collection { items: items2, frozen: frozen2 },
        ) => frozen == frozen2 && items@.len() == items2@.len() && forall|i: int|
            0 <= i < items@.len() ==> same_value(#[trigger] items@[i], items2@[i]),
        (Value::Dict(a), Value::Dict(b)) => a@.len() == b@.len() && forall|i: int|
            0 <= i < a@.len() ==> same_value((#[trigger] a@[i]).key, b@[i].key) && same_value(
                a@[i].value,
                b@[i].value,
            ),
        (
            Value::Uuid { number, version },
            Value::Uuid { number: number2, version: version2 },
        ) => number@ == number2@ && version == version2,
        (Value::Date { .. }, Value::Date { .. }) => v == w,
        (Value::Time { .. }, Value::Time { .. }) => v == w,
        (Value::Datetime { .. }, Value::Datetime { .. }) => v == w,
        (
            Value::Timedelta { days, microseconds },
            Value::Timedelta { days: days2, microseconds: microseconds2 },
        ) => days@ == days2@ && microseconds@ == microseconds2@,
        (Value::Complex { .. }, Value::Complex { .. }) => v == w,
        (Value::Ip { v6, number }, Value::Ip { v6: v62, number: number2 }) => v6 == v62 && number@
            == number2@,
        (
            Value::Slice { start, stop, step },
            Value::Slice { start: start2, stop: stop2, step: step2 },
        ) => start == start2 && stop == stop2 && (step is Some <==> step2 is Some) && (step is Some
            ==> step->0@ == step2->0@),
        (Value::Fraction { num, den }, Value::Fraction { num: num2, den: den2 }) => num@ == num2@
            && den@ == den2@,
        (Value::Decimal { num, den }, Value::Decimal { num: num2, den: den2 }) => num@ == num2@
            && den@ == den2@,
        (Value::Data, Value::Data) => true,
        _ => false,
    }
}

/// Nobody but the choices has a say in the values of the strategy.
pub open spec fn determined(node: StrategyNode) -> bool
    decreases node,
{
    match node {
        StrategyNode::NoneVal => true,
        StrategyNode::Just(_) => true,
        StrategyNode::Data => true,
        StrategyNode::Integers { .. } => true,
        StrategyNode::Booleans => true,
        StrategyNode::Floats { width, .. } => width == 64,
        StrategyNode::SampledFrom { .. } => true,
        StrategyNode::SampledFromRange { .. } => true,
        StrategyNode::Text { .. } => true,
        StrategyNode::Characters { .. } => true,
        StrategyNode::Binary { .. } => true,
        StrategyNode::Dates { .. } => true,
        StrategyNode::Times { .. } => true,
        StrategyNode::Datetimes { .. } => true,
        StrategyNode::Timedeltas { .. } => true,
        StrategyNode::Uuids { .. } => true,
        StrategyNode::ComplexNumbers { .. } => true,
        StrategyNode::IpAddresses { .. } => true,
        StrategyNode::Slices { .. } => true,
        StrategyNode::Permutations(_) => true,
        StrategyNode::Fractions { .. } => true,
        StrategyNode::Decimals { .. } => true,
        StrategyNode::OneOf(children) => forall|i: int|
            0 <= i < children@.len() ==> determined(#[trigger] children@[i]),
        StrategyNode::Tuples(children) => forall|i: int|
            0 <= i < children@.len() ==> determined(#[trigger] children@[i]),
        StrategyNode::FixedDict { items } => forall|i: int|
            0 <= i < items@.len() ==> determined((#[trigger] items@[i]).value),
        StrategyNode::Lists { elem, unique_by, swap_domain, .. } => swap_domain is None
            && unique_by@.len() == 0 && determined(*elem),
        _ => false,
    }
}

/// The same choices never spell two different values.
pub proof fn choices_spell_one_value<H: Host>(
    node: StrategyNode,
    t: Seq<ChoiceModel>,
    v: Value,
    w: Value,
)
    requires
        determined(node),
        spells::<H>(node, t, v),
        spells::<H>(node, t, w),
    ensures
        same_value(v, w),
{
    assert(t.take(t.len() as int) =~= t);
    values_end_where_they_end::<H>(node, t, t.len() as int, t.len() as int, v, w);
}

/// Where the choices for a value end is clear from the choices: no value is spelled by
/// the beginning of what spells another one, and what follows does not matter.
pub proof fn values_end_where_they_end<H: Host>(
    node: StrategyNode,
    s: Seq<ChoiceModel>,
    a: int,
    b: int,
    v: Value,
    w: Value,
)
    requires
        determined(node),
        0 <= a <= s.len(),
        0 <= b <= s.len(),
        spells::<H>(node, s.take(a), v),
        spells::<H>(node, s.take(b), w),
    ensures
        a == b,
        same_value(v, w),
    decreases node, 1int,
{
    let t = s.take(a);
    let u = s.take(b);
    match node {
        StrategyNode::OneOf(children) => {
            let i = choose|i: int|
                #[trigger] cut(i) && 0 <= i < children@.len() && t[0] == ChoiceModel::Integer(i)
                    && spells::<H>(children@[i], t.skip(1), v);
            let j = choose|j: int|
                #[trigger] cut(j) && 0 <= j < children@.len() && u[0] == ChoiceModel::Integer(j)
                    && spells::<H>(children@[j], u.skip(1), w);
            assert(t[0] == s[0] && u[0] == s[0]);
            assert(t.skip(1) =~= s.skip(1).take(a - 1));
            assert(u.skip(1) =~= s.skip(1).take(b - 1));
            values_end_where_they_end::<H>(children@[i], s.skip(1), a - 1, b - 1, v, w);
        },
        StrategyNode::Tuples(children) => {
            lists_end_where_they_end::<H>(children@, s, a, b, v->Tuple_0@, w->Tuple_0@);
        },
        StrategyNode::FixedDict { items } => {
            dicts_end_where_they_end::<H>(items@, s, a, b, v->Dict_0@, w->Dict_0@);
        },
        StrategyNode::Lists { elem, min, max, .. } => {
            let us = choose|us: Seq<Value>|
                {
                    &&& #[trigger] tried(us)
                    &&& us == v->List_0@
                    &&& min <= v->List_0@.len() <= max
                    &&& spells_collection::<H>(*elem, min != max, t, us)
                };
            let ws = choose|ws: Seq<Value>|
                {
                    &&& #[trigger] tried(ws)
                    &&& ws == w->List_0@
                    &&& min <= w->List_0@.len() <= max
                    &&& spells_collection::<H>(*elem, min != max, u, ws)
                };
            if min != max {
                assert(t.drop_last() =~= s.take(a - 1));
                assert(u.drop_last() =~= s.take(b - 1));
                assert(t.last() == s[a - 1]);
                assert(u.last() == s[b - 1]);
                runs_end_where_they_end::<H>(*elem, true, s, a - 1, b - 1, us, ws);
            } else {
                runs_end_where_they_end::<H>(*elem, false, s, a, b, us, ws);
            }
        },
        StrategyNode::Permutations(values) => {
            assert(t.len() == u.len());
            assert(t =~= u);
            let vs = v->List_0@;
            let ws = w->List_0@;
            assert(atoms_of(vs).len() == atoms_of(ws).len());
            assert forall|i: int| 0 <= i < vs.len() implies same_value(#[trigger] vs[i], ws[i]) by {
                assert(atoms_of(vs)[i] == atoms_of(ws)[i]);
            }
        },
        StrategyNode::Slices { size } => {
            slices_end_where_they_end(size as int, s, a, b, v, w);
        },
        _ => {
            assert(t.len() == u.len());
            assert(t =~= u);
            numbers_are_spelled_out::<H>(node, t, v, w);
        },
    }
}

proof fn numbers_are_spelled_out<H: Host>(node: StrategyNode, t: Seq<ChoiceModel>, v: Value, w: Value)
    requires
        determined(node),
        !(node is OneOf || node is Tuples || node is FixedDict || node is Lists
            || node is Permutations || node is Slices),
        spells::<H>(node, t, v),
        spells::<H>(node, t, w),
    ensures
        same_value(v, w),
{
}

proof fn lists_end_where_they_end<H: Host>(
    c: Seq<StrategyNode>,
    s: Seq<ChoiceModel>,
    a: int,
    b: int,
    vs: Seq<Value>,
    ws: Seq<Value>,
)
    requires
        forall|i: int| 0 <= i < c.len() ==> determined(#[trigger] c[i]),
        0 <= a <= s.len(),
        0 <= b <= s.len(),
        vs.len() == ws.len(),
        vs.len() <= c.len(),
        spells_each::<H>(c, s.take(a), vs),
        spells_each::<H>(c, s.take(b), ws),
    ensures
        a == b,
        forall|i: int| 0 <= i < vs.len() ==> same_value(#[trigger] vs[i], ws[i]),
    decreases c, vs.len(),
{
    let t = s.take(a);
    let u = s.take(b);
    if vs.len() > 0 {
        let node = c[vs.len() - 1];
        let k = choose|k: int|
            #[trigger] cut(k) && 0 <= k <= t.len() && spells_each::<H>(c, t.take(k), vs.drop_last())
                && spells::<H>(node, t.skip(k), vs.last());
        let m = choose|m: int|
            #[trigger] cut(m) && 0 <= m <= u.len() && spells_each::<H>(c, u.take(m), ws.drop_last())
                && spells::<H>(node, u.skip(m), ws.last());
        assert(t.take(k) =~= s.take(k));
        assert(u.take(m) =~= s.take(m));
        lists_end_where_they_end::<H>(c, s, k, m, vs.drop_last(), ws.drop_last());
        assert(t.skip(k) =~= s.skip(k).take(a - k));
        assert(u.skip(k) =~= s.skip(k).take(b - k));
        values_end_where_they_end::<H>(node, s.skip(k), a - k, b - k, vs.last(), ws.last());
        assert forall|i: int| 0 <= i < vs.len() implies same_value(#[trigger] vs[i], ws[i]) by {
            if i < vs.len() - 1 {
                assert(same_value(vs.drop_last()[i], ws.drop_last()[i]));
            }
        }
    }
}

proof fn dicts_end_where_they_end<H: Host>(
    c: Seq<FixedItem>,
    s: Seq<ChoiceModel>,
    a: int,
    b: int,
    vs: Seq<Entry>,
    ws: Seq<Entry>,
)
    requires
        forall|i: int| 0 <= i < c.len() ==> determined((#[trigger] c[i]).value),
        0 <= a <= s.len(),
        0 <= b <= s.len(),
        vs.len() == ws.len(),
        vs.len() <= c.len(),
        spells_items::<H>(c, s.take(a), vs),
        spells_items::<H>(c, s.take(b), ws),
    ensures
        a == b,
        forall|i: int|
            0 <= i < vs.len() ==> same_value((#[trigger] vs[i]).key, ws[i].key) && same_value(
                vs[i].value,
                ws[i].value,
            ),
    decreases c, vs.len(),
{
    let t = s.take(a);
    let u = s.take(b);
    if vs.len() > 0 {
        let node = c[vs.len() - 1].value;
        let k = choose|k: int|
            #[trigger] cut(k) && 0 <= k <= t.len() && spells_items::<H>(c, t.take(k), vs.drop_last())
                && spells::<H>(node, t.skip(k), vs.last().value);
        let m = choose|m: int|
            #[trigger] cut(m) && 0 <= m <= u.len() && spells_items::<H>(c, u.take(m), ws.drop_last())
                && spells::<H>(node, u.skip(m), ws.last().value);
        assert(t.take(k) =~= s.take(k));
        assert(u.take(m) =~= s.take(m));
        dicts_end_where_they_end::<H>(c, s, k, m, vs.drop_last(), ws.drop_last());
        assert(t.skip(k) =~= s.skip(k).take(a - k));
        assert(u.skip(k) =~= s.skip(k).take(b - k));
        assert(determined(c[vs.len() - 1].value));
        values_end_where_they_end::<H>(node, s.skip(k), a - k, b - k, vs.last().value, ws.last().value);
        assert forall|i: int| 0 <= i < vs.len() implies same_value(
            (#[trigger] vs[i]).key,
            ws[i].key,
        ) && same_value(vs[i].value, ws[i].value) by {
            if i < vs.len() - 1 {
                assert(vs.drop_last()[i] == vs[i] && ws.drop_last()[i] == ws[i]);
            }
        }
    }
}

/// The first `n` values of a run have their choices at its beginning; where more values
/// follow, the choice to go on comes next.
proof fn run_begins_with<H: Host>(
    elem: StrategyNode,
    marked: bool,
    t: Seq<ChoiceModel>,
    us: Seq<Value>,
    n: int,
) -> (k: int)
    requires
        0 <= n <= us.len(),
        spells_run::<H>(elem, marked, t, us),
    ensures
        0 <= k <= t.len(),
        spells_run::<H>(elem, marked, t.take(k), us.take(n)),
        n < us.len() && marked ==> k < t.len() && t[k] == ChoiceModel::Boolean(true),
        n == us.len() ==> k == t.len(),
    decreases us.len(),
{
    if n == us.len() {
        assert(t.take(t.len() as int) =~= t);
        assert(us.take(n) =~= us);
        t.len() as int
    } else {
        let m = choose|m: int|
            {
                &&& #[trigger] cut(m) && 0 <= m <= t.len()
                &&& spells_run::<H>(elem, marked, t.take(m), us.drop_last())
                &&& marked ==> m < t.len() && t[m] == ChoiceModel::Boolean(true) && spells::<H>(
                    elem,
                    t.skip(m + 1),
                    us.last(),
                )
                &&& !marked ==> spells::<H>(elem, t.skip(m), us.last())
            };
        let k = run_begins_with::<H>(elem, marked, t.take(m), us.drop_last(), n);
        assert(t.take(m).take(k) =~= t.take(k));
        assert(us.drop_last().take(n) =~= us.take(n));
        k
    }
}

proof fn equal_runs_end_where_they_end<H: Host>(
    elem: StrategyNode,
    marked: bool,
    s: Seq<ChoiceModel>,
    a: int,
    b: int,
    us: Seq<Value>,
    ws: Seq<Value>,
)
    requires
        determined(elem),
        0 <= a <= s.len(),
        0 <= b <= s.len(),
        us.len() == ws.len(),
        spells_run::<H>(elem, marked, s.take(a), us),
        spells_run::<H>(elem, marked, s.take(b), ws),
    ensures
        a == b,
        forall|i: int| 0 <= i < us.len() ==> same_value(#[trigger] us[i], ws[i]),
    decreases elem, 2int, us.len(),
{
    let t = s.take(a);
    let u = s.take(b);
    if us.len() > 0 {
        let k = choose|k: int|
            {
                &&& #[trigger] cut(k) && 0 <= k <= t.len()
                &&& spells_run::<H>(elem, marked, t.take(k), us.drop_last())
                &&& marked ==> k < t.len() && t[k] == ChoiceModel::Boolean(true) && spells::<H>(
                    elem,
                    t.skip(k + 1),
                    us.last(),
                )
                &&& !marked ==> spells::<H>(elem, t.skip(k), us.last())
            };
        let m = choose|m: int|
            {
                &&& #[trigger] cut(m) && 0 <= m <= u.len()
                &&& spells_run::<H>(elem, marked, u.take(m), ws.drop_last())
                &&& marked ==> m < u.len() && u[m] == ChoiceModel::Boolean(true) && spells::<H>(
                    elem,
                    u.skip(m + 1),
                    ws.last(),
                )
                &&& !marked ==> spells::<H>(elem, u.skip(m), ws.last())
            };
        assert(t.take(k) =~= s.take(k));
        assert(u.take(m) =~= s.take(m));
        equal_runs_end_where_they_end::<H>(elem, marked, s, k, m, us.drop_last(), ws.drop_last());
        let from = if marked {
            k + 1
        } else {
            k
        };
        assert(t.skip(from) =~= s.skip(from).take(a - from));
        assert(u.skip(from) =~= s.skip(from).take(b - from));
        values_end_where_they_end::<H>(
            elem,
            s.skip(from),
            a - from,
            b - from,
            us.last(),
            ws.last(),
        );
        assert forall|i: int| 0 <= i < us.len() implies same_value(#[trigger] us[i], ws[i]) by {
            if i < us.len() - 1 {
                assert(same_value(us.drop_last()[i], ws.drop_last()[i]));
            }
        }
    }
}

proof fn runs_end_where_they_end<H: Host>(
    elem: StrategyNode,
    marked: bool,
    s: Seq<ChoiceModel>,
    a: int,
    b: int,
    us: Seq<Value>,
    ws: Seq<Value>,
)
    requires
        determined(elem),
        0 <= a <= s.len(),
        0 <= b <= s.len(),
        spells_run::<H>(elem, marked, s.take(a), us),
        spells_run::<H>(elem, marked, s.take(b), ws),
        marked ==> a < s.len() && s[a] == ChoiceModel::Boolean(false) && b < s.len() && s[b]
            == ChoiceModel::Boolean(false),
        !marked ==> us.len() == ws.len(),
    ensures
        a == b,
        us.len() == ws.len(),
        forall|i: int| 0 <= i < us.len() ==> same_value(#[trigger] us[i], ws[i]),
    decreases elem, 3int, 0nat,
{
    if us.len() == ws.len() {
        equal_runs_end_where_they_end::<H>(elem, marked, s, a, b, us, ws);
    } else if us.len() < ws.len() {
        let k = run_begins_with::<H>(elem, marked, s.take(b), ws, us.len() as int);
        assert(s.take(b).take(k) =~= s.take(k));
        equal_runs_end_where_they_end::<H>(elem, marked, s, a, k, us, ws.take(us.len() as int));
        assert(s.take(b)[k] == s[k]);
    } else {
        let k = run_begins_with::<H>(elem, marked, s.take(a), us, ws.len() as int);
        assert(s.take(a).take(k) =~= s.take(k));
        equal_runs_end_where_they_end::<H>(elem, marked, s, k, b, us.take(ws.len() as int), ws);
        assert(s.take(a)[k] == s[k]);
    }
}

/// Where the choices for the ends of a slice begin, and the others behind them.
proof fn slice_choices_in_order(c: SliceChoices)
    ensures
        ({
            let t = c.choices();
            let n = end_choices(c.start).len() as int;
            let m = n + end_choices(c.stop).len();
            &&& t.len() == m + 5
            &&& t[0] == ChoiceModel::Boolean(c.start is None)
            &&& c.start is Some ==> t[1] == ChoiceModel::Integer(c.start->0 as int)
            &&& t[n] == ChoiceModel::Boolean(c.stop is None)
            &&& c.stop is Some ==> t[n + 1] == ChoiceModel::Integer(c.stop->0 as int)
            &&& t[m] == ChoiceModel::Integer(c.step)
            &&& t[m + 1] == ChoiceModel::Boolean(c.backwards)
            &&& t[m + 2] == ChoiceModel::Boolean(c.start_from_back)
            &&& t[m + 3] == ChoiceModel::Boolean(c.stop_from_back)
            &&& t[m + 4] == ChoiceModel::Boolean(c.explicit)
        }),
{
}

proof fn slice_choices_are_clear(
    s: Seq<ChoiceModel>,
    a: int,
    b: int,
    c: SliceChoices,
    d: SliceChoices,
)
    requires
        0 <= a <= s.len(),
        0 <= b <= s.len(),
        s.take(a) == c.choices(),
        s.take(b) == d.choices(),
    ensures
        a == b,
        c == d,
{
    slice_choices_in_order(c);
    slice_choices_in_order(d);
    let t = c.choices();
    let u = d.choices();
    assert(t.len() == a && u.len() == b);
    assert forall|i: int| 0 <= i < a && 0 <= i < b implies #[trigger] t[i] == u[i] by {
        assert(t[i] == s[i]);
        assert(u[i] == s[i]);
    }
    assert(t[0] == u[0]);
    if c.start is Some {
        assert(t[1] == u[1]);
    }
    let n = end_choices(c.start).len() as int;
    assert(t[n] == u[n]);
    if c.stop is Some {
        assert(t[n + 1] == u[n + 1]);
    }
    let m = n + end_choices(c.stop).len();
    assert(t[m] == u[m]);
    assert(t[m + 1] == u[m + 1]);
    assert(t[m + 2] == u[m + 2]);
    assert(t[m + 3] == u[m + 3]);
    assert(t[m + 4] == u[m + 4]);
}

proof fn slices_end_where_they_end(
    size: int,
    s: Seq<ChoiceModel>,
    a: int,
    b: int,
    v: Value,
    w: Value,
)
    requires
        0 <= a <= s.len(),
        0 <= b <= s.len(),
        spells_slice(size, s.take(a), v),
        spells_slice(size, s.take(b), w),
    ensures
        a == b,
        same_value(v, w),
{
    let t = s.take(a);
    let u = s.take(b);
    if size == 0 {
        assert(t[0] == s[0] && u[0] == s[0]);
        if v->step is Some {
            assert(t[1] == s[1] && u[1] == s[1]);
        }
    } else {
        let c = choose|c: SliceChoices| t == c.choices() && #[trigger] c.gives(size, v);
        let d = choose|d: SliceChoices| u == d.choices() && #[trigger] d.gives(size, w);
        slice_choices_are_clear(s, a, b, c, d);
    }
}

proof fn determined_is_closed(node: StrategyNode)
    requires
        determined(node),
    ensures
        closed(node),
    decreases node,
{
    match node {
        StrategyNode::OneOf(children) => {
            assert forall|i: int| 0 <= i < children@.len() implies closed(
                #[trigger] children@[i],
            ) by {
                determined_is_closed(children@[i]);
            }
        },
        StrategyNode::Tuples(children) => {
            assert forall|i: int| 0 <= i < children@.len() implies closed(
                #[trigger] children@[i],
            ) by {
                determined_is_closed(children@[i]);
            }
        },
        StrategyNode::FixedDict { items } => {
            assert forall|i: int| 0 <= i < items@.len() implies closed(
                (#[trigger] items@[i]).value,
            ) by {
                determined_is_closed(items@[i].value);
            }
        },
        StrategyNode::Lists { elem, .. } => {
            determined_is_closed(*elem);
        },
        _ => {},
    }
}

/// Two draws that record the same choices give the same value, whatever test cases they
/// are made from: this is what replaying choices rests on.
pub proof fn equal_records_give_equal_values<H: Host>(
    node: StrategyNode,
    before: Case,
    after: Case,
    r: Result<Value, DrawError>,
    before_again: Case,
    after_again: Case,
    again: Result<Value, DrawError>,
)
    requires
        determined(node),
        accounted::<H>(before, after, node, r),
        accounted::<H>(before_again, after_again, node, again),
        r is Ok,
        again is Ok,
        taken(before, after) == taken(before_again, after_again),
    ensures
        same_value(r->Ok_0, again->Ok_0),
{
    determined_is_closed(node);
    choices_spell_one_value::<H>(node, taken(before, after), r->Ok_0, again->Ok_0);
}

/// All that was recorded since are choices that were played back: there are enough of them,
/// each fits where it was asked for, and nothing was forced to be otherwise.
pub open spec fn all_taken(before: Case, after: Case, choices: Seq<ChoiceModel>) -> bool {
    let from = before.nodes@.len() as int;
    &&& after.nodes@.len() - from <= choices.len()
    &&& forall|i: int|
        from <= i < after.nodes@.len() ==> {
            let n = #[trigger] after.nodes@[i];
            let c = choices[i - from];
            n.constraints.fits_kind(c) && n.constraints.permits(c) && (n.was_forced ==> n.value@
                == c)
        }
}

proof fn lemma_rules_of_values(
    p: Seq<PrefixEntry>,
    at: int,
    choices: Seq<ChoiceModel>,
    n: int,
)
    requires
        0 <= at,
        p.len() == at + choices.len(),
        forall|i: int|
            0 <= i < choices.len() ==> (#[trigger] p[at + i]) is Value && p[at + i]->Value_0@
                == choices[i],
        0 <= n < choices.len(),
    ensures
        rule_from(p, at, n) == Rule::Is(choices[n]),
    decreases n,
{
    assert(p[at + 0] is Value && p[at + 0]->Value_0@ == choices[0]);
    if n > 0 {
        let rest = choices.drop_first();
        assert forall|i: int| 0 <= i < rest.len() implies (#[trigger] p[at + 1 + i]) is Value
            && p[at + 1 + i]->Value_0@ == rest[i] by {
            assert(p[at + (i + 1)] is Value && p[at + (i + 1)]->Value_0@ == choices[i + 1]);
        }
        lemma_rules_of_values(p, at + 1, rest, n - 1);
    }
}

proof fn lemma_all_taken(before: Case, after: Case, choices: Seq<ChoiceModel>)
    requires
        after.grown_from(before),
        before.plays_back(choices),
        all_taken(before, after, choices),
    ensures
        taken(before, after) == choices.take(taken(before, after).len() as int),
{
    let from = before.nodes@.len() as int;
    let t = taken(before, after);
    assert forall|x: int| 0 <= x < t.len() implies t[x] == choices.take(t.len() as int)[x] by {
        let n = after.nodes@[from + x];
        lemma_rules_of_values(before.replay.prefix->0@, before.replay.index as int, choices, x);
        assert(before.replay.rule_at(x) == Rule::Is(choices[x]));
        assert(t[x] == n.value@);
    }
    assert(t =~= choices.take(t.len() as int));
}

/// What was recorded while a value was drawn gives the value again when it is played back,
/// whatever follows it, as long as the choices fit where they are asked for.
pub proof fn played_back_choices_give_the_value_again<H: Host>(
    node: StrategyNode,
    choices: Seq<ChoiceModel>,
    before: Case,
    after: Case,
    r: Result<Value, DrawError>,
    before_again: Case,
    after_again: Case,
    again: Result<Value, DrawError>,
)
    requires
        determined(node),
        accounted::<H>(before, after, node, r),
        accounted::<H>(before_again, after_again, node, again),
        r is Ok,
        again is Ok,
        taken(before, after).len() <= choices.len(),
        taken(before, after) == choices.take(taken(before, after).len() as int),
        after_again.grown_from(before_again),
        before_again.plays_back(choices),
        all_taken(before_again, after_again, choices),
    ensures
        same_value(r->Ok_0, again->Ok_0),
        taken(before_again, after_again) == taken(before, after),
{
    determined_is_closed(node);
    lemma_all_taken(before_again, after_again, choices);
    values_end_where_they_end::<H>(
        node,
        choices,
        taken(before, after).len() as int,
        taken(before_again, after_again).len() as int,
        r->Ok_0,
        again->Ok_0,
    );
}

/// Playing back the same choices gives the same value, as long as the choices fit where they
/// are asked for.
pub proof fn equal_replays_give_equal_values<H: Host>(
    node: StrategyNode,
    choices: Seq<ChoiceModel>,
    before: Case,
    after: Case,
    r: Result<Value, DrawError>,
    before_again: Case,
    after_again: Case,
    again: Result<Value, DrawError>,
)
    requires
        determined(node),
        accounted::<H>(before, after, node, r),
        accounted::<H>(before_again, after_again, node, again),
        r is Ok,
        again is Ok,
        after.grown_from(before),
        before.plays_back(choices),
        all_taken(before, after, choices),
        after_again.grown_from(before_again),
        before_again.plays_back(choices),
        all_taken(before_again, after_again, choices),
    ensures
        same_value(r->Ok_0, again->Ok_0),
{
    lemma_all_taken(before, after, choices);
    played_back_choices_give_the_value_again::<H>(
        node,
        choices,
        before,
        after,
        r,
        before_again,
        after_again,
        again,
    );
}

/// Two recorded choices that fit in machine words leave room in a test case that has any to
/// speak of.
proof fn lemma_words_leave_room(before: Case, after: Case)
    requires
        before.fresh(),
        before.max_choices is None,
        before.max_length > 20,
        after.grown_from(before),
        after.nodes@.len() <= 2,
        forall|i: int|
            0 <= i < taken(before, after).len() ==> integer_between(
                #[trigger] taken(before, after)[i],
                i64::MIN as int,
                i64::MAX as int,
            ),
    ensures
        after.length <= 20,
        !after.full(),
{
    let t = taken(before, after);
    let n = after.nodes@;
    assert(t.len() == n.len());
    reveal_with_fuel(crate::data::total_size, 3);
    if n.len() > 0 {
        assert(t[0] == n[0].value@);
        crate::codec::small_integers_are_short(t[0]->Integer_0);
        assert(n.drop_last().len() == n.len() - 1);
    }
    if n.len() > 1 {
        assert(t[1] == n[1].value@);
        crate::codec::small_integers_are_short(t[1]->Integer_0);
        assert(n.drop_last()[0] == n[0]);
    }
}

/// A span of time is drawn from a new test case, whatever is played back, if its bounds fit in
/// machine words and choices are not limited; and where the bounds are the same, it is the
/// span that they both are.
pub proof fn spans_of_time_are_drawn<H: Host>(
    before: Case,
    after: Case,
    min_us: Int,
    max_us: Int,
    r: Result<Value, DrawError>,
)
    requires
        before.fresh(),
        before.max_choices is None,
        before.max_length > 20,
        before.replay.endless(),
        i64::MIN <= min_us@ <= max_us@ <= i64::MAX,
        after.grown_from(before),
        accounted::<H>(before, after, StrategyNode::Timedeltas { min_us, max_us }, r),
        r is Ok ==> conforms(StrategyNode::Timedeltas { min_us, max_us }, r->Ok_0),
    ensures
        r is Ok,
        min_us@ == max_us@ ==> r->Ok_0->days@ * US_PER_DAY + r->Ok_0->microseconds@ == min_us@,
{
    if r is Err {
        let d = US_PER_DAY as int;
        vstd::arithmetic::div_mod::lemma_fundamental_div_mod(min_us@, d);
        vstd::arithmetic::div_mod::lemma_fundamental_div_mod(max_us@, d);
        vstd::arithmetic::div_mod::lemma_mod_bound(min_us@, d);
        vstd::arithmetic::div_mod::lemma_mod_bound(max_us@, d);
        lemma_words_leave_room(before, after);
    }
}

/// An element is drawn from a range that is not empty in a new test case, if choices are not
/// limited and the size of the range fits in a machine word; in the simplest test case the
/// size does not matter, and the element is the first one.
pub proof fn elements_of_ranges_are_drawn<H: Host>(
    before: Case,
    after: Case,
    node: StrategyNode,
    r: Result<Value, DrawError>,
)
    requires
        before.fresh(),
        before.max_choices is None,
        before.max_length > 20,
        before.replay.endless(),
        node is SampledFromRange,
        0 < node->len@,
        node->len@ <= i64::MAX || before.simplest_next(),
        after.grown_from(before),
        accounted::<H>(before, after, node, r),
        simple_draw(before, after, node, r),
    ensures
        r is Ok,
        before.simplest_next() ==> r->Ok_0->Int_0@ == node->SampledFromRange_start@,
{
    if r is Err {
        lemma_words_leave_room(before, after);
    } else if before.simplest_next() {
        assert(laid_down(node, before.replay, r->Ok_0));
        let i = choose|i: int| #[trigger]
            is_sample(node, i, r->Ok_0) && integer_ruled(
                before.replay.rule_at(0),
                Some(0),
                Some(node->len@ - 1),
                0,
                i,
            );
        let step = node->SampledFromRange_step@;
        assert(i == 0);
        assert(i * step == 0) by (nonlinear_arith)
            requires
                i == 0,
        ;
    }
}

} // verus!
