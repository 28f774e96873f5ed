//! What the arguments of strategies promise of the values.
use crate::arguments::{size_of, sizes_mistake, Kind, SizeArg};
use crate::constructors::{sets_strategy, DtClass, Span};
use crate::drawing::{conforms, is_short_sample, patience, Budget, Host, Value};
use crate::floats::{float_le, float_lt, is_finite_bits, is_nan_bits, negated_bits, next_above};
use crate::hosting::{
    all_refused, filter_reach, judged, refused_too_often, sifted,
};
use crate::ordering::bound;
use crate::choice::ChoiceModel;
use crate::reading::{spells, tried};
use crate::scalars::{
    floats_mistake, floats_node, least_normal, lists_strategy, FloatsArgs, ListsArgs, Narrowed,
};
use crate::sieving::{between, lets_float};
use crate::strategy::StrategyNode;
use vstd::prelude::*;

verus! {

// ---- floats -----------------------------------------------------------------

/// What is known of the bounds at a narrow width is true: the floats next to them lie inside.
pub open spec fn narrowed_truly(a: FloatsArgs, n: Narrowed) -> bool {
    a.width != 64 ==> {
        &&& a.exclude_min && a.min is Some ==> float_lt(a.min->0, n.above_min)
        &&& a.exclude_max && a.max is Some ==> float_lt(n.below_max, a.max->0)
    }
}

/// The bits of the smallest normal number of a width: 2^-14, 2^-126 or 2^-1022.
pub open spec fn smallest_normal(width: u32) -> u64 {
    if width == 16 {
        0x3F10_0000_0000_0000
    } else if width == 32 {
        0x3810_0000_0000_0000
    } else {
        0x0010_0000_0000_0000
    }
}

/// The floats of accepted arguments keep to them: to the bounds, also where they are excluded,
/// and to what is allowed and forbidden.
pub proof fn floats_keep_to_their_arguments(
    a: FloatsArgs,
    n: Narrowed,
    x: u64,
    holds: spec_fn(u64) -> bool,
)
    requires
        floats_mistake(a, n) is None,
        narrowed_truly(a, n),
        lets_float(floats_node(a, n), x, holds),
    ensures
        is_nan_bits(x) ==> a.allow_nan != Some(false) && a.min is None && a.max is None,
        !is_nan_bits(x) ==> {
            &&& a.min is Some ==> float_le(a.min->0, x)
            &&& a.max is Some ==> float_le(x, a.max->0)
            &&& a.min is Some && a.exclude_min ==> float_lt(a.min->0, x)
            &&& a.max is Some && a.exclude_max ==> float_lt(x, a.max->0)
            &&& !is_finite_bits(x) ==> a.allow_infinity != Some(false)
            &&& a.allow_subnormal == Some(false) && is_finite_bits(x) ==> !(float_lt(0, x)
                && float_lt(x, smallest_normal(a.width))) && !(float_lt(x, 0) && float_lt(
                negated_bits(smallest_normal(a.width)),
                x,
            ))
        },
{
    if a.min is Some && a.exclude_min && a.width == 64 {
        crate::floats::next_up_is_the_successor(a.min->0, a.min->0);
    }
    if a.max is Some && a.exclude_max && a.width == 64 {
        crate::floats::next_up_is_the_successor(negated_bits(a.max->0), negated_bits(a.max->0));
    }
}

/// Every double of accepted arguments comes out: each finite one that is not below the lower
/// bound and not above the upper one, nor equal to one that is excluded, if it is zero or not
/// smaller than what is allowed.
pub proof fn all_doubles_of_the_arguments_come_out(
    a: FloatsArgs,
    n: Narrowed,
    x: u64,
    holds: spec_fn(u64) -> bool,
)
    requires
        floats_mistake(a, n) is None,
        a.width == 64,
        is_finite_bits(x),
        a.min is Some ==> float_le(a.min->0, x),
        a.max is Some ==> float_le(x, a.max->0),
        a.min is Some && a.exclude_min ==> float_lt(a.min->0, x),
        a.max is Some && a.exclude_max ==> float_lt(x, a.max->0),
        a.allow_subnormal == Some(true) || !(float_lt(0, x) && float_lt(x, smallest_normal(64)))
            && !(float_lt(x, 0) && float_lt(negated_bits(smallest_normal(64)), x)),
    ensures
        lets_float(floats_node(a, n), x, holds),
{
    if a.min is Some && a.exclude_min {
        crate::floats::next_up_is_the_successor(a.min->0, x);
    }
    if a.max is Some && a.exclude_max {
        crate::floats::next_up_is_the_successor(negated_bits(a.max->0), negated_bits(x));
    }
}

// ---- sizes ------------------------------------------------------------------

/// An argument is absent, or a number that is not negative.
pub open spec fn is_size(s: SizeArg) -> bool {
    s is Absent || (s is Number && s->Number_0 >= 0)
}

/// Sizes are accepted where they are numbers, the lower one is not above the upper one nor too
/// large for a test case, and there is something to fill a collection with. They are those
/// given; without them a collection may be empty, and as large as can be.
pub proof fn sizes_are_those_given(
    min_size: SizeArg,
    max_size: SizeArg,
    kind: Kind,
    empty: bool,
    shown: Seq<char>,
)
    ensures
        ({
            let low: int = if min_size is Number {
                min_size->Number_0 as int
            } else {
                0
            };
            let high: int = if max_size is Number {
                max_size->Number_0 as int
            } else {
                10_000_000_000
            };
            let fine = is_size(min_size) && is_size(max_size) && low <= high && low <= 8192;
            &&& sizes_mistake(min_size, max_size, kind, empty, shown) is None ==> fine && (empty
                ==> low == 0)
            &&& fine && !empty ==> sizes_mistake(min_size, max_size, kind, empty, shown) is None
            &&& fine ==> size_of(min_size, 0) == low && size_of(max_size, 10_000_000_000) == high
        }),
{
}

/// Lists have the sizes given, unless there are not so many distinct elements, and are without
/// repetitions where that was asked for, and only there.
pub proof fn lists_keep_to_their_arguments(
    r: StrategyNode,
    elem: StrategyNode,
    a: ListsArgs,
    empty: bool,
)
    requires
        lists_strategy(r, elem, a, empty),
        r is Lists,
    ensures
        *r->Lists_elem == elem,
        a.min_size is Number ==> r->Lists_min == a.min_size->Number_0,
        a.min_size is Absent ==> r->Lists_min == 0,
        a.max_size is Number ==> r->Lists_max <= a.max_size->Number_0,
        !a.unique && a.unique_by is None ==> r->unique_by@.len() == 0 && r->swap_domain is None && (
        a.max_size is Number ==> r->Lists_max == a.max_size->Number_0),
        a.unique && a.unique_by is None ==> r->unique_by@ == seq![a.identity],
        a.unique_by is Some ==> r->unique_by@.len() == a.unique_by->0.funcs@.len() && forall|
            i: int,
        |
            0 <= i < r->unique_by@.len() ==> #[trigger] r->unique_by@[i]
                == a.unique_by->0.funcs@[i].0,
        a.unique && elem is SampledFrom ==> r->Lists_max <= elem->elements@.to_set().len(),
        r->Lists_min <= r->Lists_max || a.max_size is Other || a.min_size is Other,
{
}

// ---- moments ----------------------------------------------------------------

/// The bounds of days and moments are those given. Without them the first day is the first of
/// year 1, and the last one that of year 9999; a time is below a day.
pub proof fn moments_keep_to_their_bounds(s: Span)
    ensures
        s.min is Some ==> s.low_part(DtClass::Date) == s.min->0.part && s.low(DtClass::Date)
            == s.min->0.key@,
        s.max is Some ==> s.high_part(DtClass::Date) == s.max->0.part && s.high(DtClass::Date)
            == s.max->0.key@,
        s.min is None ==> s.low(DtClass::Date) == 1 && s.low_part(DtClass::Date) == 1
            && s.low(DtClass::Time) == 0 && s.low_part(DtClass::Time) == 0
            && s.low_part(DtClass::Datetime) == 1 && s.low(DtClass::Datetime) == 86_400_000_000
            && s.low(DtClass::Timedelta) == -999_999_999 * 86_400_000_000,
        s.max is None ==> s.high(DtClass::Date) == 3_652_059 && s.high_part(DtClass::Date)
            == 3_652_059 && s.high(DtClass::Time) == 86_399_999_999 && s.high_part(DtClass::Time)
            == 86_399_999_999 && s.high_part(DtClass::Datetime) == 3_652_059
            && s.high(DtClass::Datetime) == 3_652_060 * 86_400_000_000 - 1
            && s.high(DtClass::Timedelta) == 1_000_000_000 * 86_400_000_000 - 1,
{
}

// ---- values -----------------------------------------------------------------

/// Values keep to the bounds and sizes of their strategies.
pub proof fn values_keep_to_their_strategy(node: StrategyNode, v: Value)
    requires
        conforms(node, v),
    ensures
        match node {
            StrategyNode::Integers { min, max } => v is Int && between(
                v->Int_0@,
                bound(min),
                bound(max),
            ),
            StrategyNode::Booleans => v is Bool,
            StrategyNode::Floats { min, max, allow_nan, .. } => v is Float && (if is_nan_bits(
                v->Float_0,
            ) {
                allow_nan
            } else {
                &&& !is_nan_bits(min) ==> float_le(min, v->Float_0)
                &&& !is_nan_bits(max) ==> float_le(v->Float_0, max)
            }),
            StrategyNode::Tuples(children) => v is Tuple && v->Tuple_0@.len() == children@.len()
                && forall|i: int|
                0 <= i < children@.len() ==> conforms(children@[i], #[trigger] v->Tuple_0@[i]),
            StrategyNode::OneOf(children) => exists|i: int|
                0 <= i < children@.len() && conforms(#[trigger] children@[i], v),
            StrategyNode::Lists { elem, min, max, swap_domain, .. } => v is List
                && v->List_0@.len() <= max && (swap_domain is None ==> min <= v->List_0@.len()
                && forall|i: int|
                0 <= i < v->List_0@.len() ==> conforms(*elem, #[trigger] v->List_0@[i])),
            StrategyNode::Sets { elem, min, max, frozen } => v is Collection && v->frozen == frozen
                && min <= v->items@.len() <= max && forall|i: int|
                0 <= i < v->items@.len() ==> conforms(*elem, #[trigger] v->items@[i]),
            StrategyNode::Dictionaries { keys, values, min, max } => v is Dict && min
                <= v->Dict_0@.len() <= max && forall|i: int|
                0 <= i < v->Dict_0@.len() ==> conforms(*keys, (#[trigger] v->Dict_0@[i]).key)
                    && conforms(*values, v->Dict_0@[i].value),
            StrategyNode::Text { alphabet, min, max } => v is Text && (min <= v->Text_0@.len()
                <= max || v->Text_0@.len() == 0) && forall|i: int|
                0 <= i < v->Text_0@.len() ==> alphabet.members().has(
                    #[trigger] v->Text_0@[i] as int,
                ),
            StrategyNode::Binary { min, max } => v is Bytes && min <= v->Bytes_0@.len() <= max,
            StrategyNode::Dates { min_ord, max_ord } => v is Date && min_ord <= v->Date_ordinal
                <= max_ord,
            StrategyNode::Times { min_us, max_us } => v is Time && min_us <= v->Time_us <= max_us,
            StrategyNode::Datetimes { min_ord, max_ord } => v is Datetime && min_ord
                <= v->Datetime_ordinal <= max_ord && 0 <= v->Datetime_us < 86_400_000_000,
            StrategyNode::Timedeltas { min_us, max_us } => v is Timedelta && 0 <= v->microseconds@
                < 86_400_000_000 && min_us@ <= v->days@ * 86_400_000_000 + v->microseconds@
                <= max_us@,
            StrategyNode::Fractions { max_denom, .. } => v is Fraction && 1 <= v->Fraction_den@
                <= max_denom,
            StrategyNode::NoneVal => v == Value::Atom(crate::strategy::Atom::Nil),
            StrategyNode::Just(a) => v == Value::Atom(a),
            StrategyNode::Nothing | StrategyNode::Invalid { .. } => false,
            StrategyNode::Filtered { base, .. } => conforms(*base, v),
            _ => true,
        },
{
}

// ---- tries ------------------------------------------------------------------

/// What was refused by a filter that let a value through, and when a filter gives up: a sample
/// is gone through up to its first 9,997 elements, behind three tries, and of anything else
/// fifty-one values are tried.
pub proof fn filters_try_so_often<H: Host>(base: StrategyNode, func: u64, us: Seq<Value>, b: Budget)
    ensures
        sifted::<H>(func, us) ==> 0 < us.len() <= 51 && judged::<H>(func, us.last(), true),
        refused_too_often::<H>(base, func, b) && !is_short_sample(base) ==> exists|vs: Seq<Value>|
            #[trigger] tried(vs) && vs.len() == 51 && all_refused::<H>(func, vs),
        forall|n: int| 0 <= n <= 9_997 ==> #[trigger] filter_reach(n) == n,
        forall|n: int| n > 9_997 ==> #[trigger] filter_reach(n) == 9_997,
{
}

/// A collection puts up with three values that it has already, or twice as many as it holds.
pub proof fn collections_are_patient(count: int)
    requires
        0 <= count,
    ensures
        patience(count) >= 3,
        patience(count) >= 2 * count,
        patience(count) == 3 || patience(count) == 2 * count,
{
}

/// What is drawn is what was chosen: a number, a truth value or a string itself, a day by its
/// number, the alternative of that place, and the element of that place.
pub proof fn values_are_what_was_chosen<H: Host>(
    node: StrategyNode,
    t: Seq<ChoiceModel>,
    v: Value,
)
    requires
        spells::<H>(node, t, v),
    ensures
        match node {
            StrategyNode::Integers { .. } => v is Int && t == seq![
                ChoiceModel::Integer(v->Int_0@),
            ],
            StrategyNode::Booleans => v is Bool && t == seq![ChoiceModel::Boolean(v->Bool_0)],
            StrategyNode::Floats { width, .. } => width == 64 ==> v is Float && t == seq![
                ChoiceModel::Float(v->Float_0),
            ],
            StrategyNode::Text { .. } => v is Text && t == seq![ChoiceModel::Text(v->Text_0@)],
            StrategyNode::Binary { .. } => v is Bytes && t == seq![ChoiceModel::Bytes(v->Bytes_0@)],
            StrategyNode::Dates { .. } => v is Date && t == seq![
                ChoiceModel::Integer(v->Date_ordinal as int),
            ],
            StrategyNode::SampledFrom { elements, .. } => t.len() == 1 && t[0] is Integer && 0
                <= t[0]->Integer_0 < elements@.len() && v == Value::Atom(
                elements@[t[0]->Integer_0],
            ),
            StrategyNode::OneOf(children) => t.len() > 0 && t[0] is Integer && 0 <= t[0]->Integer_0
                < children@.len() && spells::<H>(children@[t[0]->Integer_0], t.skip(1), v),
            StrategyNode::NoneVal => t.len() == 0 && v == Value::Atom(crate::strategy::Atom::Nil),
            StrategyNode::Just(a) => t.len() == 0 && v == Value::Atom(a),
            StrategyNode::Nothing => false,
            _ => true,
        },
{
}

/// Fractions and decimals keep to their bounds, addresses and identifiers to their widths.
pub proof fn numbers_keep_to_their_bounds(node: StrategyNode, v: Value)
    requires
        conforms(node, v),
    ensures
        match node {
            StrategyNode::Fractions { min, max, max_denom } => {
                &&& v is Fraction && 1 <= v->Fraction_den@ <= max_denom
                &&& min is Some ==> min->0.num@ * v->Fraction_den@ <= v->Fraction_num@
                    * min->0.den@
                &&& max is Some ==> v->Fraction_num@ * max->0.den@ <= max->0.num@
                    * v->Fraction_den@
            },
            StrategyNode::Decimals { min, max, .. } => {
                &&& v is Decimal
                &&& min is Some ==> min->0.num@ * v->Decimal_den@ <= v->Decimal_num@ * min->0.den@
                &&& max is Some ==> v->Decimal_num@ * max->0.den@ <= max->0.num@ * v->Decimal_den@
            },
            StrategyNode::Uuids { version, allow_nil } => v is Uuid && v->version == version && (
            allow_nil || v->Uuid_number@ > 0) && 0 <= v->Uuid_number@,
            StrategyNode::IpAddresses { v6, net_range } => {
                &&& v is Ip
                &&& v6 is Some ==> v->v6 == v6->0
                &&& net_range is Some ==> (net_range->0).0@ <= v->Ip_number@ <= (net_range->0).1@
            },
            StrategyNode::Permutations(values) => v is List && v->List_0@.len() == values@.len(),
            _ => true,
        },
{
    if node is Permutations {
        let values = node->Permutations_0@;
        let atoms = crate::drawing::atoms_of(v->List_0@);
        atoms.to_multiset_ensures();
        values.to_multiset_ensures();
        assert(atoms.len() == values.len());
    }
}

} // verus!
