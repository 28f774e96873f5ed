//! What is promised of values that are used again, and of those drawn by another engine.
use crate::drawing::{conforms, Host, Value, HALF};
use crate::floats::FloatBounds;
use crate::foreign::{
    asked_boolean, asked_bytes, asked_float, asked_integer, asked_string, forced_at,
    foreign_conforms, gave, gave_up, out_of_patience, place_answered, supported,
    ForeignData, ForeignError, FOREIGN_FILTER_TRIES,
};
use crate::hosting::{applied, judged};
use crate::integer::Int;
use crate::nodes::{reusable_in, Facts};
use crate::runner::Raised;
use crate::strategy::{Atom, StrategyNode};
use vstd::prelude::*;

verus! {

// ---- values that are used again ---------------------------------------------

/// A value that nobody can change; objects of the host are not looked into.
pub open spec fn unchangeable(v: Value) -> bool
    decreases v,
{
    match v {
        Value::List(_) | Value::Dict(_) | Value::Data => false,
        Value::Collection { frozen, .. } => frozen,
        Value::Tuple(parts) => forall|i: int|
            0 <= i < parts@.len() ==> unchangeable(#[trigger] parts@[i]),
        _ => true,
    }
}

/// No part of the strategy is shared or deferred.
pub open spec fn stands_alone(node: StrategyNode) -> bool
    decreases node,
{
    match node {
        StrategyNode::Tuples(children) => forall|i: int|
            0 <= i < children@.len() ==> stands_alone(#[trigger] children@[i]),
        StrategyNode::OneOf(children) => forall|i: int|
            0 <= i < children@.len() ==> stands_alone(#[trigger] children@[i]),
        StrategyNode::Shared { .. } | StrategyNode::Deferred { .. } => false,
        _ => true,
    }
}

/// What is used again cannot be changed.
pub proof fn values_used_again_cannot_be_changed(
    node: StrategyNode,
    facts: Facts,
    busy: Seq<u64>,
    v: Value,
)
    requires
        reusable_in(node, facts, busy),
        stands_alone(node),
        conforms(node, v),
    ensures
        unchangeable(v),
    decreases node,
{
    match node {
        StrategyNode::Tuples(children) => {
            let parts = v->Tuple_0@;
            assert forall|i: int| 0 <= i < parts.len() implies unchangeable(#[trigger] parts[i]) by {
                assert(reusable_in(children@[i], facts, busy));
                assert(stands_alone(children@[i]));
                values_used_again_cannot_be_changed(children@[i], facts, busy, parts[i]);
            }
        },
        StrategyNode::OneOf(children) => {
            let i = choose|i: int|
                0 <= i < children@.len() && conforms(#[trigger] children@[i], v);
            values_used_again_cannot_be_changed(children@[i], facts, busy, v);
        },
        _ => {},
    }
}

/// A shared strategy is as good as what it shares, a deferred one as what it turns out to be, and
/// what a function made is never used again. Strategies of one plain value each are.
pub proof fn what_is_used_again(node: StrategyNode, facts: Facts)
    ensures
        match node {
            StrategyNode::Shared { base, .. } => reusable_in(node, facts, Seq::empty())
                <==> reusable_in(*base, facts, Seq::empty()),
            StrategyNode::Deferred { thunk } => thunk < facts.thunks@.len()
                && facts.thunks@[thunk as int] is None ==> !reusable_in(node, facts, Seq::empty()),
            StrategyNode::Mapped { .. }
            | StrategyNode::Filtered { .. }
            | StrategyNode::Flatmapped { .. }
            | StrategyNode::Builds { .. }
            | StrategyNode::Composite { .. }
            | StrategyNode::Functions { .. }
            | StrategyNode::Randoms { .. }
            | StrategyNode::Foreign { .. } => !reusable_in(node, facts, Seq::empty()),
            StrategyNode::Integers { .. }
            | StrategyNode::Booleans
            | StrategyNode::Floats { .. }
            | StrategyNode::NoneVal
            | StrategyNode::Just(_)
            | StrategyNode::SampledFrom { .. }
            | StrategyNode::SampledFromRange { .. }
            | StrategyNode::Text { .. }
            | StrategyNode::Characters { .. }
            | StrategyNode::Binary { .. }
            | StrategyNode::Uuids { .. }
            | StrategyNode::Dates { .. }
            | StrategyNode::Times { .. }
            | StrategyNode::Datetimes { .. }
            | StrategyNode::Timedeltas { .. }
            | StrategyNode::ComplexNumbers { .. }
            | StrategyNode::IpAddresses { .. }
            | StrategyNode::Fractions { .. }
            | StrategyNode::Decimals { .. } => reusable_in(node, facts, Seq::empty()),
            StrategyNode::Tuples(children) => children@.len() == 1 ==> (reusable_in(
                node,
                facts,
                Seq::empty(),
            ) <==> reusable_in(children@[0], facts, Seq::empty())),
            _ => true,
        },
{
}

// ---- values drawn by another engine -----------------------------------------

/// Numbers, bytes and strings are what the other engine answered to the strategy's own bounds,
/// truth values what it answered to an even chance, and an empty strategy gives the test case up.
pub proof fn plain_draws_hand_the_bounds_on<F: ForeignData, H: Host>(
    node: StrategyNode,
    r: Result<Value, ForeignError>,
)
    requires
        gave::<F, H>(node, r),
    ensures
        match node {
            StrategyNode::NoneVal => r == Ok::<Value, ForeignError>(Value::Atom(Atom::Nil)),
            StrategyNode::Just(a) => r == Ok::<Value, ForeignError>(Value::Atom(a)),
            StrategyNode::Nothing => r is Err && r->Err_0 is Raised && gave_up::<F>(
                r->Err_0->Raised_0,
            ),
            StrategyNode::Integers { min, max } => match r {
                Ok(v) => v is Int && exists|d: &mut F| #[trigger]
                    call_ensures(
                        F::draw_integer,
                        (d, &min, &max),
                        Ok::<Int, Raised>(v->Int_0),
                    ),
                Err(e) => e is Raised && exists|d: &mut F| #[trigger]
                    call_ensures(
                        F::draw_integer,
                        (d, &min, &max),
                        Err::<Int, Raised>(e->Raised_0),
                    ),
            },
            StrategyNode::Booleans => match r {
                Ok(v) => v is Bool && exists|d: &mut F| #[trigger]
                    call_ensures(
                        F::draw_boolean,
                        (d, 0x3FE0_0000_0000_0000u64, None::<bool>),
                        Ok::<bool, Raised>(v->Bool_0),
                    ),
                Err(e) => e is Raised,
            },
            StrategyNode::Binary { min, max } => match r {
                Ok(v) => v is Bytes && exists|d: &mut F| #[trigger]
                    call_ensures(F::draw_bytes, (d, min, max), Ok::<Vec<u8>, Raised>(v->Bytes_0)),
                Err(e) => e is Raised,
            },
            StrategyNode::Text { alphabet, min, max } => match r {
                Ok(v) => v is Text && exists|d: &mut F| #[trigger]
                    call_ensures(
                        F::draw_string,
                        (d, &alphabet.members(), min, max),
                        Ok::<Vec<u32>, Raised>(v->Text_0),
                    ),
                Err(e) => e is Raised,
            },
            StrategyNode::Floats { min, max, allow_nan, snm, .. } => match r {
                Ok(v) => v is Float && exists|d: &mut F, b: FloatBounds|
                    {
                        &&& #[trigger] call_ensures(
                            F::draw_float,
                            (d, &b),
                            Ok::<u64, Raised>(v->Float_0),
                        )
                        &&& b.min_value == min && b.max_value == max && b.allow_nan == allow_nan
                        &&& b.smallest_nonzero_magnitude == snm
                    },
                Err(e) => e is Raised,
            },
            _ => true,
        },
{
    assert(HALF == 0x3FE0_0000_0000_0000u64);
    match node {
        StrategyNode::Integers { min, max } => {
            if r is Ok {
                assert(asked_integer::<F>(min, max, Ok(r->Ok_0->Int_0)));
            }
        },
        StrategyNode::Booleans => {
            if r is Ok {
                assert(asked_boolean::<F>(HALF, None, Ok(r->Ok_0->Bool_0)));
            }
        },
        StrategyNode::Binary { min, max } => {
            if r is Ok {
                assert(asked_bytes::<F>(min, max, Ok(r->Ok_0->Bytes_0)));
            }
        },
        StrategyNode::Text { alphabet, min, max } => {
            if r is Ok {
                assert(asked_string::<F>(alphabet.members(), min, max, Ok(r->Ok_0->Text_0)));
            }
        },
        StrategyNode::Floats { min, max, allow_nan, snm, .. } => {
            let b = FloatBounds {
                min_value: min,
                max_value: max,
                allow_nan,
                smallest_nonzero_magnitude: snm,
            };
            if r is Ok {
                let f = r->Ok_0->Float_0;
                assert(asked_float::<F>(b, Ok(f)));
                let d = choose|d: &mut F| #[trigger]
                    call_ensures(F::draw_float, (d, &b), Ok::<u64, Raised>(f));
                assert(call_ensures(F::draw_float, (d, &b), Ok::<u64, Raised>(f)));
            }
        },
        _ => {},
    }
}

/// A place of the other engine picks that element or alternative; one where there is nothing is a
/// mismatch.
pub proof fn places_pick_elements<F: ForeignData, H: Host>(
    node: StrategyNode,
    v: Value,
)
    requires
        gave::<F, H>(node, Ok(v)),
    ensures
        match node {
            StrategyNode::SampledFrom { elements, .. } => exists|i: int|
                0 <= i < elements@.len() && v == Value::Atom(#[trigger] elements@[i]),
            StrategyNode::OneOf(children) => exists|i: int|
                0 <= i < children@.len() && gave::<F, H>(#[trigger] children@[i], Ok(v)),
            StrategyNode::Tuples(children) => v is Tuple && v->Tuple_0@.len() == children@.len(),
            StrategyNode::Shared { base, .. } => gave::<F, H>(*base, Ok(v)),
            StrategyNode::Mapped { base, func } => exists|u: Value|
                gave::<F, H>(*base, Ok(u)) && #[trigger] applied::<H>(func, u, v),
            StrategyNode::Filtered { base, func } => judged::<H>(func, v, true) && gave::<F, H>(
                *base,
                Ok(v),
            ),
            _ => true,
        },
        forall|i: Int, n: int|
            0 <= i@ < n <= usize::MAX ==> (#[trigger] place_answered(Ok(i), n)) is Ok
                && place_answered(Ok(i), n)->Ok_0 == i@,
        forall|i: Int, n: int|
            !(0 <= i@ < n) ==> (#[trigger] place_answered(Ok(i), n)) == Err::<usize, ForeignError>(
                ForeignError::Mismatch,
            ),
        FOREIGN_FILTER_TRIES == 3,
{
    match node {
        StrategyNode::SampledFrom { elements, .. } => {
            if elements@.len() > 0 {
                let place = choose|place: Result<usize, ForeignError>| #[trigger]
                    crate::foreign::placed::<F>(elements@.len() as int, place) && match place {
                        Ok(i) => crate::drawing::is_sample(node, i as int, v),
                        Err(e) => false,
                    };
                assert(v == Value::Atom(elements@[place->Ok_0 as int]));
            }
        },
        StrategyNode::OneOf(children) => {
            if children@.len() > 0 {
                let place = choose|place: Result<usize, ForeignError>| #[trigger]
                    crate::foreign::placed::<F>(children@.len() as int, place) && match place {
                        Ok(i) => i < children@.len() && gave::<F, H>(children@[i as int], Ok(v)),
                        Err(e) => false,
                    };
                assert(gave::<F, H>(children@[place->Ok_0 as int], Ok(v)));
            }
        },
        StrategyNode::Filtered { base, func } => {
            let us = choose|us: Seq<Value>|
                {
                    &&& #[trigger] crate::reading::tried(us)
                    &&& us.len() > 0 && us.last() == v
                    &&& judged::<H>(func, v, true)
                    &&& forall|i: int|
                        0 <= i < us.len() ==> gave::<F, H>(*base, Ok(#[trigger] us[i]))
                };
            assert(gave::<F, H>(*base, Ok(us[us.len() - 1])));
        },
        _ => {},
    }
}

/// Collections drawn by another engine keep to their sizes, and hold what their parts yield.
pub proof fn collections_drawn_elsewhere_keep_their_sizes(node: StrategyNode, v: Value)
    requires
        foreign_conforms(node, v),
    ensures
        match node {
            StrategyNode::Lists { elem, min, max, swap_domain, .. } => {
                &&& v is List && v->List_0@.len() <= max
                &&& swap_domain is None ==> min <= v->List_0@.len() && forall|i: int|
                    0 <= i < v->List_0@.len() ==> foreign_conforms(*elem, #[trigger] v->List_0@[i])
            },
            StrategyNode::Sets { elem, min, max, frozen } => {
                &&& v is Collection && min <= v->items@.len() <= max && v->frozen == frozen
                &&& forall|i: int|
                    0 <= i < v->items@.len() ==> foreign_conforms(*elem, #[trigger] v->items@[i])
            },
            StrategyNode::Dictionaries { keys, values, min, max } => {
                &&& v is Dict && min <= v->Dict_0@.len() <= max
                &&& forall|i: int|
                    0 <= i < v->Dict_0@.len() ==> foreign_conforms(
                        *keys,
                        (#[trigger] v->Dict_0@[i]).key,
                    ) && foreign_conforms(*values, v->Dict_0@[i].value)
            },
            StrategyNode::Booleans => v is Bool,
            StrategyNode::Integers { .. } => v is Int,
            StrategyNode::Floats { .. } => v is Float,
            StrategyNode::Text { .. } => v is Text,
            StrategyNode::Binary { .. } => v is Bytes,
            StrategyNode::Nothing => false,
            _ => true,
        },
{
}

/// A collection below its least size goes on, one at its largest size ends, and one that passed
/// over too many values ends, too; only between is there anything to ask. Too many are more than
/// three, and more than twice as many as were kept.
pub proof fn sizes_are_forced_at_their_ends(min: u64, max: u64, count: int, tries: int)
    requires
        0 <= count <= tries,
        min <= max,
    ensures
        out_of_patience(tries, count) <==> tries - count > 3 && tries - count > 2 * count,
        forced_at(min, max, count, true) == Some(false),
        forced_at(min, max, count, false) == Some(true) <==> count < min,
        forced_at(min, max, count, false) == Some(false) <==> count >= max && count >= min,
        forced_at(min, max, count, false) is None <==> min <= count < max,
{
}

/// Strategies of one plain value, of choices, of collections, and those of functions on single
/// values can be drawn from elsewhere; those that need this engine's own machinery cannot.
pub proof fn what_can_be_drawn_elsewhere(node: StrategyNode)
    ensures
        supported(node) <==> !(node is Deferred || node is FixedDict || node is Characters || node
            is Flatmapped || node is Uuids || node is Permutations || node is Builds || node
            is Dates || node is Times || node is Datetimes || node is Timedeltas || node
            is ComplexNumbers || node is IpAddresses || node is Slices || node is Fractions || node
            is Decimals || node is Data || node is Functions || node is Randoms || node is Invalid),
{
}

} // verus!
