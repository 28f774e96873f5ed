//! Drawing from strategies against a test case of somebody else.
//!
//! Another engine may draw from a strategy of this one. The choices are then made and
//! recorded over there; what comes back is handed on as it was answered.
use crate::comparing::{key_seen_from, none_seen, seen_from, told_new, Comparing};
use crate::drawing::{
    conforms, is_sample, lists_of, note_unique, patience, sample_at, Entry, Host, Value, HALF,
};
use crate::floats::FloatBounds;
use crate::integer::Int;
use crate::intervalset::IntervalSet;
use crate::hosting::{
    all_refused, applied, compared, compared_key, distinct, distinct_by, distinct_by_all,
    distinct_keys, judged, lemma_one_more_distinct, lemma_one_more_key, lemma_one_more_unique,
    raised_by, unique,
};
use crate::provider::goes_on;
use crate::reading::{at_places, kept_of, left_of, lemma_kept, picked, tried};
use crate::runner::Raised;
use crate::strategy::{Atom, StrategyNode};
use vstd::prelude::*;

verus! {

/// A filter is tried so often here.
pub const FOREIGN_FILTER_TRIES: u32 = 3;

/// A test case of another engine.
pub trait ForeignData {
    fn draw_integer(&mut self, min: &Option<Int>, max: &Option<Int>) -> Result<Int, Raised>;

    fn draw_boolean(&mut self, p: u64, forced: Option<bool>) -> Result<bool, Raised>;

    fn draw_float(&mut self, bounds: &FloatBounds) -> Result<u64, Raised>;

    fn draw_bytes(&mut self, min_size: u64, max_size: u64) -> Result<Vec<u8>, Raised>;

    fn draw_string(&mut self, intervals: &IntervalSet, min_size: u64, max_size: u64) -> Result<
        Vec<u32>,
        Raised,
    >;

    /// Calls a function that draws as it goes.
    fn composite(&mut self, func: u64) -> Result<Value, Raised>;

    /// Draws from a strategy of the other engine.
    fn draw(&mut self, id: u64) -> Result<Value, Raised>;

    /// Gives the test case up; what that raises.
    fn mark_invalid(&mut self) -> Raised;
}

/// Why nothing was drawn.
#[derive(Debug)]
pub enum ForeignError {
    Raised(Raised),
    /// Strategies of this kind are not drawn from elsewhere.
    Unsupported,
    /// The other engine answered with a place where there is nothing.
    Mismatch,
}

/// Strategies of this kind can be drawn from elsewhere.
pub open spec fn supported(node: StrategyNode) -> bool {
    match node {
        StrategyNode::NoneVal => true,
        StrategyNode::Just(_) => true,
        StrategyNode::Nothing => true,
        StrategyNode::Integers { .. } => true,
        StrategyNode::Booleans => true,
        StrategyNode::Floats { .. } => true,
        StrategyNode::SampledFrom { .. } => true,
        StrategyNode::SampledFromRange { .. } => true,
        StrategyNode::OneOf(_) => true,
        StrategyNode::Tuples(_) => true,
        StrategyNode::Mapped { .. } => true,
        StrategyNode::Filtered { .. } => true,
        StrategyNode::Shared { .. } => true,
        StrategyNode::Binary { .. } => true,
        StrategyNode::Text { .. } => true,
        StrategyNode::Lists { .. } => true,
        StrategyNode::Sets { .. } => true,
        StrategyNode::Dictionaries { .. } => true,
        StrategyNode::Composite { .. } => true,
        StrategyNode::Foreign { .. } => true,
        _ => false,
    }
}

/// The strategy and all its parts are of a kind that can be drawn from elsewhere.
pub open spec fn supported_throughout(node: StrategyNode) -> bool
    decreases node,
{
    &&& supported(node)
    &&& match node {
        StrategyNode::OneOf(children) => forall|i: int|
            0 <= i < children@.len() ==> supported_throughout(#[trigger] children@[i]),
        StrategyNode::Tuples(children) => forall|i: int|
            0 <= i < children@.len() ==> supported_throughout(#[trigger] children@[i]),
        StrategyNode::Mapped { base, .. } => supported_throughout(*base),
        StrategyNode::Filtered { base, .. } => supported_throughout(*base),
        StrategyNode::Shared { base, .. } => supported_throughout(*base),
        StrategyNode::Lists { elem, .. } => supported_throughout(*elem),
        StrategyNode::Sets { elem, .. } => supported_throughout(*elem),
        StrategyNode::Dictionaries { keys, values, .. } => supported_throughout(*keys)
            && supported_throughout(*values),
        _ => true,
    }
}

/// What a value drawn elsewhere is. That numbers, bytes and strings keep the bounds of their
/// strategies is for the other engine to see to.
pub open spec fn foreign_conforms(node: StrategyNode, v: Value) -> bool
    decreases node,
{
    match node {
        StrategyNode::Integers { .. } => v is Int,
        StrategyNode::Floats { .. } => v is Float,
        StrategyNode::SampledFromRange { .. } => v is Int,
        StrategyNode::Binary { .. } => v is Bytes,
        StrategyNode::Text { .. } => v is Text,
        StrategyNode::OneOf(children) => exists|i: int|
            0 <= i < children@.len() && foreign_conforms(#[trigger] children@[i], v),
        StrategyNode::Tuples(children) => {
            &&& v is Tuple
            &&& v->Tuple_0@.len() == children@.len()
            &&& forall|i: int|
                0 <= i < children@.len() ==> foreign_conforms(
                    children@[i],
                    #[trigger] v->Tuple_0@[i],
                )
        },
        StrategyNode::Filtered { base, .. } => foreign_conforms(*base, v),
        StrategyNode::Shared { base, .. } => foreign_conforms(*base, v),
        StrategyNode::Lists { elem, min, max, swap_domain, .. } => {
            &&& v is List
            &&& v->List_0@.len() <= max
            &&& match swap_domain {
                Some(domain) => forall|i: int|
                    0 <= i < v->List_0@.len() ==> (#[trigger] v->List_0@[i]) is Atom
                        && domain@.contains(v->List_0@[i]->Atom_0),
                None => {
                    &&& v->List_0@.len() >= min
                    &&& forall|i: int|
                        0 <= i < v->List_0@.len() ==> foreign_conforms(
                            *elem,
                            #[trigger] v->List_0@[i],
                        )
                },
            }
        },
        StrategyNode::Sets { elem, min, max, frozen } => {
            &&& v is Collection
            &&& v->frozen == frozen
            &&& min <= v->items@.len() <= max
            &&& forall|i: int|
                0 <= i < v->items@.len() ==> foreign_conforms(*elem, #[trigger] v->items@[i])
        },
        StrategyNode::Dictionaries { keys, values, min, max } => {
            &&& v is Dict
            &&& min <= v->Dict_0@.len() <= max
            &&& forall|i: int|
                0 <= i < v->Dict_0@.len() ==> foreign_conforms(
                    *keys,
                    (#[trigger] v->Dict_0@[i]).key,
                ) && foreign_conforms(*values, v->Dict_0@[i].value)
        },
        _ => conforms(node, v),
    }
}

// ---- what the other engine answered -----------------------------------------

/// The other engine was asked for an integer, and answered.
pub open spec fn asked_integer<F: ForeignData>(
    min: Option<Int>,
    max: Option<Int>,
    answer: Result<Int, Raised>,
) -> bool {
    exists|d: &mut F| #[trigger] call_ensures(F::draw_integer, (d, &min, &max), answer)
}

/// The other engine was asked for a truth value, and answered.
pub open spec fn asked_boolean<F: ForeignData>(
    p: u64,
    forced: Option<bool>,
    answer: Result<bool, Raised>,
) -> bool {
    exists|d: &mut F| #[trigger] call_ensures(F::draw_boolean, (d, p, forced), answer)
}

/// The other engine was asked for a float, and answered.
pub open spec fn asked_float<F: ForeignData>(
    bounds: FloatBounds,
    answer: Result<u64, Raised>,
) -> bool {
    exists|d: &mut F| #[trigger] call_ensures(F::draw_float, (d, &bounds), answer)
}

/// The other engine was asked for bytes, and answered.
pub open spec fn asked_bytes<F: ForeignData>(
    min: u64,
    max: u64,
    answer: Result<Vec<u8>, Raised>,
) -> bool {
    exists|d: &mut F| #[trigger] call_ensures(F::draw_bytes, (d, min, max), answer)
}

/// The other engine was asked for a string, and answered.
pub open spec fn asked_string<F: ForeignData>(
    set: IntervalSet,
    min: u64,
    max: u64,
    answer: Result<Vec<u32>, Raised>,
) -> bool {
    exists|d: &mut F| #[trigger] call_ensures(F::draw_string, (d, &set, min, max), answer)
}

/// The other engine was asked to call a function that draws, and answered.
pub open spec fn asked_composite<F: ForeignData>(
    func: u64,
    answer: Result<Value, Raised>,
) -> bool {
    exists|d: &mut F| #[trigger] call_ensures(F::composite, (d, func), answer)
}

/// The other engine was asked for a value of its own strategy, and answered.
pub open spec fn asked_value<F: ForeignData>(id: u64, answer: Result<Value, Raised>) -> bool {
    exists|d: &mut F| #[trigger] call_ensures(F::draw, (d, id), answer)
}

/// The test case of the other engine was given up, and that raised this.
pub open spec fn gave_up<F: ForeignData>(e: Raised) -> bool {
    exists|d: &mut F| #[trigger] call_ensures(F::mark_invalid, (d,), e)
}

/// The other engine raised this while it decided how many elements there are, or because
/// there were too few.
pub open spec fn size_raised<F: ForeignData>(e: Raised) -> bool {
    ||| gave_up::<F>(e)
    ||| exists|p: u64, forced: Option<bool>, answer: Result<bool, Raised>| #[trigger]
        asked_boolean::<F>(p, forced, answer) && answer == Err::<bool, Raised>(e)
}

/// What is made of an answer that needs no check.
pub open spec fn taken_as_is(answer: Result<Value, Raised>) -> Result<Value, ForeignError> {
    match answer {
        Ok(v) => Ok(v),
        Err(e) => Err(ForeignError::Raised(e)),
    }
}

/// The other engine was asked for a place below `n`, and this is what was made of its
/// answer.
pub open spec fn placed<F: ForeignData>(n: int, r: Result<usize, ForeignError>) -> bool {
    exists|low: Int, high: Int, answer: Result<Int, Raised>|
        {
            &&& #[trigger] asked_integer::<F>(Some(low), Some(high), answer)
            &&& low@ == 0 && high@ == n - 1
            &&& r == place_answered(answer, n)
        }
}

/// What came of a draw from a strategy without parts: what the other engine was asked, and
/// what was made of its answer.
pub open spec fn simple_gave<F: ForeignData>(
    node: StrategyNode,
    r: Result<Value, ForeignError>,
) -> bool {
    match node {
        StrategyNode::NoneVal => r == Ok::<Value, ForeignError>(Value::Atom(Atom::Nil)),
        StrategyNode::Just(a) => r == Ok::<Value, ForeignError>(Value::Atom(a)),
        StrategyNode::Nothing => r is Err && r->Err_0 is Raised && gave_up::<F>(
            r->Err_0->Raised_0,
        ),
        StrategyNode::Integers { min, max } => exists|answer: Result<Int, Raised>| #[trigger]
            asked_integer::<F>(min, max, answer) && r == (match answer {
                Ok(n) => Ok(Value::Int(n)),
                Err(e) => Err(ForeignError::Raised(e)),
            }),
        StrategyNode::Booleans => exists|answer: Result<bool, Raised>| #[trigger]
            asked_boolean::<F>(HALF, None, answer) && r == (match answer {
                Ok(b) => Ok(Value::Bool(b)),
                Err(e) => Err(ForeignError::Raised(e)),
            }),
        StrategyNode::Floats { min, max, allow_nan, snm, .. } => exists|
            answer: Result<u64, Raised>,
        | #[trigger]
            asked_float::<F>(
                FloatBounds {
                    min_value: min,
                    max_value: max,
                    allow_nan,
                    smallest_nonzero_magnitude: snm,
                },
                answer,
            ) && r == (match answer {
                Ok(f) => Ok(Value::Float(f)),
                Err(e) => Err(ForeignError::Raised(e)),
            }),
        StrategyNode::SampledFrom { elements, .. } => if elements@.len() == 0 {
            r is Err && r->Err_0 is Raised && gave_up::<F>(r->Err_0->Raised_0)
        } else {
            exists|place: Result<usize, ForeignError>| #[trigger]
                placed::<F>(elements@.len() as int, place) && match place {
                    Ok(i) => r is Ok && is_sample(node, i as int, r->Ok_0),
                    Err(e) => r == Err::<Value, ForeignError>(e),
                }
        },
        StrategyNode::SampledFromRange { start, step, len, .. } => if len@ <= 0 {
            r is Err && r->Err_0 is Raised && gave_up::<F>(r->Err_0->Raised_0)
        } else {
            exists|low: Int, high: Int, answer: Result<Int, Raised>|
                {
                    &&& #[trigger] asked_integer::<F>(Some(low), Some(high), answer)
                    &&& low@ == 0 && high@ == len@ - 1
                    &&& match answer {
                        Ok(i) => r is Ok && r->Ok_0 is Int && r->Ok_0->Int_0@ == start@ + i@
                            * step@,
                        Err(e) => r == Err::<Value, ForeignError>(ForeignError::Raised(e)),
                    }
                }
        },
        StrategyNode::Binary { min, max } => exists|answer: Result<Vec<u8>, Raised>| #[trigger]
            asked_bytes::<F>(min, max, answer) && r == (match answer {
                Ok(b) => Ok(Value::Bytes(b)),
                Err(e) => Err(ForeignError::Raised(e)),
            }),
        StrategyNode::Text { alphabet, min, max } => exists|answer: Result<Vec<u32>, Raised>|
            #[trigger] asked_string::<F>(alphabet.members(), min, max, answer) && r == (match answer {
                Ok(t) => Ok(Value::Text(t)),
                Err(e) => Err(ForeignError::Raised(e)),
            }),
        _ => false,
    }
}

/// How a draw against a test case of somebody else came out: as the strategy, the other
/// engine and the host say. A place of the other engine where there is nothing is the only
/// mismatch.
pub open spec fn gave<F: ForeignData, H: Host>(
    node: StrategyNode,
    r: Result<Value, ForeignError>,
) -> bool
    decreases node,
{
    match node {
        StrategyNode::OneOf(children) => if children@.len() == 0 {
            r is Err && r->Err_0 is Raised && gave_up::<F>(r->Err_0->Raised_0)
        } else {
            exists|place: Result<usize, ForeignError>| #[trigger]
                placed::<F>(children@.len() as int, place) && match place {
                    Ok(i) => i < children@.len() && gave::<F, H>(children@[i as int], r),
                    Err(e) => r == Err::<Value, ForeignError>(e),
                }
        },
        StrategyNode::Tuples(children) => match r {
            Ok(v) => v is Tuple && v->Tuple_0@.len() == children@.len() && forall|i: int|
                0 <= i < children@.len() ==> gave::<F, H>(
                    #[trigger] children@[i],
                    Ok(v->Tuple_0@[i]),
                ),
            Err(e) => exists|i: int|
                0 <= i < children@.len() && gave::<F, H>(#[trigger] children@[i], Err(e)),
        },
        StrategyNode::Mapped { base, func } => {
            ||| r is Err && gave::<F, H>(*base, r)
            ||| exists|u: Value| #[trigger]
                on_the_way(u) && gave::<F, H>(*base, Ok(u)) && match r {
                    Ok(v) => applied::<H>(func, u, v),
                    Err(e) => e is Raised && raised_by::<H>(e->Raised_0),
                }
        },
        StrategyNode::Filtered { base, func } => exists|us: Seq<Value>|
            {
                &&& #[trigger] tried(us)
                &&& us.len() <= FOREIGN_FILTER_TRIES
                &&& forall|i: int|
                    0 <= i < us.len() ==> gave::<F, H>(*base, Ok(#[trigger] us[i]))
                &&& match r {
                    Ok(v) => us.len() > 0 && us.last() == v && all_refused::<H>(
                        func,
                        us.drop_last(),
                    ) && judged::<H>(func, v, true),
                    Err(e) => {
                        ||| us.len() == FOREIGN_FILTER_TRIES && all_refused::<H>(func, us)
                            && e is Raised && gave_up::<F>(e->Raised_0)
                        ||| us.len() < FOREIGN_FILTER_TRIES && all_refused::<H>(func, us)
                            && gave::<F, H>(*base, r)
                        ||| us.len() > 0 && all_refused::<H>(func, us.drop_last()) && e is Raised
                            && raised_by::<H>(e->Raised_0)
                    },
                }
            },
        StrategyNode::Shared { base, .. } => gave::<F, H>(*base, r),
        StrategyNode::Lists { elem, min, max, unique_by, swap_domain } => match swap_domain {
            Some(domain) => match r {
                Ok(v) => v is List && distinct::<H>(v->List_0@) && exists|places: Seq<int>|
                    #[trigger] at_places(places) && taken_out(
                        domain@,
                        places,
                        min as int,
                        max as int,
                        v->List_0@,
                    ),
                Err(e) => place_failed::<F>(e) || part_raised::<F, H>(e),
            },
            None => match r {
                Ok(v) => v is List && unique::<H>(unique_by@, v->List_0@) && forall|i: int|
                    0 <= i < v->List_0@.len() ==> gave::<F, H>(
                        *elem,
                        Ok(#[trigger] v->List_0@[i]),
                    ),
                Err(e) => gave::<F, H>(*elem, r) || part_raised::<F, H>(e),
            },
        },
        StrategyNode::Sets { elem, .. } => match r {
            Ok(v) => v is Collection && distinct::<H>(v->items@) && forall|i: int|
                0 <= i < v->items@.len() ==> gave::<F, H>(*elem, Ok(#[trigger] v->items@[i])),
            Err(e) => gave::<F, H>(*elem, r) || part_raised::<F, H>(e),
        },
        StrategyNode::Dictionaries { keys, values, .. } => match r {
            Ok(v) => v is Dict && distinct_keys::<H>(v->Dict_0@) && forall|i: int|
                0 <= i < v->Dict_0@.len() ==> gave::<F, H>(
                    *keys,
                    Ok((#[trigger] v->Dict_0@[i]).key),
                ) && gave::<F, H>(*values, Ok(v->Dict_0@[i].value)),
            Err(e) => gave::<F, H>(*keys, r) || gave::<F, H>(*values, r) || part_raised::<F, H>(
                e,
            ),
        },
        StrategyNode::Composite { func } => exists|answer: Result<Value, Raised>| #[trigger]
            asked_composite::<F>(func, answer) && r == taken_as_is(answer),
        StrategyNode::Foreign { id } => exists|answer: Result<Value, Raised>| #[trigger]
            asked_value::<F>(id, answer) && r == taken_as_is(answer),
        _ => if supported(node) {
            simple_gave::<F>(node, r)
        } else {
            r == Err::<Value, ForeignError>(ForeignError::Unsupported)
        },
    }
}

// ---- what was done, step by step --------------------------------------------

/// The test case of the other engine was given up.
pub open spec fn gave_up_from<F: ForeignData>(
    fd: spec_fn(&mut F) -> F,
    before: F,
    left: F,
    e: Raised,
) -> bool {
    exists|d: &mut F|
        #[trigger] call_ensures(F::mark_invalid, (d,), e) && *d == before && fd(d) == left
}

/// The other engine was asked for an integer, once.
pub open spec fn integer_from<F: ForeignData>(
    fd: spec_fn(&mut F) -> F,
    before: F,
    left: F,
    min: Option<Int>,
    max: Option<Int>,
    answer: Result<Int, Raised>,
) -> bool {
    exists|d: &mut F|
        #[trigger] call_ensures(F::draw_integer, (d, &min, &max), answer) && *d == before && fd(d)
            == left
}

/// The other engine was asked for a place below `n`, once.
pub open spec fn placed_from<F: ForeignData>(
    fd: spec_fn(&mut F) -> F,
    before: F,
    left: F,
    n: int,
    r: Result<usize, ForeignError>,
) -> bool {
    exists|low: Int, high: Int, answer: Result<Int, Raised>|
        {
            &&& #[trigger] integer_from(fd, before, left, Some(low), Some(high), answer)
            &&& low@ == 0 && high@ == n - 1
            &&& r == place_answered(answer, n)
        }
}

/// A strategy without parts was drawn from: the other engine was asked one thing, or nothing.
pub open spec fn simple_moved<F: ForeignData>(
    fd: spec_fn(&mut F) -> F,
    before: F,
    left: F,
    node: StrategyNode,
    r: Result<Value, ForeignError>,
) -> bool {
    match node {
        StrategyNode::NoneVal => before == left,
        StrategyNode::Just(_) => before == left,
        StrategyNode::Integers { min, max } => exists|answer: Result<Int, Raised>| #[trigger]
            integer_from(fd, before, left, min, max, answer),
        StrategyNode::SampledFrom { elements, .. } if elements@.len() > 0 => exists|
            place: Result<usize, ForeignError>,
        | #[trigger]
            placed_from(fd, before, left, elements@.len() as int, place),
        StrategyNode::SampledFromRange { len, .. } if len@ > 0 => exists|
            low: Int,
            high: Int,
            answer: Result<Int, Raised>,
        | #[trigger]
            integer_from(fd, before, left, Some(low), Some(high), answer) && low@ == 0 && high@
                == len@ - 1,
        StrategyNode::Booleans => exists|d: &mut F, answer: Result<bool, Raised>|
            #[trigger] call_ensures(F::draw_boolean, (d, HALF, None), answer) && *d == before
                && fd(d) == left,
        StrategyNode::Floats { min, max, allow_nan, snm, .. } => exists|
            d: &mut F,
            answer: Result<u64, Raised>,
        |
            #[trigger] call_ensures(
                F::draw_float,
                (
                    d,
                    &(FloatBounds {
                        min_value: min,
                        max_value: max,
                        allow_nan,
                        smallest_nonzero_magnitude: snm,
                    }),
                ),
                answer,
            ) && *d == before && fd(d) == left,
        StrategyNode::Binary { min, max } => exists|d: &mut F, answer: Result<Vec<u8>, Raised>|
            #[trigger] call_ensures(F::draw_bytes, (d, min, max), answer) && *d == before && fd(d)
                == left,
        StrategyNode::Text { alphabet, min, max } => exists|
            d: &mut F,
            answer: Result<Vec<u32>, Raised>,
        |
            #[trigger] call_ensures(
                F::draw_string,
                (d, &alphabet.members(), min, max),
                answer,
            ) && *d == before && fd(d) == left,
        _ => r is Err && r->Err_0 is Raised && gave_up_from(fd, before, left, r->Err_0->Raised_0),
    }
}

/// The host applied a function, once.
pub open spec fn applied_from<H: Host>(
    fh: spec_fn(&mut H) -> H,
    before: H,
    left: H,
    func: u64,
    u: Value,
    answer: Result<Value, Raised>,
) -> bool {
    exists|h: &mut H|
        #[trigger] call_ensures(H::apply, (h, func, u), answer) && *h == before && fh(h) == left
}

/// The host was asked whether a function accepts a value, once.
pub open spec fn judged_from<H: Host>(
    fh: spec_fn(&mut H) -> H,
    before: H,
    left: H,
    func: u64,
    v: Value,
    answer: Result<bool, Raised>,
) -> bool {
    exists|h: &mut H|
        #[trigger] call_ensures(H::accepts, (h, func, &v), answer) && *h == before && fh(h) == left
}

/// Marks a state on the way.
pub open spec fn passing<F, H>(d: F, h: H) -> bool {
    true
}

/// How the other engine and the host came from one state to another while a value was drawn:
/// what was asked of them, each question once, and nothing else.
pub open spec fn moved<F: ForeignData, H: Host>(
    fd: spec_fn(&mut F) -> F,
    fh: spec_fn(&mut H) -> H,
    d0: F,
    d1: F,
    h0: H,
    h1: H,
    node: StrategyNode,
    r: Result<Value, ForeignError>,
) -> bool
    decreases node, 2nat, 0nat,
{
    match node {
        StrategyNode::OneOf(children) => if children@.len() == 0 {
            h0 == h1 && r is Err && r->Err_0 is Raised && gave_up_from(
                fd,
                d0,
                d1,
                r->Err_0->Raised_0,
            )
        } else {
            exists|d: F, place: Result<usize, ForeignError>| #[trigger]
                placed_from(fd, d0, d, children@.len() as int, place) && match place {
                    Ok(i) => i < children@.len() && moved(
                        fd,
                        fh,
                        d,
                        d1,
                        h0,
                        h1,
                        children@[i as int],
                        r,
                    ),
                    Err(e) => d == d1 && h0 == h1 && r == Err::<Value, ForeignError>(e),
                }
        },
        StrategyNode::Tuples(children) => match r {
            Ok(v) => v is Tuple && v->Tuple_0@.len() == children@.len() && moved_each(
                fd,
                fh,
                d0,
                d1,
                h0,
                h1,
                children@,
                v->Tuple_0@,
            ),
            Err(e) => moved_part(fd, fh, d0, d1, h0, h1, children@, e),
        },
        StrategyNode::Mapped { base, func } => {
            ||| r is Err && moved(fd, fh, d0, d1, h0, h1, *base, r)
            ||| exists|u: Value, h: H, answer: Result<Value, Raised>| #[trigger]
                applied_from(fh, h, h1, func, u, answer) && r == taken_as_is(answer) && moved(
                    fd,
                    fh,
                    d0,
                    d1,
                    h0,
                    h,
                    *base,
                    Ok(u),
                )
        },
        StrategyNode::Filtered { base, func } => exists|us: Seq<Value>, d: F, h: H|
            {
                &&& #[trigger] tried(us) && #[trigger] passing(d, h)
                &&& us.len() <= FOREIGN_FILTER_TRIES
                &&& refused_each(fd, fh, d0, d, h0, h, *base, func, us)
                &&& if us.len() == FOREIGN_FILTER_TRIES {
                    h == h1 && r is Err && r->Err_0 is Raised && gave_up_from(
                        fd,
                        d,
                        d1,
                        r->Err_0->Raised_0,
                    )
                } else {
                    ||| r is Err && moved(fd, fh, d, d1, h, h1, *base, r)
                    ||| exists|v: Value, g: H, answer: Result<bool, Raised>| #[trigger]
                        judged_from(fh, g, h1, func, v, answer) && moved(
                            fd,
                            fh,
                            d,
                            d1,
                            h,
                            g,
                            *base,
                            Ok(v),
                        ) && match answer {
                            Ok(yes) => yes && r == Ok::<Value, ForeignError>(v),
                            Err(e) => r == Err::<Value, ForeignError>(ForeignError::Raised(e)),
                        }
                }
            },
        StrategyNode::Shared { base, .. } => moved(fd, fh, d0, d1, h0, h1, *base, r),
        StrategyNode::Composite { func } => h0 == h1 && exists|
            d: &mut F,
            answer: Result<Value, Raised>,
        |
            #[trigger] call_ensures(F::composite, (d, func), answer) && *d == d0 && fd(d) == d1,
        StrategyNode::Foreign { id } => h0 == h1 && exists|
            d: &mut F,
            answer: Result<Value, Raised>,
        |
            #[trigger] call_ensures(F::draw, (d, id), answer) && *d == d0 && fd(d) == d1,
        StrategyNode::Lists { elem, min, max, unique_by, swap_domain } => match swap_domain {
            Some(domain) => domain_listed(fd, fh, d0, d1, h0, h1, domain@, min, max, list_of(r)),
            None => listed(
                fd,
                fh,
                d0,
                d1,
                h0,
                h1,
                *elem,
                Comparing::Keys(unique_by@),
                min,
                max,
                list_of(r),
            ),
        },
        StrategyNode::Sets { elem, min, max, .. } => listed(
            fd,
            fh,
            d0,
            d1,
            h0,
            h1,
            *elem,
            Comparing::Values,
            min,
            max,
            list_of(r),
        ),
        StrategyNode::Dictionaries { .. } => entries_listed(fd, fh, d0, d1, h0, h1, node, r),
        _ => h0 == h1 && if supported(node) {
            simple_moved(fd, d0, d1, node, r)
        } else {
            d0 == d1
        },
    }
}

/// Values were drawn from the first strategies, one from each.
pub open spec fn moved_each<F: ForeignData, H: Host>(
    fd: spec_fn(&mut F) -> F,
    fh: spec_fn(&mut H) -> H,
    d0: F,
    d1: F,
    h0: H,
    h1: H,
    children: Seq<StrategyNode>,
    vs: Seq<Value>,
) -> bool
    decreases children, 3nat, vs.len(),
{
    if vs.len() == 0 {
        d0 == d1 && h0 == h1
    } else {
        vs.len() <= children.len() && exists|d: F, h: H|
            {
                &&& #[trigger] passing(d, h)
                &&& moved_each(fd, fh, d0, d, h0, h, children, vs.drop_last())
                &&& moved(fd, fh, d, d1, h, h1, children[vs.len() - 1], Ok(vs.last()))
            }
    }
}

/// Values were drawn from the first strategies, and the draw from the next one failed.
pub open spec fn moved_part<F: ForeignData, H: Host>(
    fd: spec_fn(&mut F) -> F,
    fh: spec_fn(&mut H) -> H,
    d0: F,
    d1: F,
    h0: H,
    h1: H,
    children: Seq<StrategyNode>,
    e: ForeignError,
) -> bool
    decreases children, 4nat, 0nat,
{
    exists|vs: Seq<Value>, d: F, h: H|
        {
            &&& #[trigger] tried(vs) && #[trigger] passing(d, h)
            &&& vs.len() < children.len()
            &&& moved_each(fd, fh, d0, d, h0, h, children, vs)
            &&& moved(fd, fh, d, d1, h, h1, children[vs.len() as int], Err(e))
        }
}

/// The host was asked how likely a list of these sizes goes on, unless there is but one size.
pub open spec fn likelihood_from<H: Host>(
    fh: spec_fn(&mut H) -> H,
    before: H,
    left: H,
    min: u64,
    max: u64,
    p: u64,
) -> bool {
    if min == max {
        before == left && p == 0
    } else {
        exists|h: &mut H|
            #[trigger] call_ensures(H::p_continue, (h, min, max), p) && *h == before && fh(h)
                == left
    }
}

/// What is forced where a collection of so many elements may go on or end. `spent` says that
/// too much was passed over.
pub open spec fn forced_at(min: u64, max: u64, count: int, spent: bool) -> Option<bool> {
    if spent {
        Some(false)
    } else if count < min {
        Some(true)
    } else if count >= max {
        Some(false)
    } else {
        None
    }
}

/// More values were passed over than there is patience for.
pub open spec fn out_of_patience(tried: int, kept: int) -> bool {
    tried - kept > patience(kept)
}

/// The other engine was asked whether a collection of so many elements goes on, unless there
/// is but one size.
pub open spec fn more_from<F: ForeignData>(
    fd: spec_fn(&mut F) -> F,
    before: F,
    left: F,
    min: u64,
    max: u64,
    p: u64,
    count: int,
    spent: bool,
    r: Result<bool, Raised>,
) -> bool {
    if min == max {
        before == left && r == Ok::<bool, Raised>(count < min)
    } else {
        exists|d: &mut F, answer: Result<bool, Raised>|
            {
                &&& #[trigger] call_ensures(
                    F::draw_boolean,
                    (d, p, forced_at(min, max, count, spent)),
                    answer,
                )
                &&& *d == before && fd(d) == left
                &&& r == (match (answer, forced_at(min, max, count, spent)) {
                    (Ok(_), Some(b)) => Ok(b),
                    (a, _) => a,
                })
            }
    }
}

/// The elements of a list or set that was drawn.
pub open spec fn list_of(r: Result<Value, ForeignError>) -> Result<Seq<Value>, ForeignError> {
    match r {
        Ok(Value::List(vs)) => Ok(vs@),
        Ok(v) => Ok(v->items@),
        Err(e) => Err(e),
    }
}

/// Marks keys that were seen.
pub open spec fn keys_kept(seen: Seq<Seq<Value>>) -> bool {
    true
}

/// Values were drawn one after the other, and `vs` are those that were new when they came;
/// `seen` are their keys. The others were passed over, and there was patience for them.
pub open spec fn drawn_in_turn<F: ForeignData, H: Host>(
    fd: spec_fn(&mut F) -> F,
    fh: spec_fn(&mut H) -> H,
    d0: F,
    d1: F,
    h0: H,
    h1: H,
    elem: StrategyNode,
    how: Comparing,
    min: u64,
    max: u64,
    p: u64,
    us: Seq<Value>,
    vs: Seq<Value>,
    seen: Seq<Seq<Value>>,
) -> bool
    decreases elem, 3nat, us.len(),
{
    if us.len() == 0 {
        d0 == d1 && h0 == h1 && vs.len() == 0 && seen == none_seen(how)
    } else {
        exists|d: F, h: H, g: F, k: H, kept: Seq<Value>, known: Seq<Seq<Value>>, new: bool|
            {
                &&& #[trigger] passing(d, h)
                &&& #[trigger] more_from(
                    fd,
                    d,
                    g,
                    min,
                    max,
                    p,
                    kept.len() as int,
                    out_of_patience(us.len() - 1, kept.len() as int),
                    Ok(true),
                )
                &&& #[trigger] told_new(fh, k, h1, how, kept, known, us.last(), seen, Ok(new))
                &&& vs == if new {
                    kept.push(us.last())
                } else {
                    kept
                }
                &&& !new ==> !(out_of_patience(us.len() as int, vs.len() as int) && vs.len() < min)
                &&& drawn_in_turn(
                    fd,
                    fh,
                    d0,
                    d,
                    h0,
                    h,
                    elem,
                    how,
                    min,
                    max,
                    p,
                    us.drop_last(),
                    kept,
                    known,
                )
                &&& moved(fd, fh, g, d1, h, k, elem, Ok(us.last()))
            }
    }
}

/// The next element could not be had: the draw failed, the host could not compare it, or it
/// was not new and there was no more patience, with too few elements.
pub open spec fn element_failed<F: ForeignData, H: Host>(
    fd: spec_fn(&mut F) -> F,
    fh: spec_fn(&mut H) -> H,
    d0: F,
    d1: F,
    h0: H,
    h1: H,
    elem: StrategyNode,
    how: Comparing,
    min: u64,
    tries: int,
    vs: Seq<Value>,
    seen: Seq<Seq<Value>>,
    e: ForeignError,
) -> bool
    decreases elem, 3nat, 0nat,
{
    ||| moved(fd, fh, d0, d1, h0, h1, elem, Err(e))
    ||| e is Raised && exists|u: Value, k: H| #[trigger]
        told_new(fh, k, h1, how, vs, seen, u, seen, Err(e->Raised_0)) && moved(
            fd,
            fh,
            d0,
            d1,
            h0,
            k,
            elem,
            Ok(u),
        )
    ||| e is Raised && exists|u: Value, k: H, d: F|
        {
            &&& #[trigger] told_new(fh, k, h1, how, vs, seen, u, seen, Ok(false))
            &&& #[trigger] gave_up_from(fd, d, d1, e->Raised_0)
            &&& vs.len() < min && out_of_patience(tries + 1, vs.len() as int)
            &&& moved(fd, fh, d0, d, h0, k, elem, Ok(u))
        }
}

/// A list or a set was drawn: its elements one after the other, as long as the other engine
/// wanted more.
pub open spec fn listed<F: ForeignData, H: Host>(
    fd: spec_fn(&mut F) -> F,
    fh: spec_fn(&mut H) -> H,
    d0: F,
    d1: F,
    h0: H,
    h1: H,
    elem: StrategyNode,
    how: Comparing,
    min: u64,
    max: u64,
    r: Result<Seq<Value>, ForeignError>,
) -> bool
    decreases elem, 4nat, 0nat,
{
    exists|p: u64, k: H, us: Seq<Value>, vs: Seq<Value>, seen: Seq<Seq<Value>>, d: F, h: H|
        {
            &&& #[trigger] likelihood_from(fh, h0, k, min, max, p)
            &&& #[trigger] tried(us) && #[trigger] tried(vs) && #[trigger] keys_kept(seen)
            &&& #[trigger] passing(d, h)
            &&& drawn_in_turn(fd, fh, d0, d, k, h, elem, how, min, max, p, us, vs, seen)
            &&& listed_at(fd, fh, d, d1, h, h1, elem, how, min, max, p, us, vs, seen, r)
        }
}

/// How a list or a set ended behind its elements.
pub open spec fn listed_at<F: ForeignData, H: Host>(
    fd: spec_fn(&mut F) -> F,
    fh: spec_fn(&mut H) -> H,
    d0: F,
    d1: F,
    h0: H,
    h1: H,
    elem: StrategyNode,
    how: Comparing,
    min: u64,
    max: u64,
    p: u64,
    us: Seq<Value>,
    vs: Seq<Value>,
    seen: Seq<Seq<Value>>,
    r: Result<Seq<Value>, ForeignError>,
) -> bool
    decreases elem, 3nat, 1nat,
{
    let spent = out_of_patience(us.len() as int, vs.len() as int);
    match r {
        Ok(v) => v == vs && h0 == h1 && more_from(
            fd,
            d0,
            d1,
            min,
            max,
            p,
            vs.len() as int,
            spent,
            Ok(false),
        ),
        Err(e) => {
            ||| h0 == h1 && e is Raised && more_from(
                fd,
                d0,
                d1,
                min,
                max,
                p,
                vs.len() as int,
                spent,
                Err(e->Raised_0),
            )
            ||| exists|g: F| #[trigger]
                more_from(fd, d0, g, min, max, p, vs.len() as int, spent, Ok(true))
                    && element_failed(
                    fd,
                    fh,
                    g,
                    d1,
                    h0,
                    h1,
                    elem,
                    how,
                    min,
                    us.len() as int,
                    vs,
                    seen,
                    e,
                )
        },
    }
}

/// Elements were taken out of a domain one after the other, and `vs` are those that were new
/// when they came.
pub open spec fn taken_in_turn<F: ForeignData, H: Host>(
    fd: spec_fn(&mut F) -> F,
    fh: spec_fn(&mut H) -> H,
    d0: F,
    d1: F,
    h0: H,
    h1: H,
    domain: Seq<Atom>,
    min: u64,
    max: u64,
    p: u64,
    places: Seq<int>,
    vs: Seq<Value>,
) -> bool
    decreases places.len(),
{
    if places.len() == 0 {
        d0 == d1 && h0 == h1 && vs.len() == 0
    } else {
        let v = picked(domain, places).last();
        exists|d: F, h: H, g: F, kept: Seq<Value>, known: bool|
            {
                &&& #[trigger] passing(d, h)
                &&& #[trigger] more_from(
                    fd,
                    d,
                    g,
                    min,
                    max,
                    p,
                    kept.len() as int,
                    out_of_patience(places.len() - 1, kept.len() as int),
                    Ok(true),
                )
                &&& #[trigger] seen_from(fh, h, h1, kept, v, Ok(known))
                &&& placed_from(
                    fd,
                    g,
                    d1,
                    domain.len() - places.len() + 1,
                    Ok(places.last() as usize),
                )
                &&& 0 <= places.last() < domain.len() - places.len() + 1
                &&& vs == if known {
                    kept
                } else {
                    kept.push(v)
                }
                &&& known ==> !(out_of_patience(places.len() as int, vs.len() as int) && vs.len()
                    < min)
                &&& taken_in_turn(
                    fd,
                    fh,
                    d0,
                    d,
                    h0,
                    h,
                    domain,
                    min,
                    max,
                    p,
                    places.drop_last(),
                    kept,
                )
            }
    }
}

/// A list without repetitions was drawn from a domain: elements were taken out as long as
/// there were any and the other engine wanted more.
pub open spec fn domain_listed<F: ForeignData, H: Host>(
    fd: spec_fn(&mut F) -> F,
    fh: spec_fn(&mut H) -> H,
    d0: F,
    d1: F,
    h0: H,
    h1: H,
    domain: Seq<Atom>,
    min: u64,
    max: u64,
    r: Result<Seq<Value>, ForeignError>,
) -> bool {
    exists|p: u64, k: H, places: Seq<int>, vs: Seq<Value>, d: F, h: H|
        {
            &&& #[trigger] likelihood_from(fh, h0, k, min, max, p)
            &&& #[trigger] taken_in_turn(
                fd,
                fh,
                d0,
                d,
                k,
                h,
                domain,
                min,
                max,
                p,
                places,
                vs,
            )
            &&& domain_ended(fd, fh, d, d1, h, h1, domain, min, max, p, places, vs, r)
        }
}

/// How a list from a domain ended behind its elements.
pub open spec fn domain_ended<F: ForeignData, H: Host>(
    fd: spec_fn(&mut F) -> F,
    fh: spec_fn(&mut H) -> H,
    d0: F,
    d1: F,
    h0: H,
    h1: H,
    domain: Seq<Atom>,
    min: u64,
    max: u64,
    p: u64,
    places: Seq<int>,
    vs: Seq<Value>,
    r: Result<Seq<Value>, ForeignError>,
) -> bool {
    let spent = out_of_patience(places.len() as int, vs.len() as int);
    let left = domain.len() - places.len();
    match r {
        Ok(v) => v == vs && h0 == h1 && if left == 0 {
            d0 == d1
        } else {
            more_from(fd, d0, d1, min, max, p, vs.len() as int, spent, Ok(false))
        },
        Err(e) => left > 0 && {
            ||| h0 == h1 && e is Raised && more_from(
                fd,
                d0,
                d1,
                min,
                max,
                p,
                vs.len() as int,
                spent,
                Err(e->Raised_0),
            )
            ||| exists|g: F| #[trigger]
                more_from(fd, d0, g, min, max, p, vs.len() as int, spent, Ok(true))
                    && taking_failed(fd, fh, g, d1, h0, h1, domain, min, places, vs, e)
        },
    }
}

/// The next element could not be had from a domain: there was no place for it, the host could
/// not compare it, or it was not new and there was no more patience, with too few elements.
pub open spec fn taking_failed<F: ForeignData, H: Host>(
    fd: spec_fn(&mut F) -> F,
    fh: spec_fn(&mut H) -> H,
    d0: F,
    d1: F,
    h0: H,
    h1: H,
    domain: Seq<Atom>,
    min: u64,
    places: Seq<int>,
    vs: Seq<Value>,
    e: ForeignError,
) -> bool {
    let left = domain.len() - places.len();
    ||| h0 == h1 && placed_from(fd, d0, d1, left, Err(e))
    ||| e is Raised && exists|i: usize|
        {
            &&& i < left
            &&& #[trigger] placed_from(fd, d0, d1, left, Ok(i))
            &&& seen_from(
                fh,
                h0,
                h1,
                vs,
                picked(domain, places.push(i as int)).last(),
                Err(e->Raised_0),
            )
        }
    ||| e is Raised && exists|i: usize, d: F|
        {
            &&& i < left
            &&& #[trigger] placed_from(fd, d0, d, left, Ok(i))
            &&& #[trigger] gave_up_from(fd, d, d1, e->Raised_0)
            &&& seen_from(
                fh,
                h0,
                h1,
                vs,
                picked(domain, places.push(i as int)).last(),
                Ok(true),
            )
            &&& vs.len() < min && out_of_patience(places.len() as int + 1, vs.len() as int)
        }
}

/// Entries were drawn one after the other, and `vs` are those whose keys were new when they
/// came. The others were passed over, and there was patience for them.
pub open spec fn entries_in_turn<F: ForeignData, H: Host>(
    fd: spec_fn(&mut F) -> F,
    fh: spec_fn(&mut H) -> H,
    d0: F,
    d1: F,
    h0: H,
    h1: H,
    node: StrategyNode,
    p: u64,
    us: Seq<Entry>,
    vs: Seq<Entry>,
) -> bool
    decreases node, 0nat, us.len(),
{
    match node {
        StrategyNode::Dictionaries { keys, values, min, max } => if us.len() == 0 {
            d0 == d1 && h0 == h1 && vs.len() == 0
        } else {
            exists|d: F, h: H, g: F, x: F, y: H, k: H, kept: Seq<Entry>, known: bool|
                {
                    &&& #[trigger] passing(d, h) && #[trigger] passing(x, y)
                    &&& #[trigger] more_from(
                        fd,
                        d,
                        g,
                        min,
                        max,
                        p,
                        kept.len() as int,
                        out_of_patience(us.len() - 1, kept.len() as int),
                        Ok(true),
                    )
                    &&& #[trigger] key_seen_from(fh, k, h1, kept, us.last().key, Ok(known))
                    &&& vs == if known {
                        kept
                    } else {
                        kept.push(us.last())
                    }
                    &&& known ==> !(out_of_patience(us.len() as int, vs.len() as int) && vs.len()
                        < min)
                    &&& entries_in_turn(fd, fh, d0, d, h0, h, node, p, us.drop_last(), kept)
                    &&& moved(fd, fh, g, x, h, y, *keys, Ok(us.last().key))
                    &&& moved(fd, fh, x, d1, y, k, *values, Ok(us.last().value))
                }
        },
        _ => false,
    }
}

/// The next entry could not be had: a draw failed, the host could not compare the key, or it
/// was not new and there was no more patience, with too few entries.
pub open spec fn entry_failed<F: ForeignData, H: Host>(
    fd: spec_fn(&mut F) -> F,
    fh: spec_fn(&mut H) -> H,
    d0: F,
    d1: F,
    h0: H,
    h1: H,
    node: StrategyNode,
    tries: int,
    vs: Seq<Entry>,
    e: ForeignError,
) -> bool
    decreases node, 0nat, 0nat,
{
    match node {
        StrategyNode::Dictionaries { keys, values, min, .. } => {
            ||| moved(fd, fh, d0, d1, h0, h1, *keys, Err(e))
            ||| exists|key: Value, x: F, y: H| #[trigger]
                on_the_way(key) && #[trigger] passing(x, y) && moved(
                    fd,
                    fh,
                    d0,
                    x,
                    h0,
                    y,
                    *keys,
                    Ok(key),
                ) && moved(fd, fh, x, d1, y, h1, *values, Err(e))
            ||| e is Raised && exists|u: Entry, x: F, y: H, k: H, d: F|
                {
                    &&& #[trigger] passing(x, y) && #[trigger] passing(d, k)
                    &&& #[trigger] entry_drawn(u)
                    &&& moved(fd, fh, d0, x, h0, y, *keys, Ok(u.key))
                    &&& moved(fd, fh, x, d, y, k, *values, Ok(u.value))
                    &&& {
                        ||| d == d1 && key_seen_from(fh, k, h1, vs, u.key, Err(e->Raised_0))
                        ||| key_seen_from(fh, k, h1, vs, u.key, Ok(true)) && vs.len() < min
                            && out_of_patience(tries + 1, vs.len() as int) && gave_up_from(
                            fd,
                            d,
                            d1,
                            e->Raised_0,
                        )
                    }
                }
        },
        _ => false,
    }
}

/// Marks an entry that was drawn.
pub open spec fn entry_drawn(u: Entry) -> bool {
    true
}

/// Marks entries that were drawn.
pub open spec fn entries_drawn(us: Seq<Entry>) -> bool {
    true
}

/// A dictionary was drawn: its entries one after the other, as long as the other engine wanted
/// more.
pub open spec fn entries_listed<F: ForeignData, H: Host>(
    fd: spec_fn(&mut F) -> F,
    fh: spec_fn(&mut H) -> H,
    d0: F,
    d1: F,
    h0: H,
    h1: H,
    node: StrategyNode,
    r: Result<Value, ForeignError>,
) -> bool
    decreases node, 1nat, 1nat,
{
    match node {
        StrategyNode::Dictionaries { min, max, .. } => exists|
            p: u64,
            k: H,
            us: Seq<Entry>,
            vs: Seq<Entry>,
            d: F,
            h: H,
        |
            {
                &&& #[trigger] likelihood_from(fh, h0, k, min, max, p)
                &&& #[trigger] entries_drawn(us) && #[trigger] entries_drawn(vs)
                &&& #[trigger] passing(d, h)
                &&& entries_in_turn(fd, fh, d0, d, k, h, node, p, us, vs)
                &&& entries_ended(fd, fh, d, d1, h, h1, node, p, us, vs, r)
            },
        _ => false,
    }
}

/// How a dictionary ended behind its entries.
pub open spec fn entries_ended<F: ForeignData, H: Host>(
    fd: spec_fn(&mut F) -> F,
    fh: spec_fn(&mut H) -> H,
    d0: F,
    d1: F,
    h0: H,
    h1: H,
    node: StrategyNode,
    p: u64,
    us: Seq<Entry>,
    vs: Seq<Entry>,
    r: Result<Value, ForeignError>,
) -> bool
    decreases node, 1nat, 0nat,
{
    match node {
        StrategyNode::Dictionaries { min, max, .. } => {
            let spent = out_of_patience(us.len() as int, vs.len() as int);
            let n = vs.len() as int;
            match r {
                Ok(v) => v is Dict && v->Dict_0@ == vs && h0 == h1 && more_from(
                    fd,
                    d0,
                    d1,
                    min,
                    max,
                    p,
                    n,
                    spent,
                    Ok(false),
                ),
                Err(e) => {
                    ||| h0 == h1 && e is Raised && more_from(
                        fd,
                        d0,
                        d1,
                        min,
                        max,
                        p,
                        n,
                        spent,
                        Err(e->Raised_0),
                    )
                    ||| exists|g: F| #[trigger]
                        more_from(fd, d0, g, min, max, p, n, spent, Ok(true)) && entry_failed(
                            fd,
                            fh,
                            g,
                            d1,
                            h0,
                            h1,
                            node,
                            us.len() as int,
                            vs,
                            e,
                        )
                },
            }
        },
        _ => false,
    }
}

/// Values were drawn from a strategy, and each one was refused when it came.
pub open spec fn refused_each<F: ForeignData, H: Host>(
    fd: spec_fn(&mut F) -> F,
    fh: spec_fn(&mut H) -> H,
    d0: F,
    d1: F,
    h0: H,
    h1: H,
    base: StrategyNode,
    func: u64,
    us: Seq<Value>,
) -> bool
    decreases base, 3nat, us.len(),
{
    if us.len() == 0 {
        d0 == d1 && h0 == h1
    } else {
        exists|d: F, h: H, g: H|
            {
                &&& #[trigger] passing(d, h)
                &&& #[trigger] judged_from(fh, g, h1, func, us.last(), Ok(false))
                &&& refused_each(fd, fh, d0, d, h0, h, base, func, us.drop_last())
                &&& moved(fd, fh, d, d1, h, g, base, Ok(us.last()))
            }
    }
}

/// A place could not be had from the other engine.
pub open spec fn place_failed<F: ForeignData>(e: ForeignError) -> bool {
    exists|n: int| #[trigger] placed::<F>(n, Err(e))
}

/// The error was raised by the other engine, when it decided on a size, or by the host,
/// when it compared values.
pub open spec fn part_raised<F: ForeignData, H: Host>(e: ForeignError) -> bool {
    e is Raised && (size_raised::<F>(e->Raised_0) || raised_by::<H>(e->Raised_0))
}

/// Marks a value that was drawn on the way.
pub open spec fn on_the_way(u: Value) -> bool {
    true
}

/// Decides how many elements a collection gets that is drawn elsewhere.
#[derive(Debug)]
pub struct ForeignMany {
    pub min_size: u64,
    pub max_size: u64,
    pub p_continue: u64,
    pub count: u64,
    pub rejections: u128,
    pub force_stop: bool,
}

impl ForeignMany {
    pub open spec fn wf(&self) -> bool {
        &&& self.min_size <= self.max_size
        &&& self.count <= self.max_size
        &&& self.rejections <= patience(self.max_size as int) + 1
        &&& self.force_stop ==> self.count >= self.min_size
        &&& !self.force_stop ==> self.rejections <= patience(self.max_size as int)
    }

    pub open spec fn steps_left(&self) -> int {
        (self.max_size - self.count) + (patience(self.max_size as int) + 2 - self.rejections)
    }

    fn new<H: Host>(host: &mut H, min_size: u64, max_size: u64) -> (r: ForeignMany)
        requires
            min_size <= max_size,
        ensures
            r.wf(),
            r.count == 0,
            r.rejections == 0,
            r.min_size == min_size,
            r.max_size == max_size,
            !r.force_stop,
            min_size != max_size ==> goes_on::<H>(min_size, max_size, r.p_continue),
            likelihood_from(
                |h: &mut H| *final(h),
                *old(host),
                *final(host),
                min_size,
                max_size,
                r.p_continue,
            ),
    {
        let p_continue: u64 = if min_size == max_size {
            0
        } else {
            host.p_continue(min_size, max_size)
        };
        ForeignMany { min_size, max_size, p_continue, count: 0, rejections: 0, force_stop: false }
    }

    /// Whether there is another element. The other engine is asked unless the sizes
    /// are the same, and decides only where they leave it open.
    fn more_foreign<F: ForeignData>(&mut self, data: &mut F) -> (r: Result<bool, Raised>)
        requires
            old(self).wf(),
        ensures
            final(self).wf(),
            final(self).min_size == old(self).min_size,
            final(self).max_size == old(self).max_size,
            final(self).rejections == old(self).rejections,
            final(self).force_stop == old(self).force_stop,
            r is Ok && r->Ok_0 ==> final(self).count == old(self).count + 1 && !final(
                self).force_stop,
            !(r is Ok && r->Ok_0) ==> final(self).count == old(self).count,
            r is Ok && !r->Ok_0 ==> final(self).count >= final(self).min_size,
            r is Ok && old(self).count < old(self).min_size && !old(self).force_stop ==> r->Ok_0,
            r is Ok && old(self).count >= old(self).max_size ==> !r->Ok_0,
            old(self).min_size == old(self).max_size ==> r is Ok,
            r is Err ==> size_raised::<F>(r->Err_0),
            final(self).p_continue == old(self).p_continue,
            more_from(
                |d: &mut F| *final(d),
                *old(data),
                *final(data),
                old(self).min_size,
                old(self).max_size,
                old(self).p_continue,
                old(self).count as int,
                old(self).force_stop,
                r,
            ),
    {
        if self.min_size == self.max_size {
            let cont = self.count < self.min_size;
            if cont {
                self.count = self.count + 1;
            }
            return Ok(cont);
        }
        let forced: Option<bool> = if self.force_stop {
            Some(false)
        } else if self.count < self.min_size {
            Some(true)
        } else if self.count >= self.max_size {
            Some(false)
        } else {
            None
        };
        let reply = data.draw_boolean(self.p_continue, forced);
        assert(asked_boolean::<F>(self.p_continue, forced, reply));
        let answer = match reply {
            Ok(b) => b,
            Err(e) => {
                return Err(e);
            },
        };
        let cont = match forced {
            Some(b) => b,
            None => answer,
        };
        if cont {
            self.count = self.count + 1;
        }
        Ok(cont)
    }

    /// Takes back the element just announced.
    fn reject_foreign<F: ForeignData>(&mut self, data: &mut F) -> (r: Result<(), Raised>)
        requires
            old(self).wf(),
            old(self).count > 0,
            !old(self).force_stop,
        ensures
            final(self).min_size == old(self).min_size,
            final(self).max_size == old(self).max_size,
            final(self).p_continue == old(self).p_continue,
            final(self).count == old(self).count - 1,
            final(self).rejections == old(self).rejections + 1,
            r is Err <==> final(self).rejections > patience(final(self).count as int) && final(
                self).count < final(self).min_size,
            r is Ok ==> final(self).wf() && *final(data) == *old(data),
            r is Ok ==> (final(self).force_stop <==> final(self).rejections > patience(
                final(self).count as int,
            )),
            r is Err ==> gave_up::<F>(r->Err_0),
            r is Err ==> gave_up_from(
                |d: &mut F| *final(d),
                *old(data),
                *final(data),
                r->Err_0,
            ),
    {
        self.count = self.count - 1;
        self.rejections = self.rejections + 1;
        let twice: u128 = 2 * (self.count as u128);
        let limit: u128 = if twice > 3 {
            twice
        } else {
            3
        };
        if self.rejections > limit {
            if self.count < self.min_size {
                return Err(data.mark_invalid());
            }
            self.force_stop = true;
        }
        Ok(())
    }
}

fn give_up<F: ForeignData>(data: &mut F) -> (r: ForeignError)
    ensures
        r is Raised && gave_up::<F>(r->Raised_0),
        gave_up_from(|d: &mut F| *final(d), *old(data), *final(data), r->Raised_0),
{
    ForeignError::Raised(data.mark_invalid())
}

/// The place that the answer to a question for one below `n` stands for. An answer that
/// is out of range is not taken.
pub open spec fn place_answered(answer: Result<Int, Raised>, n: int) -> Result<
    usize,
    ForeignError,
> {
    match answer {
        Ok(i) => if 0 <= i@ < n {
            Ok(i@ as usize)
        } else {
            Err(ForeignError::Mismatch)
        },
        Err(e) => Err(ForeignError::Raised(e)),
    }
}

/// A place below `n`: what the other engine answers when it is asked for an integer from
/// zero to `n - 1`.
fn foreign_index<F: ForeignData>(data: &mut F, n: usize) -> (r: Result<usize, ForeignError>)
    requires
        n > 0,
    ensures
        r is Ok ==> r->Ok_0 < n,
        r is Err ==> !(r->Err_0 is Unsupported),
        exists|d: &mut F, low: Int, high: Int, answer: Result<Int, Raised>|
            {
                &&& #[trigger] call_ensures(F::draw_integer, (d, &Some(low), &Some(high)), answer)
                &&& *d == *old(data) && *final(d) == *final(data)
                &&& low@ == 0 && high@ == n - 1
                &&& r == place_answered(answer, n as int)
            },
        placed::<F>(n as int, r),
        placed_from(|d: &mut F| *final(d), *old(data), *final(data), n as int, r),
{
    let low = Some(Int::of(0));
    let high = Some(Int::of_unsigned((n - 1) as u64));
    let answer = data.draw_integer(&low, &high);
    proof {
        assert(asked_integer::<F>(Some(low->0), Some(high->0), answer));
        assert(integer_from(
            |d: &mut F| *final(d),
            *old(data),
            *data,
            Some(low->0),
            Some(high->0),
            answer,
        ));
    }
    match answer {
        Ok(i) => match i.to_u64() {
            Some(at) => if at < n as u64 {
                Ok(at as usize)
            } else {
                Err(ForeignError::Mismatch)
            },
            None => Err(ForeignError::Mismatch),
        },
        Err(e) => Err(ForeignError::Raised(e)),
    }
}

/// The strategy is one of those that `draw_simple_foreign` draws from.
spec fn is_simple(node: StrategyNode) -> bool {
    node is NoneVal || node is Just || node is Nothing || node is Integers || node is Booleans
        || node is Floats || node is SampledFrom || node is SampledFromRange || node is Binary
        || node is Text
}

/// A value of a strategy without parts.
fn draw_simple_foreign<F: ForeignData>(data: &mut F, node: &StrategyNode) -> (r: Result<
    Value,
    ForeignError,
>)
    requires
        node.ok(),
    ensures
        r is Ok ==> foreign_conforms(*node, r->Ok_0),
        is_simple(*node) ==> simple_gave::<F>(*node, r),
        is_simple(*node) ==> simple_moved(
            |d: &mut F| *final(d),
            *old(data),
            *final(data),
            *node,
            r,
        ),
        !is_simple(*node) ==> *final(data) == *old(data),
        r is Err && r->Err_0 is Unsupported ==> !is_simple(*node),
        node is NoneVal || node is Just ==> r is Ok,
        node is Nothing ==> r is Err && r->Err_0 is Raised,
{
    match node {
        StrategyNode::NoneVal => Ok(Value::Atom(Atom::Nil)),
        StrategyNode::Just(a) => Ok(Value::Atom(*a)),
        StrategyNode::Nothing => Err(give_up(data)),
        StrategyNode::Integers { min, max } => {
            let answer = data.draw_integer(min, max);
            assert(asked_integer::<F>(*min, *max, answer));
            assert(integer_from(
                |d: &mut F| *final(d),
                *old(data),
                *data,
                *min,
                *max,
                answer,
            ));
            match answer {
                Ok(n) => Ok(Value::Int(n)),
                Err(e) => Err(ForeignError::Raised(e)),
            }
        },
        StrategyNode::Booleans => {
            let answer = data.draw_boolean(HALF, None);
            assert(asked_boolean::<F>(HALF, None, answer));
            match answer {
                Ok(b) => Ok(Value::Bool(b)),
                Err(e) => Err(ForeignError::Raised(e)),
            }
        },
        StrategyNode::Floats { min, max, allow_nan, allow_inf: _, snm, width: _ } => {
            let bounds = FloatBounds {
                min_value: *min,
                max_value: *max,
                allow_nan: *allow_nan,
                smallest_nonzero_magnitude: *snm,
            };
            let answer = data.draw_float(&bounds);
            assert(asked_float::<F>(bounds, answer));
            match answer {
                Ok(f) => Ok(Value::Float(f)),
                Err(e) => Err(ForeignError::Raised(e)),
            }
        },
        StrategyNode::SampledFrom { elements, .. } => {
            if elements.len() == 0 {
                return Err(give_up(data));
            }
            let place = foreign_index(data, elements.len());
            assert(placed::<F>(elements@.len() as int, place));
            match place {
                Ok(i) => Ok(sample_at(node, i)),
                Err(e) => Err(e),
            }
        },
        StrategyNode::SampledFromRange { start, step, len, .. } => {
            let zero = Int::of(0);
            if !zero.less(len) {
                return Err(give_up(data));
            }
            let low = Some(zero);
            let high = Some(len.minus(&Int::of(1)));
            let answer = data.draw_integer(&low, &high);
            assert(asked_integer::<F>(Some(low->0), Some(high->0), answer));
            assert(integer_from(
                |d: &mut F| *final(d),
                *old(data),
                *data,
                Some(low->0),
                Some(high->0),
                answer,
            ));
            match answer {
                Ok(i) => Ok(Value::Int(start.plus(&i.times(step)))),
                Err(e) => Err(ForeignError::Raised(e)),
            }
        },
        StrategyNode::Binary { min, max } => {
            let answer = data.draw_bytes(*min, *max);
            assert(asked_bytes::<F>(*min, *max, answer));
            match answer {
                Ok(b) => Ok(Value::Bytes(b)),
                Err(e) => Err(ForeignError::Raised(e)),
            }
        },
        StrategyNode::Text { alphabet, min, max } => {
            let set = alphabet.as_set();
            let answer = data.draw_string(set, *min, *max);
            assert(asked_string::<F>(alphabet.members(), *min, *max, answer));
            match answer {
                Ok(t) => Ok(Value::Text(t)),
                Err(e) => Err(ForeignError::Raised(e)),
            }
        },
        _ => Err(ForeignError::Unsupported),
    }
}

/// The elements of a list, unique by each of the key functions.
fn draw_elements_foreign<F: ForeignData, H: Host>(
    data: &mut F,
    host: &mut H,
    elem: &StrategyNode,
    min: u64,
    max: u64,
    unique_by: &Vec<u64>,
) -> (r: Result<Vec<Value>, ForeignError>)
    requires
        elem.ok(),
        crate::strategy::sizes_ok(min, max),
    ensures
        r is Ok ==> min <= r->Ok_0@.len() <= max && forall|i: int|
            0 <= i < r->Ok_0@.len() ==> foreign_conforms(*elem, #[trigger] r->Ok_0@[i]),
        r is Ok ==> forall|i: int|
            0 <= i < r->Ok_0@.len() ==> gave::<F, H>(*elem, Ok(#[trigger] r->Ok_0@[i])),
        r is Err ==> gave::<F, H>(*elem, Err(r->Err_0)) || part_raised::<F, H>(r->Err_0),
        r is Ok ==> unique::<H>(unique_by@, r->Ok_0@),
        r is Err && r->Err_0 is Unsupported ==> !supported_throughout(*elem),
        listed(
            |d: &mut F| *final(d),
            |h: &mut H| *final(h),
            *old(data),
            *final(data),
            *old(host),
            *final(host),
            *elem,
            Comparing::Keys(unique_by@),
            min,
            max,
            match r {
                Ok(v) => Ok(v@),
                Err(e) => Err(e),
            },
        ),
    decreases elem, 3int,
{
    let mut out: Vec<Value> = Vec::new();
    let mut seen: Vec<Vec<Value>> = Vec::new();
    while seen.len() < unique_by.len()
        invariant
            seen@.len() <= unique_by@.len(),
            forall|x: int| 0 <= x < seen@.len() ==> (#[trigger] seen@[x])@.len() == 0,
        decreases unique_by.len() - seen.len(),
    {
        seen.push(Vec::new());
    }
    let mut many = ForeignMany::new(host, min, max);
    let ghost k = *host;
    let ghost p = many.p_continue;
    let ghost mut us: Seq<Value> = Seq::empty();
    proof {
        assert forall|j: int| 0 <= j < unique_by@.len() implies #[trigger] distinct_by::<H>(
            unique_by@[j],
            out@,
            lists_of(seen@)[j],
        ) by {
            assert(seen@[j]@.len() == 0);
        }
        assert(lists_of(seen@) =~= none_seen(Comparing::Keys(unique_by@))) by {
            assert forall|j: int| 0 <= j < seen@.len() implies (#[trigger] seen@[j])@ =~= Seq::<
                Value,
            >::empty() by {}
        }
    }
    loop
        invariant
            elem.ok(),
            many.wf(),
            many.min_size == min,
            many.max_size == max,
            seen@.len() == unique_by@.len(),
            out@.len() == many.count,
            forall|x: int| 0 <= x < out@.len() ==> foreign_conforms(*elem, #[trigger] out@[x]),
            forall|x: int| 0 <= x < out@.len() ==> gave::<F, H>(*elem, Ok(#[trigger] out@[x])),
            distinct_by_all::<H>(unique_by@, out@, lists_of(seen@)),
            p == many.p_continue,
            likelihood_from(|h: &mut H| *final(h), *old(host), k, min, max, p),
            us.len() - out@.len() == many.rejections,
            many.force_stop <==> out_of_patience(us.len() as int, out@.len() as int),
            drawn_in_turn(
                |d: &mut F| *final(d),
                |h: &mut H| *final(h),
                *old(data),
                *data,
                k,
                *host,
                *elem,
                Comparing::Keys(unique_by@),
                min,
                max,
                p,
                us,
                out@,
                lists_of(seen@),
            ),
        decreases many.steps_left(),
    {
        let ghost (d, h) = (*data, *host);
        let ghost known = lists_of(seen@);
        let ghost spent = out_of_patience(us.len() as int, out@.len() as int);
        assert(passing(d, h) && tried(us) && tried(out@) && keys_kept(known));
        let asked = many.more_foreign(data);
        let ghost g = *data;
        assert(more_from(
            |d: &mut F| *final(d),
            d,
            g,
            min,
            max,
            p,
            out@.len() as int,
            spent,
            asked,
        ));
        match asked {
            Ok(true) => {},
            Ok(false) => {
                proof {
                    assert(listed_at(
                        |d: &mut F| *final(d),
                        |h: &mut H| *final(h),
                        d,
                        *data,
                        h,
                        *host,
                        *elem,
                        Comparing::Keys(unique_by@),
                        min,
                        max,
                        p,
                        us,
                        out@,
                        known,
                        Ok(out@),
                    ));
                }
                return Ok(out);
            },
            Err(e) => {
                proof {
                    assert(asked == Err::<bool, Raised>(e));
                    assert(listed_at(
                        |d: &mut F| *final(d),
                        |h: &mut H| *final(h),
                        d,
                        *data,
                        h,
                        *host,
                        *elem,
                        Comparing::Keys(unique_by@),
                        min,
                        max,
                        p,
                        us,
                        out@,
                        known,
                        Err(ForeignError::Raised(e)),
                    ));
                }
                return Err(ForeignError::Raised(e));
            },
        }
        assert(asked == Ok::<bool, Raised>(true));
        let v = match draw_node_foreign(data, host, elem) {
            Ok(v) => v,
            Err(e) => {
                proof {
                    assert(element_failed(
                        |d: &mut F| *final(d),
                        |h: &mut H| *final(h),
                        g,
                        *data,
                        h,
                        *host,
                        *elem,
                        Comparing::Keys(unique_by@),
                        min,
                        us.len() as int,
                        out@,
                        known,
                        e,
                    ));
                    assert(listed_at(
                        |d: &mut F| *final(d),
                        |h: &mut H| *final(h),
                        d,
                        *data,
                        h,
                        *host,
                        *elem,
                        Comparing::Keys(unique_by@),
                        min,
                        max,
                        p,
                        us,
                        out@,
                        known,
                        Err(e),
                    ));
                }
                return Err(e);
            },
        };
        let ghost others = us;
        let ghost drawn = *data;
        let ghost between = *host;
        let noted = note_unique(host, unique_by, &mut seen, &v);
        proof {
            us = us.push(v);
            assert(us.drop_last() =~= others);
            if noted is Ok {
                assert(told_new(
                    |h: &mut H| *final(h),
                    between,
                    *host,
                    Comparing::Keys(unique_by@),
                    out@,
                    known,
                    us.last(),
                    lists_of(seen@),
                    Ok(noted->Ok_0),
                ));
            } else {
                assert(told_new(
                    |h: &mut H| *final(h),
                    between,
                    *host,
                    Comparing::Keys(unique_by@),
                    out@,
                    known,
                    v,
                    known,
                    Err(noted->Err_0),
                ));
            }
        }
        match noted {
            Ok(true) => {
                proof {
                    lemma_one_more_unique::<H>(unique_by@, out@, v, known, lists_of(seen@));
                }
                out.push(v);
            },
            Ok(false) => {
                assert(lists_of(seen@) == known);
                let rejected = many.reject_foreign(data);
                if let Err(e) = rejected {
                    proof {
                        assert(gave_up_from(|d: &mut F| *final(d), drawn, *data, e));
                        assert(element_failed(
                            |d: &mut F| *final(d),
                            |h: &mut H| *final(h),
                            g,
                            *data,
                            h,
                            *host,
                            *elem,
                            Comparing::Keys(unique_by@),
                            min,
                            others.len() as int,
                            out@,
                            known,
                            ForeignError::Raised(e),
                        ));
                        assert(listed_at(
                            |d: &mut F| *final(d),
                            |h: &mut H| *final(h),
                            d,
                            *data,
                            h,
                            *host,
                            *elem,
                            Comparing::Keys(unique_by@),
                            min,
                            max,
                            p,
                            others,
                            out@,
                            known,
                            Err(ForeignError::Raised(e)),
                        ));
                        assert(tried(others));
                    }
                    return Err(ForeignError::Raised(e));
                }
            },
            Err(e) => {
                proof {
                    assert(element_failed(
                        |d: &mut F| *final(d),
                        |h: &mut H| *final(h),
                        g,
                        *data,
                        h,
                        *host,
                        *elem,
                        Comparing::Keys(unique_by@),
                        min,
                        others.len() as int,
                        out@,
                        known,
                        ForeignError::Raised(e),
                    ));
                    assert(listed_at(
                        |d: &mut F| *final(d),
                        |h: &mut H| *final(h),
                        d,
                        *data,
                        h,
                        *host,
                        *elem,
                        Comparing::Keys(unique_by@),
                        min,
                        max,
                        p,
                        others,
                        out@,
                        known,
                        Err(ForeignError::Raised(e)),
                    ));
                    assert(tried(others));
                }
                return Err(ForeignError::Raised(e));
            },
        }
    }
}

/// `vs` is kept of what was taken out of a domain at the places. Elements are taken out
/// until there are enough, or the domain is empty; only so many may be passed over.
pub open spec fn taken_out(
    domain: Seq<Atom>,
    places: Seq<int>,
    min: int,
    max: int,
    vs: Seq<Value>,
) -> bool {
    &&& places.len() <= domain.len()
    &&& forall|x: int| 0 <= x < places.len() ==> 0 <= (#[trigger] places[x]) < domain.len() - x
    &&& kept_of(vs, picked(domain, places))
    &&& min <= vs.len() || places.len() == domain.len()
    &&& vs.len() <= max
    &&& places.len() - vs.len() <= patience(max) + 1
}

/// A list without repetitions from a small domain.
fn draw_domain_foreign<F: ForeignData, H: Host>(
    data: &mut F,
    host: &mut H,
    domain: &Vec<Atom>,
    min: u64,
    max: u64,
) -> (r: Result<Vec<Value>, ForeignError>)
    requires
        crate::strategy::sizes_ok(min, max),
    ensures
        r is Ok ==> r->Ok_0@.len() <= max && forall|i: int|
            0 <= i < r->Ok_0@.len() ==> (#[trigger] r->Ok_0@[i]) is Atom && domain@.contains(
                r->Ok_0@[i]->Atom_0,
            ),
        r is Ok ==> exists|places: Seq<int>| #[trigger]
            at_places(places) && taken_out(domain@, places, min as int, max as int, r->Ok_0@),
        domain@.len() == 0 || max == 0 ==> r is Ok,
        r is Err ==> !(r->Err_0 is Unsupported),
        r is Ok ==> distinct::<H>(r->Ok_0@),
        r is Err ==> place_failed::<F>(r->Err_0) || part_raised::<F, H>(r->Err_0),
        domain_listed(
            |d: &mut F| *final(d),
            |h: &mut H| *final(h),
            *old(data),
            *final(data),
            *old(host),
            *final(host),
            domain@,
            min,
            max,
            match r {
                Ok(vs) => Ok(vs@),
                Err(e) => Err(e),
            },
        ),
{
    let mut remaining: Vec<Atom> = Vec::new();
    let mut i: usize = 0;
    while i < domain.len()
        invariant
            i <= domain.len(),
            remaining@.len() == i,
            forall|x: int| 0 <= x < i ==> #[trigger] remaining@[x] == domain@[x],
        decreases domain.len() - i,
    {
        remaining.push(domain[i]);
        i = i + 1;
    }
    assert(remaining@ =~= domain@);
    let ghost mut places: Seq<int> = Seq::empty();
    let mut out: Vec<Value> = Vec::new();
    let mut many = ForeignMany::new(host, min, max);
    let ghost k = *host;
    let ghost p = many.p_continue;
    while remaining.len() > 0
        invariant
            many.wf(),
            many.min_size == min,
            many.max_size == max,
            out@.len() == many.count,
            max == 0 ==> min == 0,
            places.len() == out@.len() + many.rejections,
            places.len() + remaining@.len() == domain@.len(),
            remaining@ == left_of(domain@, places),
            forall|x: int|
                0 <= x < places.len() ==> 0 <= (#[trigger] places[x]) < domain@.len() - x,
            kept_of(out@, picked(domain@, places)),
            distinct::<H>(out@),
            p == many.p_continue,
            likelihood_from(|h: &mut H| *final(h), *old(host), k, min, max, p),
            many.force_stop <==> out_of_patience(places.len() as int, out@.len() as int),
            taken_in_turn(
                |d: &mut F| *final(d),
                |h: &mut H| *final(h),
                *old(data),
                *data,
                k,
                *host,
                domain@,
                min,
                max,
                p,
                places,
                out@,
            ),
            forall|x: int|
                0 <= x < remaining@.len() ==> domain@.contains(#[trigger] remaining@[x]),
            forall|x: int|
                0 <= x < out@.len() ==> (#[trigger] out@[x]) is Atom && domain@.contains(
                    out@[x]->Atom_0,
                ),
        decreases remaining@.len(),
    {
        let ghost (d, h) = (*data, *host);
        let ghost spent = out_of_patience(places.len() as int, out@.len() as int);
        assert(passing(d, h));
        let asked = many.more_foreign(data);
        let ghost g = *data;
        assert(more_from(
            |d: &mut F| *final(d),
            d,
            g,
            min,
            max,
            p,
            out@.len() as int,
            spent,
            asked,
        ));
        match asked {
            Ok(true) => {},
            Ok(false) => {
                proof {
                    assert(at_places(places));
                    assert(domain_ended(
                        |d: &mut F| *final(d),
                        |h: &mut H| *final(h),
                        d,
                        *data,
                        h,
                        *host,
                        domain@,
                        min,
                        max,
                        p,
                        places,
                        out@,
                        Ok(out@),
                    ));
                }
                return Ok(out);
            },
            Err(e) => {
                proof {
                    assert(asked == Err::<bool, Raised>(e));
                    assert(domain_ended(
                        |d: &mut F| *final(d),
                        |h: &mut H| *final(h),
                        d,
                        *data,
                        h,
                        *host,
                        domain@,
                        min,
                        max,
                        p,
                        places,
                        out@,
                        Err(ForeignError::Raised(e)),
                    ));
                }
                return Err(ForeignError::Raised(e));
            },
        }
        assert(asked == Ok::<bool, Raised>(true));
        let placed = foreign_index(data, remaining.len());
        let ghost drawn = *data;
        assert(placed_from(|d: &mut F| *final(d), g, drawn, remaining@.len() as int, placed));
        let j: usize = match placed {
            Ok(j) => j,
            Err(e) => {
                proof {
                    assert(placed == Err::<usize, ForeignError>(e));
                    assert(taking_failed(
                        |d: &mut F| *final(d),
                        |h: &mut H| *final(h),
                        g,
                        *data,
                        h,
                        *host,
                        domain@,
                        min,
                        places,
                        out@,
                        e,
                    ));
                    assert(domain_ended(
                        |d: &mut F| *final(d),
                        |h: &mut H| *final(h),
                        d,
                        *data,
                        h,
                        *host,
                        domain@,
                        min,
                        max,
                        p,
                        places,
                        out@,
                        Err(e),
                    ));
                }
                return Err(e);
            },
        };
        assert(placed == Ok::<usize, ForeignError>(j));
        let ghost taken = places;
        let ghost before = remaining@;
        let a: Atom = remaining.swap_remove(j);
        proof {
            assert(domain@.contains(before[j as int]));
            assert forall|x: int| 0 <= x < remaining@.len() implies domain@.contains(
                #[trigger] remaining@[x],
            ) by {
                if x == j {
                    assert(domain@.contains(before[before.len() - 1]));
                } else {
                    assert(domain@.contains(before[x]));
                }
            }
        }
        let v = Value::Atom(a);
        proof {
            let next = places.push(j as int);
            assert(next.drop_last() =~= places);
            assert(remaining@ =~= left_of(domain@, next));
            lemma_kept(out@, picked(domain@, places), v);
            assert(picked(domain@, next) =~= picked(domain@, places).push(v));
            places = next;
        }
        let found = host.is_seen(&out, &v);
        proof {
            assert(places.drop_last() =~= taken);
            assert(picked(domain@, places).last() == v);
            assert(seen_from(|h: &mut H| *final(h), h, *host, out@, picked(domain@, places).last(), found));
        }
        match found {
            Ok(false) => {
                proof {
                    assert(found == Ok::<bool, Raised>(false));
                    assert(compared::<H>(out@, v, false));
                    lemma_one_more_distinct::<H>(out@, v);
                }
                out.push(v);
            },
            Ok(true) => {
                assert(found == Ok::<bool, Raised>(true));
                let rejected = many.reject_foreign(data);
                if let Err(e) = rejected {
                    proof {
                        assert(gave_up_from(|d: &mut F| *final(d), drawn, *data, e));
                        assert(taking_failed(
                            |d: &mut F| *final(d),
                            |h: &mut H| *final(h),
                            g,
                            *data,
                            h,
                            *host,
                            domain@,
                            min,
                            taken,
                            out@,
                            ForeignError::Raised(e),
                        ));
                        assert(domain_ended(
                            |d: &mut F| *final(d),
                            |h: &mut H| *final(h),
                            d,
                            *data,
                            h,
                            *host,
                            domain@,
                            min,
                            max,
                            p,
                            taken,
                            out@,
                            Err(ForeignError::Raised(e)),
                        ));
                    }
                    return Err(ForeignError::Raised(e));
                }
            },
            Err(e) => {
                proof {
                    assert(found == Err::<bool, Raised>(e));
                    assert(taking_failed(
                        |d: &mut F| *final(d),
                        |h: &mut H| *final(h),
                        g,
                        *data,
                        h,
                        *host,
                        domain@,
                        min,
                        taken,
                        out@,
                        ForeignError::Raised(e),
                    ));
                    assert(domain_ended(
                        |d: &mut F| *final(d),
                        |h: &mut H| *final(h),
                        d,
                        *data,
                        h,
                        *host,
                        domain@,
                        min,
                        max,
                        p,
                        taken,
                        out@,
                        Err(ForeignError::Raised(e)),
                    ));
                }
                return Err(ForeignError::Raised(e));
            },
        }
    }
    proof {
        assert(at_places(places));
        assert(domain_ended(
            |d: &mut F| *final(d),
            |h: &mut H| *final(h),
            *data,
            *data,
            *host,
            *host,
            domain@,
            min,
            max,
            p,
            places,
            out@,
            Ok(out@),
        ));
    }
    Ok(out)
}

/// The elements of a set.
fn draw_distinct_foreign<F: ForeignData, H: Host>(
    data: &mut F,
    host: &mut H,
    elem: &StrategyNode,
    min: u64,
    max: u64,
) -> (r: Result<Vec<Value>, ForeignError>)
    requires
        elem.ok(),
        crate::strategy::sizes_ok(min, max),
    ensures
        r is Ok ==> min <= r->Ok_0@.len() <= max && forall|i: int|
            0 <= i < r->Ok_0@.len() ==> foreign_conforms(*elem, #[trigger] r->Ok_0@[i]),
        r is Ok ==> forall|i: int|
            0 <= i < r->Ok_0@.len() ==> gave::<F, H>(*elem, Ok(#[trigger] r->Ok_0@[i])),
        r is Err ==> gave::<F, H>(*elem, Err(r->Err_0)) || part_raised::<F, H>(r->Err_0),
        r is Ok ==> distinct::<H>(r->Ok_0@),
        r is Err && r->Err_0 is Unsupported ==> !supported_throughout(*elem),
        listed(
            |d: &mut F| *final(d),
            |h: &mut H| *final(h),
            *old(data),
            *final(data),
            *old(host),
            *final(host),
            *elem,
            Comparing::Values,
            min,
            max,
            match r {
                Ok(vs) => Ok(vs@),
                Err(e) => Err(e),
            },
        ),
    decreases elem, 3int,
{
    let mut out: Vec<Value> = Vec::new();
    let mut many = ForeignMany::new(host, min, max);
    let ghost k = *host;
    let ghost p = many.p_continue;
    let ghost mut us: Seq<Value> = Seq::empty();
    loop
        invariant
            elem.ok(),
            many.wf(),
            many.min_size == min,
            many.max_size == max,
            out@.len() == many.count,
            forall|x: int| 0 <= x < out@.len() ==> foreign_conforms(*elem, #[trigger] out@[x]),
            forall|x: int| 0 <= x < out@.len() ==> gave::<F, H>(*elem, Ok(#[trigger] out@[x])),
            distinct::<H>(out@),
            p == many.p_continue,
            likelihood_from(|h: &mut H| *final(h), *old(host), k, min, max, p),
            us.len() - out@.len() == many.rejections,
            many.force_stop <==> out_of_patience(us.len() as int, out@.len() as int),
            drawn_in_turn(
                |d: &mut F| *final(d),
                |h: &mut H| *final(h),
                *old(data),
                *data,
                k,
                *host,
                *elem,
                Comparing::Values,
                min,
                max,
                p,
                us,
                out@,
                Seq::empty(),
            ),
        decreases many.steps_left(),
    {
        let ghost (d, h) = (*data, *host);
        let ghost spent = out_of_patience(us.len() as int, out@.len() as int);
        assert(passing(d, h) && tried(us) && tried(out@) && keys_kept(Seq::empty()));
        let asked = many.more_foreign(data);
        let ghost g = *data;
        assert(more_from(
            |d: &mut F| *final(d),
            d,
            g,
            min,
            max,
            p,
            out@.len() as int,
            spent,
            asked,
        ));
        match asked {
            Ok(true) => {},
            Ok(false) => {
                proof {
                    assert(listed_at(
                        |d: &mut F| *final(d),
                        |h: &mut H| *final(h),
                        d,
                        *data,
                        h,
                        *host,
                        *elem,
                        Comparing::Values,
                        min,
                        max,
                        p,
                        us,
                        out@,
                        Seq::empty(),
                        Ok(out@),
                    ));
                }
                return Ok(out);
            },
            Err(e) => {
                proof {
                    assert(asked == Err::<bool, Raised>(e));
                    assert(listed_at(
                        |d: &mut F| *final(d),
                        |h: &mut H| *final(h),
                        d,
                        *data,
                        h,
                        *host,
                        *elem,
                        Comparing::Values,
                        min,
                        max,
                        p,
                        us,
                        out@,
                        Seq::empty(),
                        Err(ForeignError::Raised(e)),
                    ));
                }
                return Err(ForeignError::Raised(e));
            },
        }
        assert(asked == Ok::<bool, Raised>(true));
        let v = match draw_node_foreign(data, host, elem) {
            Ok(v) => v,
            Err(e) => {
                proof {
                    assert(element_failed(
                        |d: &mut F| *final(d),
                        |h: &mut H| *final(h),
                        g,
                        *data,
                        h,
                        *host,
                        *elem,
                        Comparing::Values,
                        min,
                        us.len() as int,
                        out@,
                        Seq::empty(),
                        e,
                    ));
                    assert(listed_at(
                        |d: &mut F| *final(d),
                        |h: &mut H| *final(h),
                        d,
                        *data,
                        h,
                        *host,
                        *elem,
                        Comparing::Values,
                        min,
                        max,
                        p,
                        us,
                        out@,
                        Seq::empty(),
                        Err(e),
                    ));
                }
                return Err(e);
            },
        };
        let ghost others = us;
        let ghost drawn = *data;
        let ghost between = *host;
        let found = host.is_seen(&out, &v);
        proof {
            us = us.push(v);
            assert(us.drop_last() =~= others);
            assert(seen_from(|h: &mut H| *final(h), between, *host, out@, v, found));
            let told: Result<bool, Raised> = if found is Ok {
                Ok(!found->Ok_0)
            } else {
                Err(found->Err_0)
            };
            assert(told_new(
                |h: &mut H| *final(h),
                between,
                *host,
                Comparing::Values,
                out@,
                Seq::empty(),
                us.last(),
                Seq::empty(),
                told,
            ));
        }
        match found {
            Ok(false) => {
                proof {
                    assert(compared::<H>(out@, v, false));
                    lemma_one_more_distinct::<H>(out@, v);
                }
                out.push(v);
            },
            Ok(true) => {
                let rejected = many.reject_foreign(data);
                if let Err(e) = rejected {
                    proof {
                        assert(gave_up_from(|d: &mut F| *final(d), drawn, *data, e));
                        assert(element_failed(
                            |d: &mut F| *final(d),
                            |h: &mut H| *final(h),
                            g,
                            *data,
                            h,
                            *host,
                            *elem,
                            Comparing::Values,
                            min,
                            others.len() as int,
                            out@,
                            Seq::empty(),
                            ForeignError::Raised(e),
                        ));
                        assert(listed_at(
                            |d: &mut F| *final(d),
                            |h: &mut H| *final(h),
                            d,
                            *data,
                            h,
                            *host,
                            *elem,
                            Comparing::Values,
                            min,
                            max,
                            p,
                            others,
                            out@,
                            Seq::empty(),
                            Err(ForeignError::Raised(e)),
                        ));
                        assert(tried(others));
                    }
                    return Err(ForeignError::Raised(e));
                }
            },
            Err(e) => {
                proof {
                    assert(element_failed(
                        |d: &mut F| *final(d),
                        |h: &mut H| *final(h),
                        g,
                        *data,
                        h,
                        *host,
                        *elem,
                        Comparing::Values,
                        min,
                        others.len() as int,
                        out@,
                        Seq::empty(),
                        ForeignError::Raised(e),
                    ));
                    assert(listed_at(
                        |d: &mut F| *final(d),
                        |h: &mut H| *final(h),
                        d,
                        *data,
                        h,
                        *host,
                        *elem,
                        Comparing::Values,
                        min,
                        max,
                        p,
                        others,
                        out@,
                        Seq::empty(),
                        Err(ForeignError::Raised(e)),
                    ));
                    assert(tried(others));
                }
                return Err(ForeignError::Raised(e));
            },
        }
    }
}

/// A dictionary.
fn draw_entries_foreign<F: ForeignData, H: Host>(
    data: &mut F,
    host: &mut H,
    node: &StrategyNode,
) -> (r: Result<Value, ForeignError>)
    requires
        node.ok(),
        node is Dictionaries,
    ensures
        r is Ok ==> foreign_conforms(*node, r->Ok_0),
        gave::<F, H>(*node, r),
        r is Err && r->Err_0 is Unsupported ==> !supported_throughout(*node),
        entries_listed(
            |d: &mut F| *final(d),
            |h: &mut H| *final(h),
            *old(data),
            *final(data),
            *old(host),
            *final(host),
            *node,
            r,
        ),
    decreases node, 1int,
{
    let (keys, values, min, max): (&StrategyNode, &StrategyNode, u64, u64) = match node {
        StrategyNode::Dictionaries { keys, values, min, max } => (&**keys, &**values, *min, *max),
        _ => {
            return Err(ForeignError::Unsupported);
        },
    };
    let mut out: Vec<Entry> = Vec::new();
    let mut many = ForeignMany::new(host, min, max);
    let ghost start = *host;
    let ghost p = many.p_continue;
    let ghost mut us: Seq<Entry> = Seq::empty();
    loop
        invariant
            node is Dictionaries,
            *keys == *node->keys,
            *values == *node->values,
            min == node->Dictionaries_min,
            max == node->Dictionaries_max,
            keys.ok(),
            values.ok(),
            many.wf(),
            many.min_size == min,
            many.max_size == max,
            out@.len() == many.count,
            forall|x: int|
                0 <= x < out@.len() ==> foreign_conforms(*keys, (#[trigger] out@[x]).key)
                    && foreign_conforms(*values, out@[x].value),
            forall|x: int|
                0 <= x < out@.len() ==> gave::<F, H>(*keys, Ok((#[trigger] out@[x]).key))
                    && gave::<F, H>(*values, Ok(out@[x].value)),
            distinct_keys::<H>(out@),
            p == many.p_continue,
            likelihood_from(|h: &mut H| *final(h), *old(host), start, min, max, p),
            us.len() - out@.len() == many.rejections,
            many.force_stop <==> out_of_patience(us.len() as int, out@.len() as int),
            entries_in_turn(
                |d: &mut F| *final(d),
                |h: &mut H| *final(h),
                *old(data),
                *data,
                start,
                *host,
                *node,
                p,
                us,
                out@,
            ),
        decreases many.steps_left(),
    {
        let ghost (d, h) = (*data, *host);
        let ghost spent = out_of_patience(us.len() as int, out@.len() as int);
        assert(passing(d, h) && entries_drawn(us) && entries_drawn(out@));
        let asked = many.more_foreign(data);
        let ghost g = *data;
        assert(more_from(
            |d: &mut F| *final(d),
            d,
            g,
            min,
            max,
            p,
            out@.len() as int,
            spent,
            asked,
        ));
        match asked {
            Ok(true) => {},
            Ok(false) => {
                let ghost kept = out@;
                let v = Value::Dict(out);
                proof {
                    assert(foreign_conforms(*node, v));
                    assert(entries_ended(
                        |d: &mut F| *final(d),
                        |h: &mut H| *final(h),
                        d,
                        *data,
                        h,
                        *host,
                        *node,
                        p,
                        us,
                        kept,
                        Ok(v),
                    ));
                }
                return Ok(v);
            },
            Err(e) => {
                proof {
                    assert(asked == Err::<bool, Raised>(e));
                    assert(entries_ended(
                        |d: &mut F| *final(d),
                        |h: &mut H| *final(h),
                        d,
                        *data,
                        h,
                        *host,
                        *node,
                        p,
                        us,
                        out@,
                        Err(ForeignError::Raised(e)),
                    ));
                }
                return Err(ForeignError::Raised(e));
            },
        }
        assert(asked == Ok::<bool, Raised>(true));
        let key = match draw_node_foreign(data, host, keys) {
            Ok(v) => v,
            Err(e) => {
                proof {
                    assert(entry_failed(
                        |d: &mut F| *final(d),
                        |h: &mut H| *final(h),
                        g,
                        *data,
                        h,
                        *host,
                        *node,
                        us.len() as int,
                        out@,
                        e,
                    ));
                    assert(entries_ended(
                        |d: &mut F| *final(d),
                        |h: &mut H| *final(h),
                        d,
                        *data,
                        h,
                        *host,
                        *node,
                        p,
                        us,
                        out@,
                        Err(e),
                    ));
                }
                return Err(e);
            },
        };
        let ghost (x, y) = (*data, *host);
        assert(passing(x, y) && on_the_way(key));
        let value = match draw_node_foreign(data, host, values) {
            Ok(v) => v,
            Err(e) => {
                proof {
                    assert(entry_failed(
                        |d: &mut F| *final(d),
                        |h: &mut H| *final(h),
                        g,
                        *data,
                        h,
                        *host,
                        *node,
                        us.len() as int,
                        out@,
                        e,
                    ));
                    assert(entries_ended(
                        |d: &mut F| *final(d),
                        |h: &mut H| *final(h),
                        d,
                        *data,
                        h,
                        *host,
                        *node,
                        p,
                        us,
                        out@,
                        Err(e),
                    ));
                }
                return Err(e);
            },
        };
        let ghost others = us;
        let ghost u = Entry { key, value };
        let ghost (drawn, between) = (*data, *host);
        assert(passing(drawn, between) && entry_drawn(u));
        let found = host.is_key(&out, &key);
        proof {
            us = us.push(u);
            assert(us.drop_last() =~= others);
            assert(key_seen_from(|h: &mut H| *final(h), between, *host, out@, us.last().key, found));
        }
        match found {
            Ok(false) => {
                proof {
                    assert(found == Ok::<bool, Raised>(false));
                    assert(compared_key::<H>(out@, key, false));
                    lemma_one_more_key::<H>(out@, Entry { key, value });
                }
                out.push(Entry { key, value });
            },
            Ok(true) => {
                assert(found == Ok::<bool, Raised>(true));
                let rejected = many.reject_foreign(data);
                if let Err(e) = rejected {
                    proof {
                        assert(gave_up_from(|d: &mut F| *final(d), drawn, *data, e));
                        assert(entry_failed(
                            |d: &mut F| *final(d),
                            |h: &mut H| *final(h),
                            g,
                            *data,
                            h,
                            *host,
                            *node,
                            others.len() as int,
                            out@,
                            ForeignError::Raised(e),
                        ));
                        assert(entries_ended(
                            |d: &mut F| *final(d),
                            |h: &mut H| *final(h),
                            d,
                            *data,
                            h,
                            *host,
                            *node,
                            p,
                            others,
                            out@,
                            Err(ForeignError::Raised(e)),
                        ));
                        assert(entries_drawn(others));
                    }
                    return Err(ForeignError::Raised(e));
                }
            },
            Err(e) => {
                proof {
                    assert(found == Err::<bool, Raised>(e));
                    assert(entry_failed(
                        |d: &mut F| *final(d),
                        |h: &mut H| *final(h),
                        g,
                        *data,
                        h,
                        *host,
                        *node,
                        others.len() as int,
                        out@,
                        ForeignError::Raised(e),
                    ));
                    assert(entries_ended(
                        |d: &mut F| *final(d),
                        |h: &mut H| *final(h),
                        d,
                        *data,
                        h,
                        *host,
                        *node,
                        p,
                        others,
                        out@,
                        Err(ForeignError::Raised(e)),
                    ));
                    assert(entries_drawn(others));
                }
                return Err(ForeignError::Raised(e));
            },
        }
    }
}

/// One value from each of the strategies.
fn draw_each_foreign<F: ForeignData, H: Host>(
    data: &mut F,
    host: &mut H,
    children: &Vec<StrategyNode>,
) -> (r: Result<Vec<Value>, ForeignError>)
    requires
        forall|i: int| 0 <= i < children@.len() ==> (#[trigger] children@[i]).ok(),
    ensures
        r is Ok ==> r->Ok_0@.len() == children@.len() && forall|i: int|
            0 <= i < children@.len() ==> foreign_conforms(children@[i], #[trigger] r->Ok_0@[i]),
        r is Ok ==> forall|i: int|
            0 <= i < children@.len() ==> gave::<F, H>(
                #[trigger] children@[i],
                Ok(r->Ok_0@[i]),
            ),
        r is Err ==> exists|i: int|
            0 <= i < children@.len() && gave::<F, H>(#[trigger] children@[i], Err(r->Err_0)),
        r is Err && r->Err_0 is Unsupported ==> exists|i: int|
            0 <= i < children@.len() && !supported_throughout(#[trigger] children@[i]),
        r is Ok ==> moved_each(
            |d: &mut F| *final(d),
            |h: &mut H| *final(h),
            *old(data),
            *final(data),
            *old(host),
            *final(host),
            children@,
            r->Ok_0@,
        ),
        r is Err ==> moved_part(
            |d: &mut F| *final(d),
            |h: &mut H| *final(h),
            *old(data),
            *final(data),
            *old(host),
            *final(host),
            children@,
            r->Err_0,
        ),
    decreases children, 0int,
{
    let mut out: Vec<Value> = Vec::new();
    let mut i: usize = 0;
    while i < children.len()
        invariant
            i <= children.len(),
            forall|x: int| 0 <= x < children@.len() ==> (#[trigger] children@[x]).ok(),
            out@.len() == i,
            forall|x: int| 0 <= x < i ==> foreign_conforms(children@[x], #[trigger] out@[x]),
            forall|x: int| 0 <= x < i ==> gave::<F, H>(#[trigger] children@[x], Ok(out@[x])),
            moved_each(
                |d: &mut F| *final(d),
                |h: &mut H| *final(h),
                *old(data),
                *data,
                *old(host),
                *host,
                children@,
                out@,
            ),
        decreases children.len() - i,
    {
        assert(children@[i as int].ok());
        let ghost (d, h) = (*data, *host);
        match draw_node_foreign(data, host, &children[i]) {
            Ok(v) => {
                let ghost others = out@;
                out.push(v);
                proof {
                    assert(out@.drop_last() =~= others);
                    assert(passing(d, h));
                }
            },
            Err(e) => {
                proof {
                    assert(tried(out@) && passing(d, h));
                    assert(moved_part(
                        |d: &mut F| *final(d),
                        |h: &mut H| *final(h),
                        *old(data),
                        *data,
                        *old(host),
                        *host,
                        children@,
                        e,
                    ));
                }
                return Err(e);
            },
        }
        i = i + 1;
    }
    Ok(out)
}

/// Draws a value from a strategy against a test case of somebody else.
pub fn draw_node_foreign<F: ForeignData, H: Host>(
    data: &mut F,
    host: &mut H,
    node: &StrategyNode,
) -> (r: Result<Value, ForeignError>)
    requires
        node.ok(),
    ensures
        r is Ok ==> supported(*node) && foreign_conforms(*node, r->Ok_0),
        !supported(*node) ==> r is Err && r->Err_0 is Unsupported,
        r is Err && r->Err_0 is Unsupported ==> !supported_throughout(*node),
        node is NoneVal || node is Just ==> r is Ok,
        node is Nothing ==> r is Err && r->Err_0 is Raised,
        gave::<F, H>(*node, r),
        moved(
            |d: &mut F| *final(d),
            |h: &mut H| *final(h),
            *old(data),
            *final(data),
            *old(host),
            *final(host),
            *node,
            r,
        ),
    decreases node, 2int,
{
    match node {
        StrategyNode::NoneVal => draw_simple_foreign(data, node),
        StrategyNode::Just(_) => draw_simple_foreign(data, node),
        StrategyNode::Nothing => draw_simple_foreign(data, node),
        StrategyNode::Integers { .. } => draw_simple_foreign(data, node),
        StrategyNode::Booleans => draw_simple_foreign(data, node),
        StrategyNode::Floats { .. } => draw_simple_foreign(data, node),
        StrategyNode::SampledFrom { .. } => draw_simple_foreign(data, node),
        StrategyNode::SampledFromRange { .. } => draw_simple_foreign(data, node),
        StrategyNode::Binary { .. } => draw_simple_foreign(data, node),
        StrategyNode::Text { .. } => draw_simple_foreign(data, node),
        StrategyNode::OneOf(children) => {
            if children.len() == 0 {
                return Err(give_up(data));
            }
            let place = foreign_index(data, children.len());
            assert(placed::<F>(children@.len() as int, place));
            assert(placed_from(
                |d: &mut F| *final(d),
                *old(data),
                *data,
                children@.len() as int,
                place,
            ));
            let i: usize = match place {
                Ok(i) => i,
                Err(e) => {
                    return Err(e);
                },
            };
            assert(children@[i as int].ok());
            draw_node_foreign(data, host, &children[i])
        },
        StrategyNode::Tuples(children) => match draw_each_foreign(data, host, children) {
            Ok(v) => {
                let v = Value::Tuple(v);
                assert(foreign_conforms(*node, v));
                Ok(v)
            },
            Err(e) => Err(e),
        },
        StrategyNode::Mapped { base, func } => match draw_node_foreign(data, host, base) {
            Ok(v) => {
                let ghost u = v;
                let ghost h = *host;
                let answer = host.apply(*func, v);
                assert(on_the_way(u));
                assert(applied_from(|h: &mut H| *final(h), h, *host, *func, u, answer));
                match answer {
                    Ok(w) => {
                        assert(answer == Ok::<Value, Raised>(w));
                        assert(applied::<H>(*func, u, w));
                        Ok(w)
                    },
                    Err(e) => Err(ForeignError::Raised(e)),
                }
            },
            Err(e) => Err(e),
        },
        StrategyNode::Filtered { base, func } => {
            let mut tries: u32 = 0;
            let ghost mut us: Seq<Value> = Seq::empty();
            while tries < FOREIGN_FILTER_TRIES
                invariant
                    node is Filtered,
                    *base == node->Filtered_base,
                    base.ok(),
                    *func == node->Filtered_func,
                    us.len() == tries,
                    tries <= FOREIGN_FILTER_TRIES,
                    all_refused::<H>(*func, us),
                    forall|i: int|
                        0 <= i < us.len() ==> gave::<F, H>(**base, Ok(#[trigger] us[i])),
                    refused_each(
                        |d: &mut F| *final(d),
                        |h: &mut H| *final(h),
                        *old(data),
                        *data,
                        *old(host),
                        *host,
                        **base,
                        *func,
                        us,
                    ),
                decreases FOREIGN_FILTER_TRIES - tries,
            {
                let ghost (d, h) = (*data, *host);
                assert(passing(d, h));
                let v = match draw_node_foreign(data, host, base) {
                    Ok(v) => v,
                    Err(e) => {
                        assert(tried(us));
                        return Err(e);
                    },
                };
                let ghost others = us;
                proof {
                    us = us.push(v);
                    assert(tried(us));
                    assert(us.drop_last() =~= others);
                }
                let ghost g = *host;
                let answer = host.accepts(*func, &v);
                assert(judged_from(|h: &mut H| *final(h), g, *host, *func, v, answer));
                match answer {
                    Ok(true) => {
                        assert(judged::<H>(*func, v, true));
                        assert(tried(others) && passing(d, h));
                        return Ok(v);
                    },
                    Ok(false) => {
                        proof {
                            assert(judged::<H>(*func, v, false));
                            assert forall|i: int| 0 <= i < us.len() implies
                                #[trigger] judged::<H>(*func, us[i], false) by {
                                if i < others.len() {
                                    assert(judged::<H>(*func, others[i], false));
                                }
                            }
                        }
                    },
                    Err(e) => {
                        assert(tried(others) && passing(d, h));
                        return Err(ForeignError::Raised(e));
                    },
                }
                tries = tries + 1;
            }
            assert(tried(us) && passing(*data, *host));
            Err(give_up(data))
        },
        StrategyNode::Shared { base, .. } => draw_node_foreign(data, host, base),
        StrategyNode::Lists { elem, min, max, unique_by, swap_domain } => {
            let drawn = match swap_domain {
                Some(domain) => draw_domain_foreign(data, host, domain, *min, *max),
                None => draw_elements_foreign(data, host, elem, *min, *max, unique_by),
            };
            match drawn {
                Ok(v) => {
                    let v = Value::List(v);
                    assert(foreign_conforms(*node, v));
                    Ok(v)
                },
                Err(e) => Err(e),
            }
        },
        StrategyNode::Sets { elem, min, max, frozen } => match draw_distinct_foreign(
            data,
            host,
            elem,
            *min,
            *max,
        ) {
            Ok(items) => {
                let v = Value::Collection { items, frozen: *frozen };
                assert(foreign_conforms(*node, v));
                Ok(v)
            },
            Err(e) => Err(e),
        },
        StrategyNode::Dictionaries { .. } => draw_entries_foreign(data, host, node),
        StrategyNode::Composite { func } => {
            let answer = data.composite(*func);
            assert(asked_composite::<F>(*func, answer));
            match answer {
                Ok(v) => Ok(v),
                Err(e) => Err(ForeignError::Raised(e)),
            }
        },
        StrategyNode::Foreign { id } => {
            let answer = data.draw(*id);
            assert(asked_value::<F>(*id, answer));
            match answer {
                Ok(v) => Ok(v),
                Err(e) => Err(ForeignError::Raised(e)),
            }
        },
        _ => Err(ForeignError::Unsupported),
    }
}

} // verus!
