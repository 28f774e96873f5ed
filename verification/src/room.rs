//! When a draw overruns a test case: only if there is no room left.
use crate::data::Case;
use crate::drawing::{Budget, DrawError, Host, Value};
use crate::hosting::{expanded, turned_out};
use crate::ordering::BUFFER_SIZE;
use crate::strategy::StrategyNode;
use vstd::prelude::*;

verus! {

/// No function of the user gets to draw, whatever strategies the host comes up with, and no
/// string is asked for that is too long for a test case.
pub open spec fn contained<H: Host>(node: StrategyNode, b: Budget) -> bool
    decreases b.expanded, b.deferred, node,
{
    match node {
        StrategyNode::Text { min, .. } => min < BUFFER_SIZE,
        StrategyNode::Binary { min, .. } => min < BUFFER_SIZE,
        StrategyNode::OneOf(children) => forall|i: int|
            0 <= i < children@.len() ==> contained::<H>(#[trigger] children@[i], b),
        StrategyNode::Tuples(children) => forall|i: int|
            0 <= i < children@.len() ==> contained::<H>(#[trigger] children@[i], b),
        StrategyNode::FixedDict { items } => forall|i: int|
            0 <= i < items@.len() ==> contained::<H>((#[trigger] items@[i]).value, b),
        StrategyNode::Lists { elem, swap_domain, .. } => swap_domain is Some || contained::<H>(
            *elem,
            b,
        ),
        StrategyNode::Sets { elem, .. } => contained::<H>(*elem, b),
        StrategyNode::Dictionaries { keys, values, .. } => contained::<H>(*keys, b)
            && contained::<H>(*values, b),
        StrategyNode::Mapped { base, .. } => contained::<H>(*base, b),
        StrategyNode::Filtered { base, .. } => contained::<H>(*base, b),
        StrategyNode::Shared { base, .. } => contained::<H>(*base, b),
        StrategyNode::Builds { args, kwargs, .. } => {
            &&& forall|i: int| 0 <= i < args@.len() ==> contained::<H>(#[trigger] args@[i], b)
            &&& forall|i: int|
                0 <= i < kwargs@.len() ==> contained::<H>((#[trigger] kwargs@[i]).node, b)
        },
        StrategyNode::Flatmapped { base, func } => contained::<H>(*base, b) && (b.expanded > 0
            ==> forall|u: Value, next: StrategyNode| #[trigger]
            expanded::<H>(func, u, next) ==> contained::<H>(next, b.once_expanded())),
        StrategyNode::Deferred { thunk } => b.deferred > 0 ==> forall|next: StrategyNode| #[trigger]
            turned_out::<H>(thunk, next) ==> contained::<H>(next, b.once_deferred()),
        StrategyNode::Composite { .. } => false,
        StrategyNode::Foreign { .. } => false,
        _ => true,
    }
}

/// Whatever was played back without an end still is, and a draw that overran the test case
/// did so because there was no room left.
pub open spec fn kept_to_room(before: Case, after: Case, stopped: bool) -> bool {
    before.replay.endless() ==> {
        &&& after.replay.endless()
        &&& stopped && after.overran() ==> after.full()
    }
}

/// A draw from a strategy in which no function of the user draws overruns the test case only
/// if there is no room left.
pub open spec fn roomed<H: Host>(
    before: Case,
    after: Case,
    node: StrategyNode,
    r: Result<Value, DrawError>,
    b: Budget,
) -> bool {
    contained::<H>(node, b) ==> kept_to_room(before, after, r is Err && r->Err_0 is Stop)
}

} // verus!
