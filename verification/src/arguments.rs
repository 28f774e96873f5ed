//! Checking the arguments of strategies.
use crate::integer::{decimal, Int};
use crate::nodes::{empty_in, node_is_empty, Facts};
use crate::ordering::BUFFER_SIZE;
use crate::strategy::{StrategyNode, COLLECTION_DEFAULT_MAX_SIZE};
use vstd::prelude::*;

verus! {

/// The kinds of mistakes in arguments.
#[derive(Clone, Copy, Debug, PartialEq, Eq, Structural)]
pub enum Mistake {
    InvalidArgument,
    ResolutionFailed,
}

/// A mistake in the arguments of a strategy.
#[derive(Debug)]
pub struct ArgumentError {
    pub kind: Mistake,
    pub msg: String,
}

/// `e` is an invalid argument with a message.
pub open spec fn invalid(e: ArgumentError, msg: Seq<char>) -> bool {
    e.kind == Mistake::InvalidArgument && e.msg@ == msg
}

pub fn invalid_argument(msg: String) -> (r: ArgumentError)
    ensures
        invalid(r, msg@),
{
    ArgumentError { kind: Mistake::InvalidArgument, msg }
}

pub fn resolution_failed_err(msg: String) -> (r: ArgumentError)
    ensures
        r.kind == Mistake::ResolutionFailed,
        r.msg@ == msg@,
{
    ArgumentError { kind: Mistake::ResolutionFailed, msg }
}

/// The strategy that only draws while a test runs was asked for something else.
pub fn not_a_first_class_strategy(name: &str) -> (r: ArgumentError)
    ensures
        invalid(
            r,
            "Cannot call "@ + name@
                + " on a DataStrategy. You should probably be using @composite for whatever it is you're trying to do."@,
        ),
{
    let mut msg = String::new();
    msg.append("Cannot call ");
    msg.append(name);
    msg.append(
        " on a DataStrategy. You should probably be using @composite for whatever it is you're trying to do.",
    );
    assert(msg@ =~= "Cannot call "@ + name@
        + " on a DataStrategy. You should probably be using @composite for whatever it is you're trying to do."@);
    invalid_argument(msg)
}

/// A strategy that reports a mistake when it is used.
pub fn deferred_invalid(msg: String) -> (r: StrategyNode)
    ensures
        r == (StrategyNode::Invalid { msg, resolution_failed: false }),
{
    StrategyNode::Invalid { msg, resolution_failed: false }
}

/// A strategy that reports, when it is used, that a type has no strategy.
pub fn deferred_resolution_failed(msg: String) -> (r: StrategyNode)
    ensures
        r == (StrategyNode::Invalid { msg, resolution_failed: true }),
{
    StrategyNode::Invalid { msg, resolution_failed: true }
}

/// Appends a number.
pub fn push_number(out: &mut String, n: &Int)
    ensures
        final(out)@ == old(out)@ + decimal(n@),
{
    let s = n.to_decimal();
    out.append(s.as_str());
}

/// Appends a number.
pub fn push_count(out: &mut String, n: u64)
    ensures
        final(out)@ == old(out)@ + decimal(n as int),
{
    push_number(out, &Int::of_unsigned(n));
}

// ---- sizes ------------------------------------------------------------------

/// The argument for a size.
#[derive(Debug)]
pub enum SizeArg {
    Absent,
    Number(i64),
    /// Something that is not a number of this width, as it is shown.
    Other(String),
}

/// What is wrong with a size.
pub open spec fn size_mistake(val: SizeArg, name: Seq<char>) -> Option<Seq<char>> {
    match val {
        SizeArg::Absent => None,
        SizeArg::Number(n) => if n >= 0 {
            None
        } else {
            Some(name + "="@ + decimal(n as int) + " must be non-negative"@)
        },
        SizeArg::Other(shown) => Some(name + "="@ + shown@ + " must be an integer or None"@),
    }
}

/// The size that an argument stands for.
pub open spec fn size_of(val: SizeArg, default: u64) -> u64 {
    match val {
        SizeArg::Number(n) => n as u64,
        _ => default,
    }
}

/// Reads a size: a number that is not negative, or nothing.
pub fn parse_size(val: &SizeArg, name: &str, default: u64) -> (r: Result<u64, String>)
    ensures
        r is Ok <==> size_mistake(*val, name@) is None,
        r is Ok ==> r->Ok_0 == size_of(*val, default),
        r is Err ==> Some(r->Err_0@) == size_mistake(*val, name@),
{
    match val {
        SizeArg::Absent => Ok(default),
        SizeArg::Number(n) => {
            if *n >= 0 {
                return Ok(*n as u64);
            }
            let mut msg = String::new();
            msg.append(name);
            msg.append("=");
            push_number(&mut msg, &Int::of(*n));
            msg.append(" must be non-negative");
            assert(msg@ =~= name@ + "="@ + decimal(*n as int) + " must be non-negative"@);
            Err(msg)
        },
        SizeArg::Other(shown) => {
            let mut msg = String::new();
            msg.append(name);
            msg.append("=");
            msg.append(shown.as_str());
            msg.append(" must be an integer or None");
            assert(msg@ =~= name@ + "="@ + shown@ + " must be an integer or None"@);
            Err(msg)
        },
    }
}

/// The kinds of collections that sizes are given for.
#[derive(Clone, Copy, Debug, PartialEq, Eq, Structural)]
pub enum Kind {
    Lists,
    Sets,
    Frozensets,
    Dictionaries,
    Text,
    Binary,
}

impl Kind {
    pub open spec fn shown(self) -> Seq<char> {
        match self {
            Kind::Lists => "lists"@,
            Kind::Sets => "sets"@,
            Kind::Frozensets => "frozensets"@,
            Kind::Dictionaries => "dictionaries"@,
            Kind::Text => "text"@,
            Kind::Binary => "binary"@,
        }
    }

    pub fn name(self) -> (r: &'static str)
        ensures
            r@ == self.shown(),
    {
        match self {
            Kind::Lists => "lists",
            Kind::Sets => "sets",
            Kind::Frozensets => "frozensets",
            Kind::Dictionaries => "dictionaries",
            Kind::Text => "text",
            Kind::Binary => "binary",
        }
    }
}

/// What is wrong with the sizes of a collection, whose elements have no values if
/// `empty`.
pub open spec fn sizes_mistake(
    min_size: SizeArg,
    max_size: SizeArg,
    kind: Kind,
    empty: bool,
    elem: Seq<char>,
) -> Option<Seq<char>> {
    let min = size_of(min_size, 0);
    let max = size_of(max_size, COLLECTION_DEFAULT_MAX_SIZE);
    if size_mistake(min_size, "min_size"@) is Some {
        size_mistake(min_size, "min_size"@)
    } else if size_mistake(max_size, "max_size"@) is Some {
        size_mistake(max_size, "max_size"@)
    } else if min > max {
        Some(
            "min_size="@ + decimal(min as int) + " cannot be greater than max_size="@ + decimal(
                max as int,
            ),
        )
    } else if min > BUFFER_SIZE {
        Some(
            "Cannot create a "@ + kind.shown() + " of min_size="@ + decimal(min as int)
                + ": it can never generate an example, because min_size is larger than the maximum buffer size "@
                + decimal(BUFFER_SIZE as int),
        )
    } else if min > 0 && empty {
        Some(
            "Cannot create non-empty "@ + kind.shown() + " with elements drawn from strategy "@
                + elem + " because it has no values"@,
        )
    } else if empty && !(max_size is Absent) && max > 0 && kind != Kind::Text {
        Some(
            "Cannot create a "@ + kind.shown() + " of max_size="@ + decimal(max as int)
                + ", because no elements can be drawn from the element strategy "@ + elem,
        )
    } else {
        None
    }
}

/// Reads the sizes of a collection.
pub fn collection_sizes(
    min_size: &SizeArg,
    max_size: &SizeArg,
    kind: Kind,
    empty_elem: bool,
    elem_repr: &str,
) -> (r: Result<(u64, u64), String>)
    ensures
        r is Ok <==> sizes_mistake(*min_size, *max_size, kind, empty_elem, elem_repr@) is None,
        r is Ok ==> r->Ok_0 == (
            size_of(*min_size, 0),
            size_of(*max_size, COLLECTION_DEFAULT_MAX_SIZE),
        ),
        r is Ok ==> r->Ok_0.0 <= r->Ok_0.1 && r->Ok_0.0 <= BUFFER_SIZE,
        r is Err ==> Some(r->Err_0@) == sizes_mistake(
            *min_size,
            *max_size,
            kind,
            empty_elem,
            elem_repr@,
        ),
{
    let max_explicit = match max_size {
        SizeArg::Absent => false,
        _ => true,
    };
    let min: u64 = match parse_size(min_size, "min_size", 0) {
        Ok(n) => n,
        Err(m) => {
            return Err(m);
        },
    };
    let max: u64 = match parse_size(max_size, "max_size", COLLECTION_DEFAULT_MAX_SIZE) {
        Ok(n) => n,
        Err(m) => {
            return Err(m);
        },
    };
    let mut msg = String::new();
    if min > max {
        msg.append("min_size=");
        push_count(&mut msg, min);
        msg.append(" cannot be greater than max_size=");
        push_count(&mut msg, max);
        assert(msg@ =~= "min_size="@ + decimal(min as int) + " cannot be greater than max_size="@
            + decimal(max as int));
        return Err(msg);
    }
    if min > BUFFER_SIZE {
        msg.append("Cannot create a ");
        msg.append(kind.name());
        msg.append(" of min_size=");
        push_count(&mut msg, min);
        msg.append(
            ": it can never generate an example, because min_size is larger than the maximum buffer size ",
        );
        push_count(&mut msg, BUFFER_SIZE);
        assert(msg@ =~= "Cannot create a "@ + kind.shown() + " of min_size="@ + decimal(min as int)
            + ": it can never generate an example, because min_size is larger than the maximum buffer size "@
            + decimal(BUFFER_SIZE as int));
        return Err(msg);
    }
    if min > 0 && empty_elem {
        msg.append("Cannot create non-empty ");
        msg.append(kind.name());
        msg.append(" with elements drawn from strategy ");
        msg.append(elem_repr);
        msg.append(" because it has no values");
        assert(msg@ =~= "Cannot create non-empty "@ + kind.shown()
            + " with elements drawn from strategy "@ + elem_repr@ + " because it has no values"@);
        return Err(msg);
    }
    if empty_elem && max_explicit && max > 0 && kind != Kind::Text {
        msg.append("Cannot create a ");
        msg.append(kind.name());
        msg.append(" of max_size=");
        push_count(&mut msg, max);
        msg.append(", because no elements can be drawn from the element strategy ");
        msg.append(elem_repr);
        assert(msg@ =~= "Cannot create a "@ + kind.shown() + " of max_size="@ + decimal(max as int)
            + ", because no elements can be drawn from the element strategy "@ + elem_repr@);
        return Err(msg);
    }
    Ok((min, max))
}

/// Whether an element strategy is known to have no values.
pub fn strat_is_empty(node: &StrategyNode, facts: &Facts) -> (r: bool)
    ensures
        r == empty_in(*node, *facts, Seq::empty()),
{
    let busy: Vec<u64> = Vec::new();
    assert(busy@ =~= Seq::<u64>::empty());
    node_is_empty(node, facts, &busy)
}

// ---- strategies as arguments ------------------------------------------------

/// An argument where a strategy is expected.
#[derive(Debug)]
pub enum StrategyArg {
    Strategy(StrategyNode),
    /// Something else, as it is shown, and the name of its type.
    Other { shown: String, of_type: String },
}

/// Whether an argument is a strategy.
pub fn is_strategy(arg: &StrategyArg) -> (r: bool)
    ensures
        r == (arg is Strategy),
{
    match arg {
        StrategyArg::Strategy(_) => true,
        _ => false,
    }
}

/// What is said of an argument that is no strategy.
pub open spec fn not_a_strategy(arg: StrategyArg, named: Seq<char>) -> Seq<char> {
    "Expected a SearchStrategy but got "@ + named + arg->shown@ + " (type="@ + arg->of_type@
        + ")"@
}

fn no_strategy(named: &str, shown: &String, of_type: &String) -> (r: ArgumentError)
    ensures
        invalid(
            r,
            "Expected a SearchStrategy but got "@ + named@ + shown@ + " (type="@ + of_type@
                + ")"@,
        ),
{
    let mut msg = String::new();
    msg.append("Expected a SearchStrategy but got ");
    msg.append(named);
    msg.append(shown.as_str());
    msg.append(" (type=");
    msg.append(of_type.as_str());
    msg.append(")");
    assert(msg@ =~= "Expected a SearchStrategy but got "@ + named@ + shown@ + " (type="@
        + of_type@ + ")"@);
    invalid_argument(msg)
}

/// Refuses an argument that is no strategy.
pub fn check_strategy(arg: &StrategyArg, name: &str) -> (r: Result<(), ArgumentError>)
    ensures
        r is Ok <==> arg is Strategy,
        r is Err ==> invalid(r->Err_0, not_a_strategy(*arg, name@ + "="@)),
{
    match arg {
        StrategyArg::Strategy(_) => Ok(()),
        StrategyArg::Other { shown, of_type } => {
            let mut named = String::new();
            named.append(name);
            named.append("=");
            assert(named@ =~= name@ + "="@);
            Err(no_strategy(named.as_str(), shown, of_type))
        },
    }
}

/// The first of the arguments that is no strategy.
pub open spec fn first_stranger(args: Seq<StrategyArg>, k: int) -> bool {
    0 <= k < args.len() && !(args[k] is Strategy) && forall|i: int|
        0 <= i < k ==> (#[trigger] args[i]) is Strategy
}

/// All arguments are strategies.
pub open spec fn all_strategies(args: Seq<StrategyArg>) -> bool {
    forall|i: int| 0 <= i < args.len() ==> (#[trigger] args[i]) is Strategy
}

/// `nodes` are the strategies that the arguments are.
pub open spec fn taken(nodes: Seq<StrategyNode>, args: Seq<StrategyArg>) -> bool {
    nodes.len() == args.len() && forall|i: int|
        0 <= i < args.len() ==> (#[trigger] nodes[i]) == args[i]->Strategy_0
}

/// Takes the strategies out of the arguments.
pub fn take_strategies(args: Vec<StrategyArg>, named: &str) -> (r: Result<
    Vec<StrategyNode>,
    ArgumentError,
>)
    ensures
        r is Ok <==> all_strategies(args@),
        r is Ok ==> taken(r->Ok_0@, args@),
        r is Err ==> exists|k: int| #[trigger]
            first_stranger(args@, k) && invalid(r->Err_0, not_a_strategy(args@[k], named@)),
{
    let mut i: usize = 0;
    while i < args.len()
        invariant
            i <= args.len(),
            forall|k: int| 0 <= k < i ==> (#[trigger] args@[k]) is Strategy,
        decreases args.len() - i,
    {
        if let StrategyArg::Other { shown, of_type } = &args[i] {
            let e = no_strategy(named, shown, of_type);
            assert(first_stranger(args@, i as int));
            return Err(e);
        }
        i = i + 1;
    }
    let ghost all = args@;
    let mut rest = args;
    let mut back: Vec<StrategyNode> = Vec::new();
    while rest.len() > 0
        invariant
            rest@ == all.take(rest@.len() as int),
            rest@.len() + back@.len() == all.len(),
            all_strategies(all),
            forall|k: int|
                0 <= k < back@.len() ==> (#[trigger] back@[k]) == all[all.len() - 1
                    - k]->Strategy_0,
        decreases rest.len(),
    {
        let ghost n = rest@.len();
        match rest.pop() {
            Some(StrategyArg::Strategy(node)) => {
                proof {
                    assert(node == all[n - 1]->Strategy_0);
                    assert(rest@ =~= all.take(n - 1));
                }
                back.push(node);
            },
            _ => {
                assert(all[n - 1] is Strategy);
            },
        }
    }
    let mut out: Vec<StrategyNode> = Vec::new();
    let ghost whole = back@;
    while back.len() > 0
        invariant
            back@ == whole.take(back@.len() as int),
            whole.len() == all.len(),
            back@.len() + out@.len() == all.len(),
            forall|k: int|
                0 <= k < whole.len() ==> (#[trigger] whole[k]) == all[all.len() - 1
                    - k]->Strategy_0,
            forall|k: int| 0 <= k < out@.len() ==> (#[trigger] out@[k]) == all[k]->Strategy_0,
        decreases back.len(),
    {
        let ghost n = back@.len();
        if let Some(node) = back.pop() {
            proof {
                assert(node == whole[n - 1]);
                assert(back@ =~= whole.take(n - 1));
            }
            out.push(node);
        }
    }
    Ok(out)
}

// ---- samples ----------------------------------------------------------------

/// What a sample is taken from.
#[derive(Clone, Copy, Debug, PartialEq, Eq, Structural)]
pub enum Sample {
    /// A sequence, an enumeration, or a dictionary that keeps its order.
    Ordered,
    /// An array of so many dimensions.
    Array(u64),
    Unordered,
}

/// What is wrong with a sample.
pub open spec fn sample_mistake(sample: Sample, shown: Seq<char>, name: Seq<char>) -> Option<
    Seq<char>,
> {
    match sample {
        Sample::Ordered => None,
        Sample::Array(n) => if n == 1 {
            None
        } else {
            Some(
                "Only one-dimensional arrays are supported for sampling, and you passed a "@
                    + decimal(n as int) + "-dimensional array."@,
            )
        },
        Sample::Unordered => Some(
            "Cannot sample from "@ + shown
                + ", not an ordered collection. Hypothesis needs stable results between runs for the "@
                + name
                + " strategy, ruling out sets/dicts due to hash randomization. Use `sorted(values)` for a stable order."@,
        ),
    }
}

/// Refuses to sample from what has no stable order.
pub fn check_ordered_sample(sample: Sample, shown: &str, name: &str) -> (r: Result<
    (),
    ArgumentError,
>)
    ensures
        r is Ok <==> sample_mistake(sample, shown@, name@) is None,
        r is Err ==> invalid(r->Err_0, sample_mistake(sample, shown@, name@)->0),
{
    let mut msg = String::new();
    match sample {
        Sample::Ordered => Ok(()),
        Sample::Array(n) => {
            if n == 1 {
                return Ok(());
            }
            msg.append("Only one-dimensional arrays are supported for sampling, and you passed a ");
            push_count(&mut msg, n);
            msg.append("-dimensional array.");
            assert(msg@
                =~= "Only one-dimensional arrays are supported for sampling, and you passed a "@
                + decimal(n as int) + "-dimensional array."@);
            Err(invalid_argument(msg))
        },
        Sample::Unordered => {
            msg.append("Cannot sample from ");
            msg.append(shown);
            msg.append(
                ", not an ordered collection. Hypothesis needs stable results between runs for the ",
            );
            msg.append(name);
            msg.append(
                " strategy, ruling out sets/dicts due to hash randomization. Use `sorted(values)` for a stable order.",
            );
            assert(msg@ =~= "Cannot sample from "@ + shown@
                + ", not an ordered collection. Hypothesis needs stable results between runs for the "@
                + name@
                + " strategy, ruling out sets/dicts due to hash randomization. Use `sorted(values)` for a stable order."@);
            Err(invalid_argument(msg))
        },
    }
}

} // verus!
