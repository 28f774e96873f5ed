//! Questions about strategies: whether they are empty, valid or reusable, and how they
//! are shown.
use crate::strategy::{FixedItem, NamedNode, StrategyNode};
use vstd::prelude::*;

verus! {

/// How the host's objects and functions are shown, and what their types are called,
/// each by its number.
#[derive(Debug)]
pub struct Names {
    pub objects: Vec<String>,
    pub types: Vec<String>,
    pub functions: Vec<String>,
}

/// What the host knows about the functions in a strategy.
#[derive(Debug)]
pub struct Facts {
    /// What the deferred strategies turn out to be, where they are strategies at all.
    pub thunks: Vec<Option<StrategyNode>>,
    /// The filters that leave nothing of the numbers they are applied to.
    pub emptying: Vec<u64>,
}

/// The name at a number, or dots where there is none.
pub open spec fn name_at(names: Seq<String>, id: u64) -> Seq<char> {
    if id < names.len() {
        names[id as int]@
    } else {
        "..."@
    }
}

/// Appends the name at a number.
pub fn push_name(out: &mut String, names: &Vec<String>, id: u64)
    ensures
        final(out)@ == old(out)@ + name_at(names@, id),
{
    if id < names.len() as u64 {
        out.append(names[id as usize].as_str());
    } else {
        out.append("...");
    }
}

// ---- emptiness --------------------------------------------------------------

/// The filter leaves nothing of a strategy of numbers.
pub open spec fn leaves_nothing(base: StrategyNode, func: u64, facts: Facts) -> bool {
    (base is Integers || base is Floats) && facts.emptying@.contains(func)
}

pub fn filter_rewrite_empty(base: &StrategyNode, func: u64, facts: &Facts) -> (r: bool)
    ensures
        r == leaves_nothing(*base, func, *facts),
{
    let numeric = match base {
        StrategyNode::Integers { .. } => true,
        StrategyNode::Floats { .. } => true,
        _ => false,
    };
    numeric && crate::filters::coll_class_filter_set(&facts.emptying, func)
}

/// No value can be drawn from a strategy. A deferred strategy that is being asked
/// already counts as empty, so that one that only refers to itself is.
pub open spec fn empty_in(node: StrategyNode, facts: Facts, busy: Seq<u64>) -> bool
    decreases facts.thunks@.len() - busy.len(), node,
{
    match node {
        StrategyNode::Nothing => true,
        StrategyNode::SampledFrom { elements, .. } => elements@.len() == 0,
        StrategyNode::OneOf(children) => forall|i: int|
            0 <= i < children@.len() ==> empty_in(#[trigger] children@[i], facts, busy),
        StrategyNode::Mapped { base, .. } => empty_in(*base, facts, busy),
        StrategyNode::Flatmapped { base, .. } => empty_in(*base, facts, busy),
        StrategyNode::Filtered { base, func } => empty_in(*base, facts, busy) || leaves_nothing(
            *base,
            func,
            facts,
        ),
        StrategyNode::Deferred { thunk } => {
            if busy.contains(thunk) {
                true
            } else if thunk >= facts.thunks@.len() || busy.len() >= facts.thunks@.len() {
                false
            } else {
                match facts.thunks@[thunk as int] {
                    Some(n) => empty_in(n, facts, busy.push(thunk)),
                    None => false,
                }
            }
        },
        StrategyNode::FixedDict { items } => exists|i: int|
            0 <= i < items@.len() && empty_in((#[trigger] items@[i]).value, facts, busy),
        StrategyNode::Lists { elem, min, .. } => min > 0 && empty_in(*elem, facts, busy),
        StrategyNode::Sets { elem, min, .. } => min > 0 && empty_in(*elem, facts, busy),
        StrategyNode::Tuples(children) => exists|i: int|
            0 <= i < children@.len() && empty_in(#[trigger] children@[i], facts, busy),
        _ => false,
    }
}

fn copy_ids(ids: &Vec<u64>) -> (r: Vec<u64>)
    ensures
        r@ == ids@,
{
    let r = ids.clone();
    assert(r@ =~= ids@);
    r
}

/// Whether no value can be drawn from a strategy.
pub fn node_is_empty(node: &StrategyNode, facts: &Facts, busy: &Vec<u64>) -> (r: bool)
    ensures
        r == empty_in(*node, *facts, busy@),
    decreases facts.thunks@.len() - busy@.len(), node,
{
    match node {
        StrategyNode::Nothing => true,
        StrategyNode::SampledFrom { elements, .. } => elements.len() == 0,
        StrategyNode::OneOf(children) => {
            let mut i: usize = 0;
            while i < children.len()
                invariant
                    i <= children.len(),
                    node is OneOf,
                    node->OneOf_0 == *children,
                    forall|x: int|
                        0 <= x < i ==> empty_in(#[trigger] children@[x], *facts, busy@),
                decreases children.len() - i,
            {
                if !node_is_empty(&children[i], facts, busy) {
                    assert(!empty_in(children@[i as int], *facts, busy@));
                    return false;
                }
                i = i + 1;
            }
            true
        },
        StrategyNode::Mapped { base, .. } => node_is_empty(base, facts, busy),
        StrategyNode::Flatmapped { base, .. } => node_is_empty(base, facts, busy),
        StrategyNode::Filtered { base, func } => node_is_empty(base, facts, busy)
            || filter_rewrite_empty(base, *func, facts),
        StrategyNode::Deferred { thunk } => {
            if crate::filters::coll_class_filter_set(busy, *thunk) {
                return true;
            }
            if *thunk >= facts.thunks.len() as u64 || busy.len() >= facts.thunks.len() {
                return false;
            }
            match &facts.thunks[*thunk as usize] {
                Some(n) => {
                    let mut more = copy_ids(busy);
                    more.push(*thunk);
                    node_is_empty(n, facts, &more)
                },
                None => false,
            }
        },
        StrategyNode::FixedDict { items } => {
            let mut i: usize = 0;
            while i < items.len()
                invariant
                    i <= items.len(),
                    node is FixedDict,
                    node->items == *items,
                    forall|x: int|
                        0 <= x < i ==> !empty_in((#[trigger] items@[x]).value, *facts, busy@),
                decreases items.len() - i,
            {
                if node_is_empty(&items[i].value, facts, busy) {
                    assert(empty_in(items@[i as int].value, *facts, busy@));
                    return true;
                }
                i = i + 1;
            }
            false
        },
        StrategyNode::Lists { elem, min, .. } => *min > 0 && node_is_empty(elem, facts, busy),
        StrategyNode::Sets { elem, min, .. } => *min > 0 && node_is_empty(elem, facts, busy),
        StrategyNode::Tuples(children) => {
            let mut i: usize = 0;
            while i < children.len()
                invariant
                    i <= children.len(),
                    node is Tuples,
                    node->Tuples_0 == *children,
                    forall|x: int|
                        0 <= x < i ==> !empty_in(#[trigger] children@[x], *facts, busy@),
                decreases children.len() - i,
            {
                if node_is_empty(&children[i], facts, busy) {
                    assert(empty_in(children@[i as int], *facts, busy@));
                    return true;
                }
                i = i + 1;
            }
            false
        },
        _ => false,
    }
}

// ---- reuse ------------------------------------------------------------------

/// A value drawn from a strategy cannot be changed, so that it can be used again. A
/// deferred strategy that is being asked already counts as one of these.
pub open spec fn reusable_in(node: StrategyNode, facts: Facts, busy: Seq<u64>) -> bool
    decreases facts.thunks@.len() - busy.len(), node,
{
    match node {
        StrategyNode::Tuples(children) => forall|i: int|
            0 <= i < children@.len() ==> reusable_in(#[trigger] children@[i], facts, busy),
        StrategyNode::OneOf(children) => forall|i: int|
            0 <= i < children@.len() ==> reusable_in(#[trigger] children@[i], facts, busy),
        StrategyNode::Shared { base, .. } => reusable_in(*base, facts, busy),
        StrategyNode::Deferred { thunk } => {
            if busy.contains(thunk) {
                true
            } else if thunk >= facts.thunks@.len() || busy.len() >= facts.thunks@.len() {
                false
            } else {
                match facts.thunks@[thunk as int] {
                    Some(n) => reusable_in(n, facts, busy.push(thunk)),
                    None => false,
                }
            }
        },
        StrategyNode::Lists { .. } => false,
        StrategyNode::Sets { .. } => false,
        StrategyNode::Dictionaries { .. } => false,
        StrategyNode::FixedDict { .. } => false,
        StrategyNode::Permutations(_) => false,
        StrategyNode::Mapped { .. } => false,
        StrategyNode::Filtered { .. } => false,
        StrategyNode::Flatmapped { .. } => false,
        StrategyNode::Builds { .. } => false,
        StrategyNode::Composite { .. } => false,
        StrategyNode::Functions { .. } => false,
        StrategyNode::Randoms { .. } => false,
        StrategyNode::Data => false,
        StrategyNode::Foreign { .. } => false,
        _ => true,
    }
}

fn all_reusable(children: &Vec<StrategyNode>, facts: &Facts, busy: &Vec<u64>) -> (r: bool)
    ensures
        r == (forall|i: int|
            0 <= i < children@.len() ==> reusable_in(#[trigger] children@[i], *facts, busy@)),
    decreases facts.thunks@.len() - busy@.len(), children,
{
    let mut i: usize = 0;
    while i < children.len()
        invariant
            i <= children.len(),
            forall|x: int| 0 <= x < i ==> reusable_in(#[trigger] children@[x], *facts, busy@),
        decreases children.len() - i,
    {
        if !node_has_reusable_values(&children[i], facts, busy) {
            assert(!reusable_in(children@[i as int], *facts, busy@));
            return false;
        }
        i = i + 1;
    }
    true
}

/// Whether a value drawn from a strategy can be used again.
pub fn node_has_reusable_values(node: &StrategyNode, facts: &Facts, busy: &Vec<u64>) -> (r: bool)
    ensures
        r == reusable_in(*node, *facts, busy@),
    decreases facts.thunks@.len() - busy@.len(), node,
{
    match node {
        StrategyNode::Tuples(children) => all_reusable(children, facts, busy),
        StrategyNode::OneOf(children) => all_reusable(children, facts, busy),
        StrategyNode::Shared { base, .. } => node_has_reusable_values(base, facts, busy),
        StrategyNode::Deferred { thunk } => {
            if crate::filters::coll_class_filter_set(busy, *thunk) {
                return true;
            }
            if *thunk >= facts.thunks.len() as u64 || busy.len() >= facts.thunks.len() {
                return false;
            }
            match &facts.thunks[*thunk as usize] {
                Some(n) => {
                    let mut more = copy_ids(busy);
                    more.push(*thunk);
                    node_has_reusable_values(n, facts, &more)
                },
                None => false,
            }
        },
        StrategyNode::Lists { .. } => false,
        StrategyNode::Sets { .. } => false,
        StrategyNode::Dictionaries { .. } => false,
        StrategyNode::FixedDict { .. } => false,
        StrategyNode::Permutations(_) => false,
        StrategyNode::Mapped { .. } => false,
        StrategyNode::Filtered { .. } => false,
        StrategyNode::Flatmapped { .. } => false,
        StrategyNode::Builds { .. } => false,
        StrategyNode::Composite { .. } => false,
        StrategyNode::Functions { .. } => false,
        StrategyNode::Randoms { .. } => false,
        StrategyNode::Data => false,
        StrategyNode::Foreign { .. } => false,
        _ => true,
    }
}

/// Nothing is drawn from an empty sample, choice or collection: where a strategy that
/// asks nobody is empty, no value conforms to it.
pub proof fn empty_strategies_have_no_values(
    node: StrategyNode,
    v: crate::drawing::Value,
    facts: Facts,
    busy: Seq<u64>,
)
    requires
        empty_in(node, facts, busy),
        node is Nothing || node is SampledFrom || (node is OneOf && node->OneOf_0@.len() == 0),
    ensures
        !crate::drawing::conforms(node, v),
{
    if crate::drawing::conforms(node, v) && node is SampledFrom {
        let i = choose|i: int| #[trigger] crate::drawing::is_sample(node, i, v);
        assert(crate::drawing::is_sample(node, i, v));
    }
}

// ---- validity ---------------------------------------------------------------

/// A mistake in a strategy.
#[derive(Debug)]
pub struct InvalidStrategy {
    pub msg: String,
    pub resolution_failed: bool,
}

/// What is said where something else stands in place of a strategy.
pub open spec fn expected_strategy(prefix: Seq<char>, shown: Seq<char>, kind: Seq<char>) -> Seq<
    char,
> {
    "Expected a SearchStrategy but got "@ + prefix + shown + " (type="@ + kind + ")"@
}

/// The first mistake in a strategy, from left to right: its message, and whether a type
/// could not be resolved. Functions of the user are not called.
pub open spec fn first_mistake(node: StrategyNode, names: Names) -> Option<(Seq<char>, bool)>
    decreases node, 1int,
{
    match node {
        StrategyNode::Invalid { msg, resolution_failed } => Some((msg@, resolution_failed)),
        StrategyNode::Mapped { base, .. } => first_mistake(*base, names),
        StrategyNode::Filtered { base, .. } => first_mistake(*base, names),
        StrategyNode::Flatmapped { base, .. } => first_mistake(*base, names),
        StrategyNode::Lists { elem, .. } => first_mistake(*elem, names),
        StrategyNode::Sets { elem, .. } => first_mistake(*elem, names),
        StrategyNode::Dictionaries { keys, values, .. } => match first_mistake(*keys, names) {
            Some(m) => Some(m),
            None => first_mistake(*values, names),
        },
        StrategyNode::Tuples(children) => first_of(children@, names, children@.len()),
        StrategyNode::OneOf(children) => first_of(children@, names, children@.len()),
        StrategyNode::FixedDict { items } => first_of_items(items@, names, items@.len()),
        StrategyNode::Builds { args, kwargs, .. } => match first_of_args(
            args@,
            names,
            args@.len(),
        ) {
            Some(m) => Some(m),
            None => first_of_kwargs(kwargs@, names, kwargs@.len()),
        },
        _ => None,
    }
}

/// The first mistake among the first `n` strategies.
pub open spec fn first_of(s: Seq<StrategyNode>, names: Names, n: nat) -> Option<(Seq<char>, bool)>
    decreases s, n,
{
    if n == 0 || n > s.len() {
        None
    } else {
        match first_of(s, names, (n - 1) as nat) {
            Some(m) => Some(m),
            None => first_mistake(s[n - 1], names),
        }
    }
}

/// The first mistake among the values of the first `n` items.
pub open spec fn first_of_items(s: Seq<FixedItem>, names: Names, n: nat) -> Option<
    (Seq<char>, bool),
>
    decreases s, n,
{
    if n == 0 || n > s.len() {
        None
    } else {
        match first_of_items(s, names, (n - 1) as nat) {
            Some(m) => Some(m),
            None => first_mistake(s[n - 1].value, names),
        }
    }
}

/// What is wrong with one argument: it is no strategy, or it has a mistake.
pub open spec fn argument_mistake(node: StrategyNode, prefix: Seq<char>, names: Names) -> Option<
    (Seq<char>, bool),
>
    decreases node, 2int,
{
    match node {
        StrategyNode::Foreign { id } => Some(
            (
                expected_strategy(
                    prefix,
                    name_at(names.objects@, id),
                    name_at(names.types@, id),
                ),
                false,
            ),
        ),
        _ => first_mistake(node, names),
    }
}

/// The first mistake among the first `n` arguments.
pub open spec fn first_of_args(s: Seq<StrategyNode>, names: Names, n: nat) -> Option<
    (Seq<char>, bool),
>
    decreases s, n,
{
    if n == 0 || n > s.len() {
        None
    } else {
        match first_of_args(s, names, (n - 1) as nat) {
            Some(m) => Some(m),
            None => argument_mistake(s[n - 1], Seq::empty(), names),
        }
    }
}

/// The first mistake among the first `n` named arguments.
pub open spec fn first_of_kwargs(s: Seq<NamedNode>, names: Names, n: nat) -> Option<
    (Seq<char>, bool),
>
    decreases s, n,
{
    if n == 0 || n > s.len() {
        None
    } else {
        match first_of_kwargs(s, names, (n - 1) as nat) {
            Some(m) => Some(m),
            None => argument_mistake(s[n - 1].node, s[n - 1].name@ + "="@, names),
        }
    }
}

/// The result says exactly what the first mistake is.
pub open spec fn reports(r: Result<(), InvalidStrategy>, m: Option<(Seq<char>, bool)>) -> bool {
    match r {
        Ok(_) => m is None,
        Err(e) => m == Some((e.msg@, e.resolution_failed)),
    }
}

/// Finds the first mistake in a strategy.
pub fn node_validate(node: &StrategyNode, names: &Names) -> (r: Result<(), InvalidStrategy>)
    ensures
        reports(r, first_mistake(*node, *names)),
    decreases node, 1int,
{
    match node {
        StrategyNode::Invalid { msg, resolution_failed } => Err(
            InvalidStrategy { msg: msg.clone(), resolution_failed: *resolution_failed },
        ),
        StrategyNode::Mapped { base, .. } => node_validate(base, names),
        StrategyNode::Filtered { base, .. } => node_validate(base, names),
        StrategyNode::Flatmapped { base, .. } => node_validate(base, names),
        StrategyNode::Lists { elem, .. } => node_validate(elem, names),
        StrategyNode::Sets { elem, .. } => node_validate(elem, names),
        StrategyNode::Dictionaries { keys, values, .. } => {
            match node_validate(keys, names) {
                Ok(_) => {},
                Err(e) => {
                    return Err(e);
                },
            }
            node_validate(values, names)
        },
        StrategyNode::Tuples(children) => validate_all(children, names),
        StrategyNode::OneOf(children) => validate_all(children, names),
        StrategyNode::FixedDict { items } => {
            let mut i: usize = 0;
            while i < items.len()
                invariant
                    i <= items.len(),
                    node is FixedDict,
                    node->items == *items,
                    first_of_items(items@, *names, i as nat) is None,
                decreases items.len() - i,
            {
                match validate_child(&items[i].value, names) {
                    Ok(_) => {},
                    Err(e) => {
                        proof {
                            lemma_items_stay(items@, *names, (i + 1) as nat, items@.len());
                        }
                        return Err(e);
                    },
                }
                i = i + 1;
            }
            Ok(())
        },
        StrategyNode::Builds { args, kwargs, .. } => {
            match validate_args(args, names) {
                Ok(_) => {},
                Err(e) => {
                    return Err(e);
                },
            }
            let mut i: usize = 0;
            while i < kwargs.len()
                invariant
                    i <= kwargs.len(),
                    node is Builds,
                    node->Builds_kwargs == *kwargs,
                    node->Builds_args == *args,
                    first_of_args(args@, *names, args@.len()) is None,
                    first_of_kwargs(kwargs@, *names, i as nat) is None,
                decreases kwargs.len() - i,
            {
                let mut prefix = kwargs[i].name.clone();
                prefix.append("=");
                match validate_builds_arg(prefix.as_str(), &kwargs[i].node, names) {
                    Ok(_) => {},
                    Err(e) => {
                        proof {
                            lemma_kwargs_stay(kwargs@, *names, (i + 1) as nat, kwargs@.len());
                        }
                        return Err(e);
                    },
                }
                i = i + 1;
            }
            Ok(())
        },
        _ => Ok(()),
    }
}

/// Finds the first mistake in a part of a strategy.
pub fn validate_child(child: &StrategyNode, names: &Names) -> (r: Result<(), InvalidStrategy>)
    ensures
        reports(r, first_mistake(*child, *names)),
    decreases child, 2int,
{
    node_validate(child, names)
}

fn validate_all(children: &Vec<StrategyNode>, names: &Names) -> (r: Result<(), InvalidStrategy>)
    ensures
        reports(r, first_of(children@, *names, children@.len())),
    decreases children, 0int,
{
    let mut i: usize = 0;
    while i < children.len()
        invariant
            i <= children.len(),
            first_of(children@, *names, i as nat) is None,
        decreases children.len() - i,
    {
        match validate_child(&children[i], names) {
            Ok(_) => {},
            Err(e) => {
                proof {
                    lemma_first_stays(children@, *names, (i + 1) as nat, children@.len());
                }
                return Err(e);
            },
        }
        i = i + 1;
    }
    Ok(())
}

fn validate_args(args: &Vec<StrategyNode>, names: &Names) -> (r: Result<(), InvalidStrategy>)
    ensures
        reports(r, first_of_args(args@, *names, args@.len())),
    decreases args, 0int,
{
    let mut i: usize = 0;
    while i < args.len()
        invariant
            i <= args.len(),
            first_of_args(args@, *names, i as nat) is None,
        decreases args.len() - i,
    {
        let empty = String::new();
        match validate_builds_arg(empty.as_str(), &args[i], names) {
            Ok(_) => {},
            Err(e) => {
                proof {
                    lemma_args_stay(args@, *names, (i + 1) as nat, args@.len());
                }
                return Err(e);
            },
        }
        i = i + 1;
    }
    Ok(())
}

/// Finds what is wrong with an argument.
pub fn validate_builds_arg(prefix: &str, child: &StrategyNode, names: &Names) -> (r: Result<
    (),
    InvalidStrategy,
>)
    ensures
        reports(r, argument_mistake(*child, prefix@, *names)),
    decreases child, 2int,
{
    match child {
        StrategyNode::Foreign { id } => {
            let mut msg = String::new();
            msg.append("Expected a SearchStrategy but got ");
            msg.append(prefix);
            push_name(&mut msg, &names.objects, *id);
            msg.append(" (type=");
            push_name(&mut msg, &names.types, *id);
            msg.append(")");
            assert(msg@ =~= expected_strategy(
                prefix@,
                name_at(names.objects@, *id),
                name_at(names.types@, *id),
            ));
            Err(InvalidStrategy { msg, resolution_failed: false })
        },
        _ => node_validate(child, names),
    }
}

proof fn lemma_first_stays(s: Seq<StrategyNode>, names: Names, n: nat, m: nat)
    requires
        n <= m <= s.len(),
        first_of(s, names, n) is Some,
    ensures
        first_of(s, names, m) == first_of(s, names, n),
    decreases m,
{
    if n < m {
        lemma_first_stays(s, names, n, (m - 1) as nat);
    }
}

proof fn lemma_items_stay(s: Seq<FixedItem>, names: Names, n: nat, m: nat)
    requires
        n <= m <= s.len(),
        first_of_items(s, names, n) is Some,
    ensures
        first_of_items(s, names, m) == first_of_items(s, names, n),
    decreases m,
{
    if n < m {
        lemma_items_stay(s, names, n, (m - 1) as nat);
    }
}

proof fn lemma_args_stay(s: Seq<StrategyNode>, names: Names, n: nat, m: nat)
    requires
        n <= m <= s.len(),
        first_of_args(s, names, n) is Some,
    ensures
        first_of_args(s, names, m) == first_of_args(s, names, n),
    decreases m,
{
    if n < m {
        lemma_args_stay(s, names, n, (m - 1) as nat);
    }
}

proof fn lemma_kwargs_stay(s: Seq<NamedNode>, names: Names, n: nat, m: nat)
    requires
        n <= m <= s.len(),
        first_of_kwargs(s, names, n) is Some,
    ensures
        first_of_kwargs(s, names, m) == first_of_kwargs(s, names, n),
    decreases m,
{
    if n < m {
        lemma_kwargs_stay(s, names, n, (m - 1) as nat);
    }
}

} // verus!
