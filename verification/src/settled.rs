//! What shrinking comes to: nothing simpler fails in the same way.
use crate::choice::{choice_at, choice_index_of, models, ChoiceModel, Constraints};
use crate::data::{node_wf, recorded, simplest_of, Case, Node};
use crate::intervalset::{from_shrink_order, nth, ordinal, to_shrink_order, IntervalSet};
use crate::ordering::{bound, within};
use crate::runner::{failed_with, played_back, Failure, OriginModel, Outcome, Subject};
use crate::shrinker::{
    alike_refused, countable, dropped, group_alike, in_group, index_of_node, lowered,
    mixed_for, node_settled, nothing_left, pair_eligible, pair_zeroed, place_of, plain_floats,
    recast, recast_tried, recasts_refused, refused, shows, shrunk_from, tried, tried_at, with_group,
    witnessed, without, Shrunk, Trial, Trials,
};
use vstd::prelude::*;

verus! {

/// A run of the choices did not fail with the origin.
pub open spec fn spared<S: Subject>(
    choices: Seq<ChoiceModel>,
    buffer_limit: Option<u64>,
    origin: OriginModel,
) -> bool {
    exists|after: Case, outcome: Outcome|
        #[trigger] played_back::<S>(choices, buffer_limit, after, Ok(outcome)) && !failed_with(
            outcome,
            origin,
        )
}

/// Of the same choices one run failed with the origin, and another one did not.
pub open spec fn wavers<S: Subject>(
    choices: Seq<ChoiceModel>,
    buffer_limit: Option<u64>,
    origin: OriginModel,
) -> bool {
    spared::<S>(choices, buffer_limit, origin) && exists|after: Case, outcome: Outcome|
        #[trigger] played_back::<S>(choices, buffer_limit, after, Ok(outcome)) && failed_with(
            outcome,
            origin,
        )
}

proof fn lemma_tried_shows<S: Subject>(
    log: Seq<Trial>,
    from: int,
    buffer_limit: Option<u64>,
    origin: OriginModel,
    choices: Seq<ChoiceModel>,
)
    requires
        witnessed::<S>(log, from, buffer_limit, origin),
    ensures
        tried(log, from, choices, false) ==> spared::<S>(choices, buffer_limit, origin),
        tried(log, from, choices, false) && tried(log, from, choices, true) ==> wavers::<S>(
            choices,
            buffer_limit,
            origin,
        ),
{
    if tried(log, from, choices, false) {
        let i = choose|i: int|
            from <= i < log.len() && #[trigger] log[i] == (Trial { choices, fails: false });
        assert(shows::<S>(log[i], buffer_limit, origin));
        if tried(log, from, choices, true) {
            let k = choose|k: int|
                from <= k < log.len() && #[trigger] log[k] == (Trial { choices, fails: true });
            assert(shows::<S>(log[k], buffer_limit, origin));
        }
    }
}

proof fn lemma_one_node(s: Seq<ChoiceModel>, i: int, c: ChoiceModel)
    requires
        0 <= i < s.len() <= usize::MAX,
    ensures
        with_group(s, seq![i as usize], c) == s.update(i, c),
{
    let group = seq![i as usize];
    assert forall|j: int| 0 <= j < s.len() implies #[trigger] with_group(s, group, c)[j] == s.update(
        i,
        c,
    )[j] by {
        if j == i {
            assert(group[0] == j);
            assert(in_group(group, j));
        } else {
            assert(!in_group(group, j));
        }
    }
    assert(with_group(s, group, c) =~= s.update(i, c));
}

/// No character of a string can go: without it, the test does not fail so. None can be
/// replaced by one of the first characters of its alphabet that come before it in shrink
/// order, which ends with the one right before it, and a digit zero comes before all others.
pub open spec fn string_is_simplest<S: Subject>(
    s: Seq<ChoiceModel>,
    i: int,
    node: Node,
    buffer_limit: Option<u64>,
    origin: OriginModel,
) -> bool {
    let t = node.value->Text_0@;
    let set = node.constraints->Text_intervals;
    let (zero, z) = (set.idx_of_zero as int, set.idx_of_z as int);
    forall|j: int| #![trigger t[j]]
        0 <= j < t.len() ==> {
            let place = to_shrink_order(ordinal(set.intervals@, t[j] as int)->0, zero, z);
            let with_place = |n: int|
                s.update(
                    i,
                    ChoiceModel::Text(
                        t.update(j, nth(set.intervals@, from_shrink_order(n, zero, z)) as u32),
                    ),
                );
            &&& spared::<S>(
                s.update(i, ChoiceModel::Text(t.take(j) + t.skip(j + 1))),
                buffer_limit,
                origin,
            )
            &&& forall|n: int|
                0 <= n < 24 && n < place ==> spared::<S>(
                    #[trigger] with_place(n),
                    buffer_limit,
                    origin,
                )
            &&& place > 0 ==> spared::<S>(with_place(place - 1), buffer_limit, origin) || exists|
                n: int,
            |
                24 <= n < place && wavers::<S>(#[trigger] with_place(n), buffer_limit, origin)
            &&& set.has(48) && t[j] != 48 && ordinal(set.intervals@, t[j] as int) is Some
                ==> spared::<S>(
                s.update(i, ChoiceModel::Text(t.update(j, 48))),
                buffer_limit,
                origin,
            )
        }
}

proof fn lemma_string_is_simplest<S: Subject>(
    log: Seq<Trial>,
    from: int,
    s: Seq<ChoiceModel>,
    i: int,
    node: Node,
    buffer_limit: Option<u64>,
    origin: OriginModel,
)
    requires
        witnessed::<S>(log, from, buffer_limit, origin),
        node_settled::<S>(log, from, s, i, node),
        node_wf(node),
        node.value is Text,
        !node.was_forced,
        0 <= i < s.len() <= usize::MAX,
    ensures
        string_is_simplest::<S>(s, i, node, buffer_limit, origin),
{
    let group = seq![i as usize];
    let t = node.value->Text_0@;
    let set = node.constraints->Text_intervals;
    let (zero, z) = (set.idx_of_zero as int, set.idx_of_z as int);
    assert forall|j: int| #![trigger t[j]] 0 <= j < t.len() implies {
        let place = to_shrink_order(ordinal(set.intervals@, t[j] as int)->0, zero, z);
        let with_place = |n: int|
            s.update(
                i,
                ChoiceModel::Text(
                    t.update(j, nth(set.intervals@, from_shrink_order(n, zero, z)) as u32),
                ),
            );
        &&& spared::<S>(
            s.update(i, ChoiceModel::Text(t.take(j) + t.skip(j + 1))),
            buffer_limit,
            origin,
        )
        &&& forall|n: int|
            0 <= n < 24 && n < place ==> spared::<S>(
                #[trigger] with_place(n),
                buffer_limit,
                origin,
            )
        &&& place > 0 ==> spared::<S>(with_place(place - 1), buffer_limit, origin) || exists|n: int|
            24 <= n < place && wavers::<S>(#[trigger] with_place(n), buffer_limit, origin)
        &&& set.has(48) && t[j] != 48 && ordinal(set.intervals@, t[j] as int) is Some
            ==> spared::<S>(
            s.update(i, ChoiceModel::Text(t.update(j, 48))),
            buffer_limit,
            origin,
        )
    } by {
        let place = place_of(t, j, set);
        let with_place = |n: int|
            s.update(
                i,
                ChoiceModel::Text(
                    t.update(j, nth(set.intervals@, from_shrink_order(n, zero, z)) as u32),
                ),
            );
        assert(dropped(t, j) == t.take(j) + t.skip(j + 1));
        lemma_one_node(s, i, ChoiceModel::Text(dropped(t, j)));
        lemma_tried_shows::<S>(
            log,
            from,
            buffer_limit,
            origin,
            with_group(s, group, ChoiceModel::Text(dropped(t, j))),
        );
        assert(recasts_refused(log, from, s, group, t, j, set));
        assert forall|n: int, fails: bool| #[trigger]
            recast_tried(log, from, s, group, t, j, set, n, fails) implies tried(
            log,
            from,
            with_place(n),
            fails,
        ) by {
            lemma_one_node(s, i, ChoiceModel::Text(recast(t, j, set, n)));
        }
        assert forall|n: int| 0 <= n < 24 && n < place implies spared::<S>(
            #[trigger] with_place(n),
            buffer_limit,
            origin,
        ) by {
            assert(recast_tried(log, from, s, group, t, j, set, n, false));
            lemma_tried_shows::<S>(log, from, buffer_limit, origin, with_place(n));
        }
        if place > 24 {
            if recast_tried(log, from, s, group, t, j, set, place - 1, false) {
                lemma_tried_shows::<S>(log, from, buffer_limit, origin, with_place(place - 1));
            } else {
                let n = choose|n: int|
                    24 <= n < place && #[trigger] recast_tried(
                        log,
                        from,
                        s,
                        group,
                        t,
                        j,
                        set,
                        n,
                        true,
                    ) && recast_tried(log, from, s, group, t, j, set, n, false);
                lemma_tried_shows::<S>(log, from, buffer_limit, origin, with_place(n));
            }
        } else if place > 0 {
            assert(spared::<S>(with_place(place - 1), buffer_limit, origin));
        }
        if set.has(48) && t[j] != 48 && ordinal(set.intervals@, t[j] as int) is Some {
            crate::intervalset::zero_is_simplest(set);
            crate::intervalset::shrink_order_marks_are_ordered(set);
            crate::intervalset::member_survives_its_position(set.intervals@, t[j] as int);
            let at = ordinal(set.intervals@, t[j] as int)->0;
            crate::intervalset::shrink_order_is_a_bijection(at, zero, z, set.size as int);
            assert(place != 0);
            assert(with_place(0) == s.update(i, ChoiceModel::Text(t.update(j, 48))));
        }
    }
}

/// How far apart two integers are.
pub open spec fn distance(a: int, b: int) -> int {
    if a < b {
        b - a
    } else {
        a - b
    }
}

/// Among the integers within the bounds none is nearer to the target.
pub open spec fn is_nearest(n: int, min: Option<int>, max: Option<int>, target: int) -> bool {
    within(n, min, max) && forall|m: int| #[trigger]
        within(m, min, max) ==> distance(n, target) <= distance(m, target)
}

/// An integer is the nearest to its target, or the test does not fail so with that one in
/// its place; nor does it with the integer that comes right before it, unless it wavers.
pub open spec fn integer_is_simplest<S: Subject>(
    s: Seq<ChoiceModel>,
    i: int,
    node: Node,
    buffer_limit: Option<u64>,
    origin: OriginModel,
) -> bool {
    let v = node.value->Integer_0@;
    let k = node.constraints;
    let (min, max) = (bound(k->Integer_min_value), bound(k->Integer_max_value));
    let target = k->shrink_towards@;
    let with_integer = |n: int| s.update(i, ChoiceModel::Integer(n));
    within(v, min, max) && !is_nearest(v, min, max, target) ==> {
        &&& exists|n: int| #[trigger]
            is_nearest(n, min, max, target) && spared::<S>(with_integer(n), buffer_limit, origin)
        &&& exists|n: int|
            {
                &&& #[trigger] within(n, min, max)
                &&& {
                    ||| choice_index_of(ChoiceModel::Integer(n), k) == index_of_node(node) - 1
                        && spared::<S>(with_integer(n), buffer_limit, origin)
                    ||| wavers::<S>(with_integer(n), buffer_limit, origin)
                }
            }
    }
}

/// The bits of 0.0, -0.0, 1.0 or -1.0.
pub open spec fn zero_or_one(f: u64) -> bool {
    f == 0 || f == 0x8000_0000_0000_0000 || f == 0x3FF0_0000_0000_0000 || f
        == 0xBFF0_0000_0000_0000
}

/// A float is simpler than each of 0.0, -0.0, 1.0 and -1.0 that is permitted, or the test does
/// not fail so with that one in its place.
pub open spec fn float_is_simplest<S: Subject>(
    s: Seq<ChoiceModel>,
    i: int,
    node: Node,
    buffer_limit: Option<u64>,
    origin: OriginModel,
) -> bool {
    forall|f: u64| #[trigger]
        zero_or_one(f) && node.constraints.permits(ChoiceModel::Float(f))
            && choice_index_of(ChoiceModel::Float(f), node.constraints) < index_of_node(node)
            ==> spared::<S>(s.update(i, ChoiceModel::Float(f)), buffer_limit, origin)
}

/// A choice of an index, for some nodes at once, where the test does not fail so.
pub open spec fn spared_at<S: Subject>(
    s: Seq<ChoiceModel>,
    group: Seq<usize>,
    k: Constraints,
    n: int,
    buffer_limit: Option<u64>,
    origin: OriginModel,
) -> bool {
    exists|c: ChoiceModel, mixed: u64| #[trigger]
        choice_at(n, k, mixed, Ok(c)) && #[trigger] spared::<S>(
            with_group(s, group, c),
            buffer_limit,
            origin,
        )
}

/// A choice of an index, for some nodes at once, where the test fails so.
pub open spec fn hit_at<S: Subject>(
    s: Seq<ChoiceModel>,
    group: Seq<usize>,
    k: Constraints,
    n: int,
    buffer_limit: Option<u64>,
    origin: OriginModel,
) -> bool {
    exists|c: ChoiceModel, mixed: u64, after: Case, outcome: Outcome|
        {
            &&& #[trigger] choice_at(n, k, mixed, Ok(c))
            &&& #[trigger] played_back::<S>(
                with_group(s, group, c),
                buffer_limit,
                after,
                Ok(outcome),
            )
            &&& failed_with(outcome, origin)
        }
}

/// Nodes are not the simplest by their index, but the test does not fail so with the simplest
/// choice, nor with the one right before theirs, unless it contradicts itself on the way.
pub open spec fn cannot_be_lowered<S: Subject>(
    s: Seq<ChoiceModel>,
    group: Seq<usize>,
    k: Constraints,
    index: int,
    buffer_limit: Option<u64>,
    origin: OriginModel,
) -> bool {
    &&& spared_at::<S>(s, group, k, 0, buffer_limit, origin)
    &&& spared_at::<S>(s, group, k, index - 1, buffer_limit, origin) || exists|n: int|
        {
            &&& 0 < n < index
            &&& #[trigger] spared_at::<S>(s, group, k, n, buffer_limit, origin)
            &&& hit_at::<S>(s, group, k, n, buffer_limit, origin)
        }
}

proof fn lemma_refused_at<S: Subject>(
    log: Seq<Trial>,
    from: int,
    s: Seq<ChoiceModel>,
    group: Seq<usize>,
    k: Constraints,
    n: int,
    buffer_limit: Option<u64>,
    origin: OriginModel,
)
    requires
        witnessed::<S>(log, from, buffer_limit, origin),
    ensures
        tried_at::<S>(log, from, s, group, k, n, false) ==> spared_at::<S>(
            s,
            group,
            k,
            n,
            buffer_limit,
            origin,
        ),
        tried_at::<S>(log, from, s, group, k, n, true) ==> hit_at::<S>(
            s,
            group,
            k,
            n,
            buffer_limit,
            origin,
        ),
{
    if tried_at::<S>(log, from, s, group, k, n, false) {
        let (c, mixed) = lemma_zero_tried::<S>(log, from, s, group, k, n, false);
        lemma_tried_shows::<S>(log, from, buffer_limit, origin, with_group(s, group, c));
        assert(choice_at(n, k, mixed, Ok(c)));
    }
    if tried_at::<S>(log, from, s, group, k, n, true) {
        let (c, mixed) = lemma_zero_tried::<S>(log, from, s, group, k, n, true);
        let t = with_group(s, group, c);
        let i = choose|i: int|
            from <= i < log.len() && #[trigger] log[i] == (Trial { choices: t, fails: true });
        assert(shows::<S>(log[i], buffer_limit, origin));
        assert(choice_at(n, k, mixed, Ok(c)));
    }
}

proof fn lemma_cannot_be_lowered<S: Subject>(
    log: Seq<Trial>,
    from: int,
    s: Seq<ChoiceModel>,
    group: Seq<usize>,
    k: Constraints,
    index: int,
    buffer_limit: Option<u64>,
    origin: OriginModel,
)
    requires
        witnessed::<S>(log, from, buffer_limit, origin),
        refused::<S>(log, from, s, group, k, index),
    ensures
        cannot_be_lowered::<S>(s, group, k, index, buffer_limit, origin),
{
    lemma_refused_at::<S>(log, from, s, group, k, 0, buffer_limit, origin);
    if tried_at::<S>(log, from, s, group, k, index - 1, false) {
        lemma_refused_at::<S>(log, from, s, group, k, index - 1, buffer_limit, origin);
    } else {
        let n = choose|n: int|
            0 < n < index && #[trigger] tried_at::<S>(log, from, s, group, k, n, true)
                && tried_at::<S>(log, from, s, group, k, n, false);
        lemma_refused_at::<S>(log, from, s, group, k, n, buffer_limit, origin);
    }
}

/// Nothing simpler fails so at one node.
pub open spec fn node_is_simplest<S: Subject>(
    s: Seq<ChoiceModel>,
    i: int,
    node: Node,
    buffer_limit: Option<u64>,
    origin: OriginModel,
) -> bool {
    let short = node.value is Bytes ==> node.value->Bytes_0@.len() <= u32::MAX;
    node.was_forced || (!(node.constraints is Text) && short && index_of_node(node) > 0
        ==> cannot_be_lowered::<S>(
        s,
        seq![i as usize],
        node.constraints,
        index_of_node(node),
        buffer_limit,
        origin,
    )) && match node.constraints {
        Constraints::Integer { .. } => integer_is_simplest::<S>(s, i, node, buffer_limit, origin),
        Constraints::Boolean { p } => node.value->Boolean_0 && crate::choice::both_likely(p)
            ==> spared::<S>(s.update(i, ChoiceModel::Boolean(false)), buffer_limit, origin),
        Constraints::Float(_) => float_is_simplest::<S>(s, i, node, buffer_limit, origin),
        Constraints::Text { .. } => string_is_simplest::<S>(s, i, node, buffer_limit, origin),
        Constraints::Bytes { .. } => node.value->Bytes_0@.len() <= u32::MAX && index_of_node(node)
            > 0 ==> exists|b: Seq<u8>|
            {
                &&& #[trigger] choice_at(0, node.constraints, 0, Ok(ChoiceModel::Bytes(b)))
                &&& spared::<S>(s.update(i, ChoiceModel::Bytes(b)), buffer_limit, origin)
            },
    }
}

/// Nothing simpler fails so: not without a block of eight, four, three, two or one choices,
/// not with something simpler at a node, and where there are few nodes, not with two numbers
/// near each other at their simplest, and not with all nodes of a value at their simplest.
pub open spec fn cannot_be_simplified<S: Subject>(
    nodes: Seq<Node>,
    buffer_limit: Option<u64>,
    origin: OriginModel,
) -> bool {
    let s = recorded(nodes);
    &&& forall|x: int, size: int|
        (size == 8 || size == 4 || size == 3 || size == 2 || size == 1) && 0 <= x && x + size
            <= s.len() ==> #[trigger] spared::<S>(
            s.take(x) + s.skip(x + size),
            buffer_limit,
            origin,
        )
    &&& forall|i: int|
        0 <= i < nodes.len() ==> node_is_simplest::<S>(
            s,
            i,
            #[trigger] nodes[i],
            buffer_limit,
            origin,
        )
    &&& nodes.len() <= 256 ==> forall|i: int, j: int|
        0 <= i < j < nodes.len() && j <= i + 8 && is_number(#[trigger] nodes[i]) && is_number(
            #[trigger] nodes[j],
        ) && index_of_node(nodes[i]) != 0 && index_of_node(nodes[j]) != 0 ==> spared::<S>(
            s.update(i, simplest_of(nodes[i].constraints)->Ok_0).update(
                j,
                simplest_of(nodes[j].constraints)->Ok_0,
            ),
            buffer_limit,
            origin,
        )
    &&& nodes.len() <= 256 ==> forall|a: int, b: int|
        0 <= a < b < nodes.len() && (#[trigger] nodes[a]).value@ == (#[trigger] nodes[b]).value@
            && is_number(nodes[a]) && index_of_node(nodes[a]) > 0 ==> alike_is_simplest::<S>(
            nodes,
            a,
            b,
            buffer_limit,
            origin,
        )
}

/// The node holds a number or a truth value.
pub open spec fn is_number(n: Node) -> bool {
    n.value is Integer || n.value is Float || n.value is Boolean
}

/// Two nodes of one value, and all the others of it behind the first one of them, cannot be
/// lowered together: the test does not fail so with them at a simplest choice, nor at the one
/// right before theirs, unless it contradicts itself on the way.
pub open spec fn alike_is_simplest<S: Subject>(
    nodes: Seq<Node>,
    a: int,
    b: int,
    buffer_limit: Option<u64>,
    origin: OriginModel,
) -> bool {
    exists|group: Seq<usize>|
        {
            &&& #[trigger] gathers(nodes, a, group)
            &&& in_group(group, b)
            &&& cannot_be_lowered::<S>(
                recorded(nodes),
                group,
                nodes[group[0] as int].constraints,
                index_of_node(nodes[group[0] as int]),
                buffer_limit,
                origin,
            )
        }
}

/// The nodes of one value, from the first one of them on that can be lowered.
pub open spec fn gathers(nodes: Seq<Node>, a: int, group: Seq<usize>) -> bool {
    &&& group.len() > 0 && group[0] <= a < nodes.len()
    &&& forall|x: int|
        0 <= x < nodes.len() ==> (#[trigger] in_group(group, x) <==> group[0] <= x
            && nodes[x].value@ == nodes[a].value@)
}

proof fn lemma_zero_tried<S: Subject>(
    log: Seq<Trial>,
    from: int,
    s: Seq<ChoiceModel>,
    group: Seq<usize>,
    k: Constraints,
    n: int,
    fails: bool,
) -> (r: (ChoiceModel, u64))
    requires
        tried_at::<S>(log, from, s, group, k, n, fails),
    ensures
        choice_at(n, k, r.1, Ok(r.0)),
        !(k is Float) ==> r.1 == 0,
        tried(log, from, with_group(s, group, r.0), fails),
{
    let t = choose|t: Seq<ChoiceModel>| #[trigger]
        lowered::<S>(s, group, k, n, t) && tried(log, from, t, fails);
    let (c, mixed) = choose|c: ChoiceModel, mixed: u64|
        choice_at(n, k, mixed, Ok(c)) && t == #[trigger] with_group(s, group, c)
            && #[trigger] mixed_for::<S>(k, n, mixed);
    (c, mixed)
}

proof fn lemma_node_is_simplest<S: Subject>(
    log: Seq<Trial>,
    from: int,
    s: Seq<ChoiceModel>,
    i: int,
    node: Node,
    buffer_limit: Option<u64>,
    origin: OriginModel,
)
    requires
        witnessed::<S>(log, from, buffer_limit, origin),
        node_settled::<S>(log, from, s, i, node),
        node_wf(node),
        0 <= i < s.len() <= usize::MAX,
    ensures
        node_is_simplest::<S>(s, i, node, buffer_limit, origin),
{
    let group = seq![i as usize];
    let k = node.constraints;
    if node.was_forced {
    } else if node.value is Text {
        lemma_string_is_simplest::<S>(log, from, s, i, node, buffer_limit, origin);
    } else {
        if k is Float {
            assert forall|f: u64| #[trigger]
                zero_or_one(f) && k.permits(ChoiceModel::Float(f))
                    && choice_index_of(ChoiceModel::Float(f), k) < index_of_node(
                    node,
                ) implies spared::<S>(
                s.update(i, ChoiceModel::Float(f)),
                buffer_limit,
                origin,
            ) by {
                let all = plain_floats();
                assert(all[0] == 0 && all[1] == 0x8000_0000_0000_0000 && all[2]
                    == 0x3FF0_0000_0000_0000 && all[3] == 0xBFF0_0000_0000_0000);
                assert(all.contains(f));
                lemma_one_node(s, i, ChoiceModel::Float(f));
                lemma_tried_shows::<S>(
                    log,
                    from,
                    buffer_limit,
                    origin,
                    with_group(s, group, ChoiceModel::Float(f)),
                );
            }
        }
        if countable(node) && index_of_node(node) > 0 {
            let index = index_of_node(node);
            assert(refused::<S>(log, from, s, group, k, index));
            lemma_cannot_be_lowered::<S>(log, from, s, group, k, index, buffer_limit, origin);
            let (c, _) = lemma_zero_tried::<S>(log, from, s, group, k, 0, false);
            lemma_one_node(s, i, c);
            lemma_tried_shows::<S>(log, from, buffer_limit, origin, with_group(s, group, c));
            if k is Integer {
                lemma_integer_is_simplest::<S>(log, from, s, i, node, buffer_limit, origin);
            }
            if k is Bytes {
                assert(c is Bytes);
                assert(choice_at(0, k, 0, Ok(ChoiceModel::Bytes(c->Bytes_0))));
            }
        } else if k is Integer && within(
            node.value->Integer_0@,
            bound(k->Integer_min_value),
            bound(k->Integer_max_value),
        ) {
            lemma_index_of_nearest(node);
        }
    }
}

proof fn lemma_index_of_nearest(node: Node)
    requires
        node_wf(node),
        node.constraints is Integer,
        within(
            node.value->Integer_0@,
            bound(node.constraints->Integer_min_value),
            bound(node.constraints->Integer_max_value),
        ),
        index_of_node(node) <= 0,
    ensures
        is_nearest(
            node.value->Integer_0@,
            bound(node.constraints->Integer_min_value),
            bound(node.constraints->Integer_max_value),
            node.constraints->shrink_towards@,
        ),
{
    let k = node.constraints;
    let (min, max) = (bound(k->Integer_min_value), bound(k->Integer_max_value));
    let target = k->shrink_towards@;
    let v = node.value->Integer_0@;
    crate::ordering::int_value_survives_its_index(v, min, max, target);
    crate::ordering::int_index_zero_is_the_target(min, max, target);
}

proof fn lemma_integer_is_simplest<S: Subject>(
    log: Seq<Trial>,
    from: int,
    s: Seq<ChoiceModel>,
    i: int,
    node: Node,
    buffer_limit: Option<u64>,
    origin: OriginModel,
)
    requires
        witnessed::<S>(log, from, buffer_limit, origin),
        refused::<S>(
            log,
            from,
            s,
            seq![i as usize],
            node.constraints,
            index_of_node(node),
        ),
        node_wf(node),
        node.constraints is Integer,
        index_of_node(node) > 0,
        0 <= i < s.len() <= usize::MAX,
    ensures
        integer_is_simplest::<S>(s, i, node, buffer_limit, origin),
{
    let group = seq![i as usize];
    let k = node.constraints;
    let index = index_of_node(node);
    let v = node.value->Integer_0@;
    let (min, max) = (bound(k->Integer_min_value), bound(k->Integer_max_value));
    let target = k->shrink_towards@;
    let with_integer = |n: int| s.update(i, ChoiceModel::Integer(n));
    if within(v, min, max) {
        crate::ordering::int_index_zero_is_the_target(min, max, target);
        crate::ordering::int_value_survives_its_index(v, min, max, target);
        let (c, _) = lemma_zero_tried::<S>(log, from, s, group, k, 0, false);
        lemma_one_node(s, i, c);
        lemma_tried_shows::<S>(log, from, buffer_limit, origin, with_group(s, group, c));
        let n = c->Integer_0;
        assert(is_nearest(n, min, max, target));
        assert(spared::<S>(with_integer(n), buffer_limit, origin));
        if tried_at::<S>(log, from, s, group, k, index - 1, false) {
            let (d, _) = lemma_zero_tried::<S>(log, from, s, group, k, index - 1, false);
            lemma_one_node(s, i, d);
            lemma_tried_shows::<S>(log, from, buffer_limit, origin, with_group(s, group, d));
            crate::ordering::int_index_survives_its_value(index - 1, min, max, target);
            assert(within(d->Integer_0, min, max));
            assert(spared::<S>(with_integer(d->Integer_0), buffer_limit, origin));
        } else {
            let m = choose|m: int|
                0 < m < index && #[trigger] tried_at::<S>(log, from, s, group, k, m, true)
                    && tried_at::<S>(log, from, s, group, k, m, false);
            let (d, _) = lemma_zero_tried::<S>(log, from, s, group, k, m, true);
            let (e, _) = lemma_zero_tried::<S>(log, from, s, group, k, m, false);
            lemma_one_node(s, i, d);
            assert(d == e);
            lemma_tried_shows::<S>(log, from, buffer_limit, origin, with_group(s, group, d));
            crate::ordering::int_index_survives_its_value(m, min, max, target);
            assert(within(d->Integer_0, min, max));
            assert(wavers::<S>(with_integer(d->Integer_0), buffer_limit, origin));
        }
    }
}

proof fn lemma_alike_is_simplest<S: Subject>(
    log: Seq<Trial>,
    from: int,
    nodes: Seq<Node>,
    a: int,
    b: int,
    buffer_limit: Option<u64>,
    origin: OriginModel,
)
    requires
        witnessed::<S>(log, from, buffer_limit, origin),
        0 <= a < b < nodes.len(),
        nodes[a].value@ == nodes[b].value@,
        alike_refused::<S>(log, from, recorded(nodes), nodes, a),
    ensures
        alike_is_simplest::<S>(nodes, a, b, buffer_limit, origin),
{
    let s = recorded(nodes);
    let group = choose|group: Seq<usize>|
        group.len() >= 2 && in_group(group, a) && group_alike(group, nodes, a)
            && crate::shrinker::group_whole(group, nodes, a) && #[trigger] refused::<S>(
            log,
            from,
            s,
            group,
            nodes[group[0] as int].constraints,
            index_of_node(nodes[group[0] as int]),
        );
    lemma_cannot_be_lowered::<S>(
        log,
        from,
        s,
        group,
        nodes[group[0] as int].constraints,
        index_of_node(nodes[group[0] as int]),
        buffer_limit,
        origin,
    );
    assert forall|x: int| 0 <= x < nodes.len() implies (#[trigger] in_group(group, x)
        <==> group[0] <= x && nodes[x].value@ == nodes[a].value@) by {
        if in_group(group, x) {
            let g = choose|g: int| 0 <= g < group.len() && #[trigger] group[g] == x;
            assert(nodes[group[g] as int].value@ == nodes[a].value@);
        }
    }
    assert(gathers(nodes, a, group));
    assert(nodes[b].value@ == nodes[a].value@);
}

/// Shrinking goes on until nothing simpler fails in the same way. It ends before only where
/// there were as many shrinks as allowed or a hundred and fifty of them, or where a failure
/// did not come back.
pub proof fn shrinking_ends_where_nothing_simpler_fails<S: Subject>(
    r: Shrunk,
    now: Trials,
    then: Trials,
    start: Seq<ChoiceModel>,
    failure: Failure,
    shrink_cap: u64,
)
    requires
        shrunk_from::<S>(r, now, then, start, failure, shrink_cap),
        !r.lost,
        r.report.total_shrinks < shrink_cap,
        r.report.total_shrinks < 150,
    ensures
        exists|after: Case|
            {
                &&& #[trigger] played_back::<S>(
                    models(r.choices@),
                    now.buffer_limit,
                    after,
                    Ok(Outcome::Interesting(r.failure)),
                )
                &&& cannot_be_simplified::<S>(after.nodes@, now.buffer_limit, failure.origin@)
            },
{
    let n0 = then.log@.len() as int;
    let limit = now.buffer_limit;
    let origin = failure.origin@;
    let after = choose|after: Case|
        {
            &&& #[trigger] played_back::<S>(
                models(r.choices@),
                limit,
                after,
                Ok(Outcome::Interesting(r.failure)),
            )
            &&& after.wf() && nothing_left::<S>(now.log@, n0, after.nodes@)
        };
    let nodes = after.nodes@;
    let s = recorded(nodes);
    let log = now.log@;
    assert(witnessed::<S>(log, n0, limit, origin));
    assert forall|x: int, size: int|
        (size == 8 || size == 4 || size == 3 || size == 2 || size == 1) && 0 <= x && x + size
            <= s.len() implies #[trigger] spared::<S>(
        s.take(x) + s.skip(x + size),
        limit,
        origin,
    ) by {
        assert(tried(log, n0, without(s, x, size), false));
        lemma_tried_shows::<S>(log, n0, limit, origin, without(s, x, size));
    }
    assert(nodes.len() <= usize::MAX) by {
        assert(after.nodes.len() <= usize::MAX);
    }
    assert forall|i: int| 0 <= i < nodes.len() implies node_is_simplest::<S>(
        s,
        i,
        #[trigger] nodes[i],
        limit,
        origin,
    ) by {
        assert(node_wf(nodes[i]));
        lemma_node_is_simplest::<S>(log, n0, s, i, nodes[i], limit, origin);
    }
    if nodes.len() <= 256 {
        assert forall|i: int, j: int|
            0 <= i < j < nodes.len() && j <= i + 8 && is_number(#[trigger] nodes[i]) && is_number(
                #[trigger] nodes[j],
            ) && index_of_node(nodes[i]) != 0 && index_of_node(nodes[j]) != 0 implies spared::<S>(
            s.update(i, simplest_of(nodes[i].constraints)->Ok_0).update(
                j,
                simplest_of(nodes[j].constraints)->Ok_0,
            ),
            limit,
            origin,
        ) by {
            assert(pair_eligible(nodes, i, j));
            lemma_tried_shows::<S>(log, n0, limit, origin, pair_zeroed(s, nodes, i, j));
        }
        assert forall|a: int, b: int|
            0 <= a < b < nodes.len() && (#[trigger] nodes[a]).value@ == (
            #[trigger] nodes[b]).value@ && is_number(nodes[a]) && index_of_node(nodes[a])
                > 0 implies alike_is_simplest::<S>(nodes, a, b, limit, origin) by {
            assert(alike_refused::<S>(log, n0, s, nodes, a));
            lemma_alike_is_simplest::<S>(log, n0, nodes, a, b, limit, origin);
        }
    }
}

/// Setting nodes together sets each of them, and leaves all others as they are.
pub proof fn groups_are_set_together(
    s: Seq<ChoiceModel>,
    group: Seq<usize>,
    c: ChoiceModel,
    x: int,
)
    requires
        0 <= x < s.len(),
    ensures
        with_group(s, group, c).len() == s.len(),
        with_group(s, group, c)[x] == (if exists|g: int|
            0 <= g < group.len() && #[trigger] group[g] == x {
            c
        } else {
            s[x]
        }),
{
}

} // verus!
