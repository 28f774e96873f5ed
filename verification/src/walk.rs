//! Walks over strategies: copies of them, and the objects of the host in them.
use crate::drawing::{conforms, is_sample, Value};
use crate::integer::Int;
use crate::intervalset::IntervalSet;
use crate::ordering::bound;
use crate::strategy::{Atom, FixedItem, NamedNode, Ratio, StrategyNode};
use vstd::prelude::*;

verus! {

// ---- copies -----------------------------------------------------------------

/// The numerator and the denominator of a fraction, where there is one.
pub open spec fn parts(r: Option<Ratio>) -> Option<(int, int)> {
    match r {
        Some(q) => Some((q.num@, q.den@)),
        None => None,
    }
}

/// The ends of a range of integers, where there is one.
pub open spec fn ends(r: Option<(Int, Int)>) -> Option<(int, int)> {
    match r {
        Some(q) => Some((q.0@, q.1@)),
        None => None,
    }
}

/// A list of atoms, where there is one.
pub open spec fn listed(r: Option<Vec<Atom>>) -> Option<Seq<Atom>> {
    match r {
        Some(v) => Some(v@),
        None => None,
    }
}

/// The two sets have the same intervals.
pub open spec fn same_set(a: IntervalSet, b: IntervalSet) -> bool {
    a.intervals@ == b.intervals@
}

/// The two strategies are the same, part by part.
pub open spec fn alike(a: StrategyNode, b: StrategyNode) -> bool
    decreases a,
{
    match (a, b) {
        (
            StrategyNode::Integers { min, max },
            StrategyNode::Integers { min: min2, max: max2 },
        ) => bound(min) == bound(min2) && bound(max) == bound(max2),
        (StrategyNode::Booleans, StrategyNode::Booleans) => true,
        (StrategyNode::Floats { .. }, StrategyNode::Floats { .. }) => a == b,
        (StrategyNode::NoneVal, StrategyNode::NoneVal) => true,
        (StrategyNode::Just(x), StrategyNode::Just(y)) => x == y,
        (StrategyNode::Nothing, StrategyNode::Nothing) => true,
        (
            StrategyNode::SampledFrom { elements, is_tuple },
            StrategyNode::SampledFrom { elements: elements2, is_tuple: is_tuple2 },
        ) => elements@ == elements2@ && is_tuple == is_tuple2,
        (
            StrategyNode::SampledFromRange { start, stop, step, len },
            StrategyNode::SampledFromRange { start: start2, stop: stop2, step: step2, len: len2 },
        ) => start@ == start2@ && stop@ == stop2@ && step@ == step2@ && len@ == len2@,
        (StrategyNode::OneOf(c), StrategyNode::OneOf(d)) => c@.len() == d@.len() && (forall|i: int|
            0 <= i < c@.len() ==> alike(#[trigger] c@[i], d@[i])),
        (StrategyNode::Tuples(c), StrategyNode::Tuples(d)) => c@.len() == d@.len() && (forall|
            i: int,
        |
            0 <= i < c@.len() ==> alike(#[trigger] c@[i], d@[i])),
        (
            StrategyNode::Lists { elem, min, max, unique_by, swap_domain },
            StrategyNode::Lists {
                elem: elem2,
                min: min2,
                max: max2,
                unique_by: unique_by2,
                swap_domain: swap_domain2,
            },
        ) => alike(*elem, *elem2) && min == min2 && max == max2 && unique_by@ == unique_by2@
            && listed(swap_domain) == listed(swap_domain2),
        (StrategyNode::Deferred { thunk }, StrategyNode::Deferred { thunk: thunk2 }) => thunk
            == thunk2,
        (
            StrategyNode::Sets { elem, min, max, frozen },
            StrategyNode::Sets { elem: elem2, min: min2, max: max2, frozen: frozen2 },
        ) => alike(*elem, *elem2) && min == min2 && max == max2 && frozen == frozen2,
        (
            StrategyNode::Dictionaries { keys, values, min, max },
            StrategyNode::Dictionaries { keys: keys2, values: values2, min: min2, max: max2 },
        ) => alike(*keys, *keys2) && alike(*values, *values2) && min == min2 && max == max2,
        (
            StrategyNode::FixedDict { items },
            StrategyNode::FixedDict { items: items2 },
        ) => items@.len() == items2@.len() && (forall|i: int|
            0 <= i < items@.len() ==> (#[trigger] items@[i]).key == items2@[i].key && alike(
                items@[i].value,
                items2@[i].value,
            )),
        (
            StrategyNode::Text { alphabet, min, max },
            StrategyNode::Text { alphabet: alphabet2, min: min2, max: max2 },
        ) => same_set(alphabet.members(), alphabet2.members()) && min == min2 && max == max2,
        (
            StrategyNode::Characters { alphabet, repr },
            StrategyNode::Characters { alphabet: alphabet2, repr: repr2 },
        ) => same_set(alphabet.members(), alphabet2.members()) && repr@ == repr2@,
        (StrategyNode::Binary { .. }, StrategyNode::Binary { .. }) => a == b,
        (
            StrategyNode::Mapped { base, func },
            StrategyNode::Mapped { base: base2, func: func2 },
        ) => alike(*base, *base2) && func == func2,
        (
            StrategyNode::Filtered { base, func },
            StrategyNode::Filtered { base: base2, func: func2 },
        ) => alike(*base, *base2) && func == func2,
        (
            StrategyNode::Flatmapped { base, func },
            StrategyNode::Flatmapped { base: base2, func: func2 },
        ) => alike(*base, *base2) && func == func2,
        (StrategyNode::Uuids { .. }, StrategyNode::Uuids { .. }) => a == b,
        (StrategyNode::Permutations(v), StrategyNode::Permutations(w)) => v@ == w@,
        (
            StrategyNode::Builds { target, args, kwargs },
            StrategyNode::Builds { target: target2, args: args2, kwargs: kwargs2 },
        ) => {
            &&& target == target2
            &&& args@.len() == args2@.len()
            &&& forall|i: int| 0 <= i < args@.len() ==> alike(#[trigger] args@[i], args2@[i])
            &&& kwargs@.len() == kwargs2@.len()
            &&& forall|i: int|
                0 <= i < kwargs@.len() ==> (#[trigger] kwargs@[i]).name@ == kwargs2@[i].name@
                    && alike(kwargs@[i].node, kwargs2@[i].node)
        },
        (StrategyNode::Composite { func }, StrategyNode::Composite { func: func2 }) => func == func2,
        (StrategyNode::Dates { .. }, StrategyNode::Dates { .. }) => a == b,
        (StrategyNode::Times { .. }, StrategyNode::Times { .. }) => a == b,
        (StrategyNode::Datetimes { .. }, StrategyNode::Datetimes { .. }) => a == b,
        (
            StrategyNode::Timedeltas { min_us, max_us },
            StrategyNode::Timedeltas { min_us: min_us2, max_us: max_us2 },
        ) => min_us@ == min_us2@ && max_us@ == max_us2@,
        (StrategyNode::ComplexNumbers { .. }, StrategyNode::ComplexNumbers { .. }) => a == b,
        (
            StrategyNode::IpAddresses { v6, net_range },
            StrategyNode::IpAddresses { v6: v62, net_range: net_range2 },
        ) => v6 == v62 && ends(net_range) == ends(net_range2),
        (StrategyNode::Slices { size }, StrategyNode::Slices { size: size2 }) => size == size2,
        (
            StrategyNode::Fractions { min, max, max_denom },
            StrategyNode::Fractions { min: min2, max: max2, max_denom: max_denom2 },
        ) => parts(min) == parts(min2) && parts(max) == parts(max2) && max_denom == max_denom2,
        (
            StrategyNode::Decimals { min, max, places },
            StrategyNode::Decimals { min: min2, max: max2, places: places2 },
        ) => parts(min) == parts(min2) && parts(max) == parts(max2) && places == places2,
        (StrategyNode::Data, StrategyNode::Data) => true,
        (
            StrategyNode::Functions { id, result, pure },
            StrategyNode::Functions { id: id2, result: result2, pure: pure2 },
        ) => id == id2 && alike(*result, *result2) && pure == pure2,
        (StrategyNode::Randoms { .. }, StrategyNode::Randoms { .. }) => a == b,
        (
            StrategyNode::Invalid { msg, resolution_failed },
            StrategyNode::Invalid { msg: msg2, resolution_failed: resolution_failed2 },
        ) => msg@ == msg2@ && resolution_failed == resolution_failed2,
        (
            StrategyNode::Shared { base, key, shown },
            StrategyNode::Shared { base: base2, key: key2, shown: shown2 },
        ) => alike(*base, *base2) && key@ == key2@ && shown@ == shown2@,
        (StrategyNode::Foreign { id }, StrategyNode::Foreign { id: id2 }) => id == id2,
        _ => false,
    }
}

fn copy_ratio(r: &Option<Ratio>) -> (c: Option<Ratio>)
    ensures
        parts(*r) == parts(c),
{
    match r {
        Some(q) => Some(Ratio { num: q.num.clone(), den: q.den.clone() }),
        None => None,
    }
}

fn copy_bound(n: &Option<Int>) -> (c: Option<Int>)
    ensures
        bound(*n) == bound(c),
{
    match n {
        Some(v) => Some(v.clone()),
        None => None,
    }
}

fn copy_atoms(v: &Vec<Atom>) -> (c: Vec<Atom>)
    ensures
        c@ == v@,
{
    let c = v.clone();
    assert(c@ =~= v@);
    c
}

fn copy_nodes(v: &Vec<StrategyNode>) -> (c: Vec<StrategyNode>)
    ensures
        c@.len() == v@.len(),
        forall|i: int| 0 <= i < v@.len() ==> alike(#[trigger] v@[i], c@[i]),
    decreases *v,
{
    let mut c: Vec<StrategyNode> = Vec::new();
    let mut i: usize = 0;
    while i < v.len()
        invariant
            i <= v.len(),
            c@.len() == i,
            forall|k: int| 0 <= k < i ==> alike(#[trigger] v@[k], c@[k]),
        decreases v.len() - i,
    {
        c.push(copy_node(&v[i]));
        i = i + 1;
    }
    c
}

fn copy_items(v: &Vec<FixedItem>) -> (c: Vec<FixedItem>)
    ensures
        c@.len() == v@.len(),
        forall|i: int|
            0 <= i < v@.len() ==> (#[trigger] v@[i]).key == c@[i].key && alike(
                v@[i].value,
                c@[i].value,
            ),
    decreases *v,
{
    let mut c: Vec<FixedItem> = Vec::new();
    let mut i: usize = 0;
    while i < v.len()
        invariant
            i <= v.len(),
            c@.len() == i,
            forall|k: int|
                0 <= k < i ==> (#[trigger] v@[k]).key == c@[k].key && alike(
                    v@[k].value,
                    c@[k].value,
                ),
        decreases v.len() - i,
    {
        c.push(FixedItem { key: v[i].key, value: copy_node(&v[i].value) });
        i = i + 1;
    }
    c
}

fn copy_named(v: &Vec<NamedNode>) -> (c: Vec<NamedNode>)
    ensures
        c@.len() == v@.len(),
        forall|i: int|
            0 <= i < v@.len() ==> (#[trigger] v@[i]).name@ == c@[i].name@ && alike(
                v@[i].node,
                c@[i].node,
            ),
    decreases *v,
{
    let mut c: Vec<NamedNode> = Vec::new();
    let mut i: usize = 0;
    while i < v.len()
        invariant
            i <= v.len(),
            c@.len() == i,
            forall|k: int|
                0 <= k < i ==> (#[trigger] v@[k]).name@ == c@[k].name@ && alike(
                    v@[k].node,
                    c@[k].node,
                ),
        decreases v.len() - i,
    {
        c.push(NamedNode { name: v[i].name.clone(), node: copy_node(&v[i].node) });
        i = i + 1;
    }
    c
}

/// The same strategy once more.
pub fn copy_node(node: &StrategyNode) -> (r: StrategyNode)
    ensures
        alike(*node, r),
    decreases *node,
{
    match node {
        StrategyNode::Integers { min, max } => StrategyNode::Integers {
            min: copy_bound(min),
            max: copy_bound(max),
        },
        StrategyNode::Booleans => StrategyNode::Booleans,
        StrategyNode::Floats { min, max, allow_nan, allow_inf, snm, width } => {
            StrategyNode::Floats {
                min: *min,
                max: *max,
                allow_nan: *allow_nan,
                allow_inf: *allow_inf,
                snm: *snm,
                width: *width,
            }
        },
        StrategyNode::NoneVal => StrategyNode::NoneVal,
        StrategyNode::Just(a) => StrategyNode::Just(*a),
        StrategyNode::Nothing => StrategyNode::Nothing,
        StrategyNode::SampledFrom { elements, is_tuple } => StrategyNode::SampledFrom {
            elements: copy_atoms(elements),
            is_tuple: *is_tuple,
        },
        StrategyNode::SampledFromRange { start, stop, step, len } => {
            StrategyNode::SampledFromRange {
                start: start.clone(),
                stop: stop.clone(),
                step: step.clone(),
                len: len.clone(),
            }
        },
        StrategyNode::OneOf(children) => StrategyNode::OneOf(copy_nodes(children)),
        StrategyNode::Tuples(children) => StrategyNode::Tuples(copy_nodes(children)),
        StrategyNode::Lists { elem, min, max, unique_by, swap_domain } => {
            let keys = unique_by.clone();
            assert(keys@ =~= unique_by@);
            let domain = match swap_domain {
                Some(d) => Some(copy_atoms(d)),
                None => None,
            };
            StrategyNode::Lists {
                elem: Box::new(copy_node(elem)),
                min: *min,
                max: *max,
                unique_by: keys,
                swap_domain: domain,
            }
        },
        StrategyNode::Deferred { thunk } => StrategyNode::Deferred { thunk: *thunk },
        StrategyNode::Sets { elem, min, max, frozen } => StrategyNode::Sets {
            elem: Box::new(copy_node(elem)),
            min: *min,
            max: *max,
            frozen: *frozen,
        },
        StrategyNode::Dictionaries { keys, values, min, max } => StrategyNode::Dictionaries {
            keys: Box::new(copy_node(keys)),
            values: Box::new(copy_node(values)),
            min: *min,
            max: *max,
        },
        StrategyNode::FixedDict { items } => StrategyNode::FixedDict { items: copy_items(items) },
        StrategyNode::Text { alphabet, min, max } => StrategyNode::Text {
            alphabet: alphabet.copy(),
            min: *min,
            max: *max,
        },
        StrategyNode::Characters { alphabet, repr } => StrategyNode::Characters {
            alphabet: alphabet.copy(),
            repr: repr.clone(),
        },
        StrategyNode::Binary { min, max } => StrategyNode::Binary { min: *min, max: *max },
        StrategyNode::Mapped { base, func } => StrategyNode::Mapped {
            base: Box::new(copy_node(base)),
            func: *func,
        },
        StrategyNode::Filtered { base, func } => StrategyNode::Filtered {
            base: Box::new(copy_node(base)),
            func: *func,
        },
        StrategyNode::Flatmapped { base, func } => StrategyNode::Flatmapped {
            base: Box::new(copy_node(base)),
            func: *func,
        },
        StrategyNode::Uuids { version, allow_nil } => StrategyNode::Uuids {
            version: *version,
            allow_nil: *allow_nil,
        },
        StrategyNode::Permutations(values) => StrategyNode::Permutations(copy_atoms(values)),
        StrategyNode::Builds { target, args, kwargs } => StrategyNode::Builds {
            target: *target,
            args: copy_nodes(args),
            kwargs: copy_named(kwargs),
        },
        StrategyNode::Composite { func } => StrategyNode::Composite { func: *func },
        StrategyNode::Dates { min_ord, max_ord } => StrategyNode::Dates {
            min_ord: *min_ord,
            max_ord: *max_ord,
        },
        StrategyNode::Times { min_us, max_us } => StrategyNode::Times {
            min_us: *min_us,
            max_us: *max_us,
        },
        StrategyNode::Datetimes { min_ord, max_ord } => StrategyNode::Datetimes {
            min_ord: *min_ord,
            max_ord: *max_ord,
        },
        StrategyNode::Timedeltas { min_us, max_us } => StrategyNode::Timedeltas {
            min_us: min_us.clone(),
            max_us: max_us.clone(),
        },
        StrategyNode::ComplexNumbers { allow_nan } => StrategyNode::ComplexNumbers {
            allow_nan: *allow_nan,
        },
        StrategyNode::IpAddresses { v6, net_range } => {
            let range = match net_range {
                Some(q) => Some((q.0.clone(), q.1.clone())),
                None => None,
            };
            StrategyNode::IpAddresses { v6: *v6, net_range: range }
        },
        StrategyNode::Slices { size } => StrategyNode::Slices { size: *size },
        StrategyNode::Fractions { min, max, max_denom } => StrategyNode::Fractions {
            min: copy_ratio(min),
            max: copy_ratio(max),
            max_denom: *max_denom,
        },
        StrategyNode::Decimals { min, max, places } => StrategyNode::Decimals {
            min: copy_ratio(min),
            max: copy_ratio(max),
            places: *places,
        },
        StrategyNode::Data => StrategyNode::Data,
        StrategyNode::Functions { id, result, pure } => StrategyNode::Functions {
            id: *id,
            result: Box::new(copy_node(result)),
            pure: *pure,
        },
        StrategyNode::Randoms { use_true_random, note_method_calls } => StrategyNode::Randoms {
            use_true_random: *use_true_random,
            note_method_calls: *note_method_calls,
        },
        StrategyNode::Invalid { msg, resolution_failed } => StrategyNode::Invalid {
            msg: msg.clone(),
            resolution_failed: *resolution_failed,
        },
        StrategyNode::Shared { base, key, shown } => StrategyNode::Shared {
            base: Box::new(copy_node(base)),
            key: key.clone(),
            shown: shown.clone(),
        },
        StrategyNode::Foreign { id } => StrategyNode::Foreign { id: *id },
    }
}

// ---- mentions ---------------------------------------------------------------

/// Something of the host that a strategy mentions.
#[derive(Clone, Copy, Debug, PartialEq, Eq, Structural)]
pub enum Mention {
    Object(u64),
    /// A function that a deferred strategy comes from.
    Thunk(u64),
}

/// What an atom mentions.
pub open spec fn of_atom(a: Atom) -> Seq<Mention> {
    match a {
        Atom::Host(id) => seq![Mention::Object(id)],
        _ => Seq::empty(),
    }
}

/// What the first `n` atoms mention.
pub open spec fn of_atoms(s: Seq<Atom>, n: nat) -> Seq<Mention>
    decreases n,
{
    if n == 0 || n > s.len() {
        Seq::empty()
    } else {
        of_atoms(s, (n - 1) as nat) + of_atom(s[n - 1])
    }
}

/// What a strategy mentions, from left to right, functions before what they are
/// applied to.
pub open spec fn mentioned(node: StrategyNode) -> Seq<Mention>
    decreases node, 1int,
{
    match node {
        StrategyNode::Just(a) => of_atom(a),
        StrategyNode::SampledFrom { elements, .. } => of_atoms(elements@, elements@.len()),
        StrategyNode::Permutations(values) => of_atoms(values@, values@.len()),
        StrategyNode::OneOf(children) => of_nodes(children@, children@.len()),
        StrategyNode::Tuples(children) => of_nodes(children@, children@.len()),
        StrategyNode::Lists { elem, .. } => mentioned(*elem),
        StrategyNode::Sets { elem, .. } => mentioned(*elem),
        StrategyNode::Dictionaries { keys, values, .. } => mentioned(*keys) + mentioned(*values),
        StrategyNode::FixedDict { items } => of_items(items@, items@.len()),
        StrategyNode::Mapped { base, func } => seq![Mention::Object(func)] + mentioned(*base),
        StrategyNode::Filtered { base, func } => seq![Mention::Object(func)] + mentioned(*base),
        StrategyNode::Flatmapped { base, func } => seq![Mention::Object(func)] + mentioned(*base),
        StrategyNode::Builds { target, args, kwargs } => seq![Mention::Object(target)] + of_nodes(
            args@,
            args@.len(),
        ) + of_named(kwargs@, kwargs@.len()),
        StrategyNode::Functions { id, result, .. } => seq![Mention::Object(id)] + mentioned(
            *result,
        ),
        StrategyNode::Shared { base, .. } => mentioned(*base),
        StrategyNode::Composite { func } => seq![Mention::Object(func)],
        StrategyNode::Foreign { id } => seq![Mention::Object(id)],
        StrategyNode::Deferred { thunk } => seq![Mention::Thunk(thunk)],
        _ => Seq::empty(),
    }
}

/// What the first `n` strategies mention.
pub open spec fn of_nodes(s: Seq<StrategyNode>, n: nat) -> Seq<Mention>
    decreases s, n,
{
    if n == 0 || n > s.len() {
        Seq::empty()
    } else {
        of_nodes(s, (n - 1) as nat) + mentioned(s[n - 1])
    }
}

/// What the first `n` items mention.
pub open spec fn of_items(s: Seq<FixedItem>, n: nat) -> Seq<Mention>
    decreases s, n,
{
    if n == 0 || n > s.len() {
        Seq::empty()
    } else {
        of_items(s, (n - 1) as nat) + of_atom(s[n - 1].key) + mentioned(s[n - 1].value)
    }
}

/// What the first `n` arguments mention.
pub open spec fn of_named(s: Seq<NamedNode>, n: nat) -> Seq<Mention>
    decreases s, n,
{
    if n == 0 || n > s.len() {
        Seq::empty()
    } else {
        of_named(s, (n - 1) as nat) + mentioned(s[n - 1].node)
    }
}

fn push_atom(out: &mut Vec<Mention>, a: Atom)
    ensures
        final(out)@ == old(out)@ + of_atom(a),
{
    let ghost before = out@;
    if let Atom::Host(id) = a {
        out.push(Mention::Object(id));
    }
    assert(out@ =~= before + of_atom(a));
}

fn push_atoms(out: &mut Vec<Mention>, v: &Vec<Atom>)
    ensures
        final(out)@ == old(out)@ + of_atoms(v@, v@.len()),
{
    let ghost before = out@;
    let mut i: usize = 0;
    assert(out@ =~= before + of_atoms(v@, 0));
    while i < v.len()
        invariant
            i <= v.len(),
            out@ == before + of_atoms(v@, i as nat),
        decreases v.len() - i,
    {
        push_atom(out, v[i]);
        i = i + 1;
        assert(out@ =~= before + of_atoms(v@, i as nat));
    }
}

fn push_nodes(out: &mut Vec<Mention>, v: &Vec<StrategyNode>)
    ensures
        final(out)@ == old(out)@ + of_nodes(v@, v@.len()),
    decreases *v,
{
    let ghost before = out@;
    let mut i: usize = 0;
    assert(out@ =~= before + of_nodes(v@, 0));
    while i < v.len()
        invariant
            i <= v.len(),
            out@ == before + of_nodes(v@, i as nat),
        decreases v.len() - i,
    {
        push_mentions(out, &v[i]);
        i = i + 1;
        assert(out@ =~= before + of_nodes(v@, i as nat));
    }
}

fn push_items(out: &mut Vec<Mention>, v: &Vec<FixedItem>)
    ensures
        final(out)@ == old(out)@ + of_items(v@, v@.len()),
    decreases *v,
{
    let ghost before = out@;
    let mut i: usize = 0;
    assert(out@ =~= before + of_items(v@, 0));
    while i < v.len()
        invariant
            i <= v.len(),
            out@ == before + of_items(v@, i as nat),
        decreases v.len() - i,
    {
        push_atom(out, v[i].key);
        push_mentions(out, &v[i].value);
        i = i + 1;
        assert(out@ =~= before + of_items(v@, i as nat));
    }
}

fn push_named(out: &mut Vec<Mention>, v: &Vec<NamedNode>)
    ensures
        final(out)@ == old(out)@ + of_named(v@, v@.len()),
    decreases *v,
{
    let ghost before = out@;
    let mut i: usize = 0;
    assert(out@ =~= before + of_named(v@, 0));
    while i < v.len()
        invariant
            i <= v.len(),
            out@ == before + of_named(v@, i as nat),
        decreases v.len() - i,
    {
        push_mentions(out, &v[i].node);
        i = i + 1;
        assert(out@ =~= before + of_named(v@, i as nat));
    }
}

fn push_mentions(out: &mut Vec<Mention>, node: &StrategyNode)
    ensures
        final(out)@ == old(out)@ + mentioned(*node),
    decreases *node,
{
    let ghost before = out@;
    match node {
        StrategyNode::Just(a) => push_atom(out, *a),
        StrategyNode::SampledFrom { elements, .. } => push_atoms(out, elements),
        StrategyNode::Permutations(values) => push_atoms(out, values),
        StrategyNode::OneOf(children) => push_nodes(out, children),
        StrategyNode::Tuples(children) => push_nodes(out, children),
        StrategyNode::Lists { elem, .. } => push_mentions(out, elem),
        StrategyNode::Sets { elem, .. } => push_mentions(out, elem),
        StrategyNode::Dictionaries { keys, values, .. } => {
            push_mentions(out, keys);
            push_mentions(out, values);
        },
        StrategyNode::FixedDict { items } => push_items(out, items),
        StrategyNode::Mapped { base, func } => {
            out.push(Mention::Object(*func));
            push_mentions(out, base);
        },
        StrategyNode::Filtered { base, func } => {
            out.push(Mention::Object(*func));
            push_mentions(out, base);
        },
        StrategyNode::Flatmapped { base, func } => {
            out.push(Mention::Object(*func));
            push_mentions(out, base);
        },
        StrategyNode::Builds { target, args, kwargs } => {
            out.push(Mention::Object(*target));
            push_nodes(out, args);
            push_named(out, kwargs);
        },
        StrategyNode::Functions { id, result, .. } => {
            out.push(Mention::Object(*id));
            push_mentions(out, result);
        },
        StrategyNode::Shared { base, .. } => push_mentions(out, base),
        StrategyNode::Composite { func } => out.push(Mention::Object(*func)),
        StrategyNode::Foreign { id } => out.push(Mention::Object(*id)),
        StrategyNode::Deferred { thunk } => out.push(Mention::Thunk(*thunk)),
        _ => {},
    }
    assert(out@ =~= before + mentioned(*node));
}

/// What a strategy mentions.
pub fn mentions(node: &StrategyNode) -> (r: Vec<Mention>)
    ensures
        r@ == mentioned(*node),
{
    let mut out: Vec<Mention> = Vec::new();
    push_mentions(&mut out, node);
    assert(out@ =~= mentioned(*node));
    out
}

// ---- laws -------------------------------------------------------------------

/// Strategies that are alike mention the same things.
pub proof fn alike_strategies_mention_the_same(a: StrategyNode, b: StrategyNode)
    requires
        alike(a, b),
    ensures
        mentioned(a) == mentioned(b),
    decreases a, 1int,
{
    match (a, b) {
        (StrategyNode::OneOf(c), StrategyNode::OneOf(d)) => {
            alike_lists_mention_the_same(c@, d@, c@.len());
        },
        (StrategyNode::Tuples(c), StrategyNode::Tuples(d)) => {
            alike_lists_mention_the_same(c@, d@, c@.len());
        },
        (StrategyNode::Lists { elem, .. }, StrategyNode::Lists { elem: elem2, .. }) => {
            alike_strategies_mention_the_same(*elem, *elem2);
        },
        (StrategyNode::Sets { elem, .. }, StrategyNode::Sets { elem: elem2, .. }) => {
            alike_strategies_mention_the_same(*elem, *elem2);
        },
        (
            StrategyNode::Dictionaries { keys, values, .. },
            StrategyNode::Dictionaries { keys: keys2, values: values2, .. },
        ) => {
            alike_strategies_mention_the_same(*keys, *keys2);
            alike_strategies_mention_the_same(*values, *values2);
        },
        (StrategyNode::FixedDict { items }, StrategyNode::FixedDict { items: items2 }) => {
            alike_items_mention_the_same(items@, items2@, items@.len());
        },
        (StrategyNode::Mapped { base, .. }, StrategyNode::Mapped { base: base2, .. }) => {
            alike_strategies_mention_the_same(*base, *base2);
        },
        (StrategyNode::Filtered { base, .. }, StrategyNode::Filtered { base: base2, .. }) => {
            alike_strategies_mention_the_same(*base, *base2);
        },
        (StrategyNode::Flatmapped { base, .. }, StrategyNode::Flatmapped { base: base2, .. }) => {
            alike_strategies_mention_the_same(*base, *base2);
        },
        (
            StrategyNode::Builds { args, kwargs, .. },
            StrategyNode::Builds { args: args2, kwargs: kwargs2, .. },
        ) => {
            alike_lists_mention_the_same(args@, args2@, args@.len());
            alike_arguments_mention_the_same(kwargs@, kwargs2@, kwargs@.len());
        },
        (StrategyNode::Functions { result, .. }, StrategyNode::Functions { result: result2, .. }) => {
            alike_strategies_mention_the_same(*result, *result2);
        },
        (StrategyNode::Shared { base, .. }, StrategyNode::Shared { base: base2, .. }) => {
            alike_strategies_mention_the_same(*base, *base2);
        },
        _ => {},
    }
}

proof fn alike_lists_mention_the_same(c: Seq<StrategyNode>, d: Seq<StrategyNode>, n: nat)
    requires
        c.len() == d.len(),
        n <= c.len(),
        forall|i: int| 0 <= i < c.len() ==> alike(#[trigger] c[i], d[i]),
    ensures
        of_nodes(c, n) == of_nodes(d, n),
    decreases c, n,
{
    if n > 0 {
        alike_lists_mention_the_same(c, d, (n - 1) as nat);
        assert(alike(c[n - 1], d[n - 1]));
        alike_strategies_mention_the_same(c[n - 1], d[n - 1]);
    }
}

proof fn alike_items_mention_the_same(c: Seq<FixedItem>, d: Seq<FixedItem>, n: nat)
    requires
        c.len() == d.len(),
        n <= c.len(),
        forall|i: int|
            0 <= i < c.len() ==> (#[trigger] c[i]).key == d[i].key && alike(c[i].value, d[i].value),
    ensures
        of_items(c, n) == of_items(d, n),
    decreases c, n,
{
    if n > 0 {
        alike_items_mention_the_same(c, d, (n - 1) as nat);
        assert(c[n - 1].key == d[n - 1].key);
        alike_strategies_mention_the_same(c[n - 1].value, d[n - 1].value);
    }
}

proof fn alike_arguments_mention_the_same(c: Seq<NamedNode>, d: Seq<NamedNode>, n: nat)
    requires
        c.len() == d.len(),
        n <= c.len(),
        forall|i: int|
            0 <= i < c.len() ==> (#[trigger] c[i]).name@ == d[i].name@ && alike(
                c[i].node,
                d[i].node,
            ),
    ensures
        of_named(c, n) == of_named(d, n),
    decreases c, n,
{
    if n > 0 {
        alike_arguments_mention_the_same(c, d, (n - 1) as nat);
        assert(c[n - 1].name@ == d[n - 1].name@);
        alike_strategies_mention_the_same(c[n - 1].node, d[n - 1].node);
    }
}

/// Strategies that are alike have the same values.
pub proof fn alike_strategies_have_the_same_values(a: StrategyNode, b: StrategyNode, v: Value)
    requires
        alike(a, b),
    ensures
        conforms(a, v) == conforms(b, v),
    decreases a,
{
    match (a, b) {
        (StrategyNode::SampledFrom { .. }, StrategyNode::SampledFrom { .. }) => {
            assert forall|i: int| #[trigger] is_sample(a, i, v) implies is_sample(b, i, v) by {}
            assert forall|i: int| #[trigger] is_sample(b, i, v) implies is_sample(a, i, v) by {}
        },
        (StrategyNode::SampledFromRange { .. }, StrategyNode::SampledFromRange { .. }) => {
            assert forall|i: int| #[trigger] is_sample(a, i, v) implies is_sample(b, i, v) by {}
            assert forall|i: int| #[trigger] is_sample(b, i, v) implies is_sample(a, i, v) by {}
        },
        (StrategyNode::OneOf(c), StrategyNode::OneOf(d)) => {
            assert forall|i: int| 0 <= i < c@.len() implies conforms(#[trigger] c@[i], v)
                == conforms(d@[i], v) by {
                alike_strategies_have_the_same_values(c@[i], d@[i], v);
            }
            if conforms(a, v) {
                let i = choose|i: int| 0 <= i < c@.len() && conforms(#[trigger] c@[i], v);
                assert(conforms(d@[i], v));
            }
            if conforms(b, v) {
                let i = choose|i: int| 0 <= i < d@.len() && conforms(#[trigger] d@[i], v);
                assert(conforms(c@[i], v));
            }
        },
        (StrategyNode::Tuples(c), StrategyNode::Tuples(d)) => {
            if v is Tuple && v->Tuple_0@.len() == c@.len() {
                assert forall|i: int| 0 <= i < c@.len() implies conforms(
                    c@[i],
                    #[trigger] v->Tuple_0@[i],
                ) == conforms(d@[i], v->Tuple_0@[i]) by {
                    assert(alike(c@[i], d@[i]));
                    alike_strategies_have_the_same_values(c@[i], d@[i], v->Tuple_0@[i]);
                }
            }
        },
        (StrategyNode::Lists { elem, .. }, StrategyNode::Lists { elem: elem2, .. }) => {
            if v is List {
                assert forall|i: int| 0 <= i < v->List_0@.len() implies conforms(
                    *elem,
                    #[trigger] v->List_0@[i],
                ) == conforms(*elem2, v->List_0@[i]) by {
                    alike_strategies_have_the_same_values(*elem, *elem2, v->List_0@[i]);
                }
            }
        },
        (StrategyNode::Sets { elem, .. }, StrategyNode::Sets { elem: elem2, .. }) => {
            if v is Collection {
                assert forall|i: int| 0 <= i < v->items@.len() implies conforms(
                    *elem,
                    #[trigger] v->items@[i],
                ) == conforms(*elem2, v->items@[i]) by {
                    alike_strategies_have_the_same_values(*elem, *elem2, v->items@[i]);
                }
            }
        },
        (
            StrategyNode::Dictionaries { keys, values, .. },
            StrategyNode::Dictionaries { keys: keys2, values: values2, .. },
        ) => {
            if v is Dict {
                assert forall|i: int| 0 <= i < v->Dict_0@.len() implies conforms(
                    *keys,
                    (#[trigger] v->Dict_0@[i]).key,
                ) == conforms(*keys2, v->Dict_0@[i].key) && conforms(*values, v->Dict_0@[i].value)
                    == conforms(*values2, v->Dict_0@[i].value) by {
                    alike_strategies_have_the_same_values(*keys, *keys2, v->Dict_0@[i].key);
                    alike_strategies_have_the_same_values(*values, *values2, v->Dict_0@[i].value);
                }
            }
        },
        (StrategyNode::FixedDict { items }, StrategyNode::FixedDict { items: items2 }) => {
            if v is Dict && v->Dict_0@.len() == items@.len() {
                assert forall|i: int| 0 <= i < items@.len() implies conforms(
                    items@[i].value,
                    (#[trigger] v->Dict_0@[i]).value,
                ) == conforms(items2@[i].value, v->Dict_0@[i].value) && items@[i].key
                    == items2@[i].key by {
                    assert(items@[i].key == items2@[i].key);
                    alike_strategies_have_the_same_values(
                        items@[i].value,
                        items2@[i].value,
                        v->Dict_0@[i].value,
                    );
                }
            }
        },
        (StrategyNode::Filtered { base, .. }, StrategyNode::Filtered { base: base2, .. }) => {
            alike_strategies_have_the_same_values(*base, *base2, v);
        },
        _ => {},
    }
}

} // verus!
