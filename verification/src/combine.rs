//! Making strategies from strategies.
use crate::calendar::MAX_ORDINAL;
use crate::filters::{
    analyze_coll_filter, coll_rewrite, float_rewritten, integer_rewrite,
    rewrite_date_filter, rewrite_float_filter, rewrite_integer_filter, CollRw, Comparison,
    Condition, DateRewrite, FloatFields, Rewrite,
};
use crate::ordering::bound;
use crate::strategy::{StrategyNode, COLLECTION_DEFAULT_MAX_SIZE};
use crate::words::same_str;
use vstd::prelude::*;

verus! {

/// Methods of ordinary strategies that are asked of one that only draws while a test
/// runs.
#[derive(Clone, Copy, Debug, PartialEq, Eq, Structural)]
pub struct NotFirstClass;

/// `r` is `base` behind a filter.
pub open spec fn is_filter_of(r: StrategyNode, base: StrategyNode, func: u64) -> bool {
    r is Filtered && *r->Filtered_base == base && r->Filtered_func == func
}

/// `r` is `base`, behind a filter where something remains to be tried.
pub open spec fn keeps(r: StrategyNode, base: StrategyNode, keep: Option<u64>) -> bool {
    match keep {
        None => r == base,
        Some(f) => is_filter_of(r, base, f),
    }
}

/// `r` is what a rewrite makes of a strategy.
pub open spec fn applied(r: StrategyNode, node: StrategyNode, rw: Rewrite, id: u64) -> bool {
    match rw {
        Rewrite::Plain => is_filter_of(r, node, id),
        Rewrite::Unchanged { keep } => keeps(r, node, keep),
        Rewrite::Becomes { node: n, keep } => keeps(r, n, keep),
    }
}

/// `r` is a collection like `node` with other sizes.
pub open spec fn resized(r: StrategyNode, node: StrategyNode, min: u64, max: u64) -> bool {
    match node {
        StrategyNode::Text { alphabet, .. } => r == (StrategyNode::Text { alphabet, min, max }),
        StrategyNode::Binary { .. } => r == (StrategyNode::Binary { min, max }),
        StrategyNode::Lists { elem, unique_by, swap_domain, .. } => r == (StrategyNode::Lists {
            elem,
            min,
            max,
            unique_by,
            swap_domain,
        }),
        StrategyNode::Sets { elem, frozen, .. } => r == (StrategyNode::Sets {
            elem,
            min,
            max,
            frozen,
        }),
        StrategyNode::Dictionaries { keys, values, .. } => r == (StrategyNode::Dictionaries {
            keys,
            values,
            min,
            max,
        }),
        _ => false,
    }
}

/// The sizes of a collection, and whether it is a string.
pub open spec fn collection_sizes_of(node: StrategyNode) -> Option<(u64, u64, bool)> {
    match node {
        StrategyNode::Text { min, max, .. } => Some((min, max, true)),
        StrategyNode::Binary { min, max } => Some((min, max, true)),
        StrategyNode::Lists { min, max, .. } => Some((min, max, false)),
        StrategyNode::Sets { min, max, .. } => Some((min, max, false)),
        StrategyNode::Dictionaries { min, max, .. } => Some((min, max, false)),
        _ => None,
    }
}

fn sizes_of(node: &StrategyNode) -> (r: Option<(u64, u64, bool)>)
    ensures
        r == collection_sizes_of(*node),
{
    match node {
        StrategyNode::Text { min, max, .. } => Some((*min, *max, true)),
        StrategyNode::Binary { min, max } => Some((*min, *max, true)),
        StrategyNode::Lists { min, max, .. } => Some((*min, *max, false)),
        StrategyNode::Sets { min, max, .. } => Some((*min, *max, false)),
        StrategyNode::Dictionaries { min, max, .. } => Some((*min, *max, false)),
        _ => None,
    }
}

/// A collection with other sizes; anything else stays as it is.
pub fn rebuild_collection_node(node: StrategyNode, new_min: u64, new_max: u64) -> (r: StrategyNode)
    ensures
        collection_sizes_of(node) is Some ==> resized(r, node, new_min, new_max),
        collection_sizes_of(node) is None ==> r == node,
{
    match node {
        StrategyNode::Text { alphabet, .. } => StrategyNode::Text {
            alphabet,
            min: new_min,
            max: new_max,
        },
        StrategyNode::Binary { .. } => StrategyNode::Binary { min: new_min, max: new_max },
        StrategyNode::Lists { elem, unique_by, swap_domain, .. } => StrategyNode::Lists {
            elem,
            min: new_min,
            max: new_max,
            unique_by,
            swap_domain,
        },
        StrategyNode::Sets { elem, frozen, .. } => StrategyNode::Sets {
            elem,
            min: new_min,
            max: new_max,
            frozen,
        },
        StrategyNode::Dictionaries { keys, values, .. } => StrategyNode::Dictionaries {
            keys,
            values,
            min: new_min,
            max: new_max,
        },
        other => other,
    }
}

/// `r` is what becomes of a collection under a filter.
pub open spec fn collection_filtered(
    r: StrategyNode,
    node: StrategyNode,
    rw: CollRw,
    id: u64,
) -> bool {
    match rw {
        CollRw::SelfUnchanged => r == node,
        CollRw::Empty => r is Nothing,
        CollRw::Resize { min, max, keep } => if keep {
            r is Filtered && resized(*r->Filtered_base, node, min, max) && r->Filtered_func == id
        } else {
            resized(r, node, min, max)
        },
        CollRw::Plain => is_filter_of(r, node, id),
    }
}

/// The days of a strategy are in the calendar, and so is the day they are compared with.
pub open spec fn dates_in_calendar(
    min_ord: i64,
    max_ord: i64,
    date: Option<(Comparison, i64)>,
) -> bool {
    1 <= min_ord <= max_ord <= MAX_ORDINAL && (date is Some ==> 1 <= (date->0).1 <= MAX_ORDINAL)
}

/// What the host says of a function that lists are handed to.
#[derive(Clone, Copy, Debug)]
pub struct Pack {
    pub func: u64,
    /// It is a type.
    pub is_type: bool,
    /// It is a subclass of `Collection`.
    pub is_collection: bool,
    /// It is `sorted`.
    pub is_sorted: bool,
}

impl Pack {
    /// What the function makes of a list is as long as the list.
    pub open spec fn collection_ish(self) -> bool {
        (self.is_type && self.is_collection) || self.is_sorted
    }
}

/// The function is among those that keep the length of a list.
pub open spec fn keeps_length(packs: Seq<Pack>, func: u64) -> bool {
    exists|i: int| 0 <= i < packs.len() && (#[trigger] packs[i]).func == func
        && packs[i].collection_ish()
}

/// A length filter behind a function that keeps the length can be moved in front of it.
pub open spec fn length_passes(node: StrategyNode, packs: Seq<Pack>, c: Condition) -> bool {
    &&& node is Mapped
    &&& *node->Mapped_base is Lists
    &&& keeps_length(packs, node->Mapped_func)
    &&& node->Mapped_base->Lists_min <= node->Mapped_base->Lists_max
    &&& coll_rewrite(
        node->Mapped_base->Lists_min,
        node->Mapped_base->Lists_max,
        false,
        c,
    ) is Resize
}

/// `r` is what becomes of a strategy under a condition. `packs` says of functions whether
/// they keep the length of a list.
pub open spec fn filtered_by(
    r: StrategyNode,
    node: StrategyNode,
    c: Condition,
    packs: Seq<Pack>,
) -> bool {
    match node {
        StrategyNode::Integers { min, max } => exists|rw: Rewrite| #[trigger]
            integer_rewrite(bound(min), bound(max), c, rw) && applied(r, node, rw, c.id),
        StrategyNode::Floats { min, max, allow_nan, allow_inf, snm, width } => exists|
            rw: Rewrite,
        | #[trigger]
            float_rewritten(
                (FloatFields { min, max, allow_nan, allow_inf, snm, width }),
                c,
                rw,
            ) && applied(r, node, rw, c.id),
        StrategyNode::Dates { min_ord, max_ord } => {
            if c.date is None || !dates_in_calendar(min_ord, max_ord, c.date) {
                is_filter_of(r, node, c.id)
            } else {
                let (op, arg) = c.date->0;
                ||| r is Nothing && forall|x: int|
                    min_ord <= x <= max_ord ==> !#[trigger] crate::filters::comparison_holds(
                        op,
                        arg as int,
                        x,
                    )
                ||| r is Dates && min_ord <= r->Dates_min_ord <= r->Dates_max_ord <= max_ord
                    && forall|x: int|
                    min_ord <= x <= max_ord ==> (#[trigger] crate::filters::comparison_holds(
                        op,
                        arg as int,
                        x,
                    ) <==> r->Dates_min_ord <= x <= r->Dates_max_ord)
            }
        },
        _ => match collection_sizes_of(node) {
            Some((min, max, is_str)) => if min <= max {
                collection_filtered(r, node, coll_rewrite(min, max, is_str, c), c.id)
            } else {
                is_filter_of(r, node, c.id)
            },
            None => if length_passes(node, packs, c) {
                &&& r is Filtered && r->Filtered_func == c.id
                &&& *r->Filtered_base is Mapped
                &&& r->Filtered_base->Mapped_func == node->Mapped_func
                &&& collection_filtered(
                    *r->Filtered_base->Mapped_base,
                    *node->Mapped_base,
                    coll_rewrite(
                        node->Mapped_base->Lists_min,
                        node->Mapped_base->Lists_max,
                        false,
                        c,
                    ),
                    c.id,
                )
            } else {
                is_filter_of(r, node, c.id)
            },
        },
    }
}

fn behind(base: StrategyNode, func: u64) -> (r: StrategyNode)
    ensures
        is_filter_of(r, base, func),
{
    StrategyNode::Filtered { base: Box::new(base), func }
}

fn apply_rewrite(node: StrategyNode, rw: Rewrite, id: u64) -> (r: StrategyNode)
    ensures
        applied(r, node, rw, id),
{
    match rw {
        Rewrite::Plain => behind(node, id),
        Rewrite::Unchanged { keep } => match keep {
            None => node,
            Some(f) => behind(node, f),
        },
        Rewrite::Becomes { node: n, keep } => match keep {
            None => n,
            Some(f) => behind(n, f),
        },
    }
}

fn filter_collection(node: StrategyNode, rw: CollRw, id: u64) -> (r: StrategyNode)
    requires
        collection_sizes_of(node) is Some,
    ensures
        collection_filtered(r, node, rw, id),
{
    match rw {
        CollRw::SelfUnchanged => node,
        CollRw::Empty => StrategyNode::Nothing,
        CollRw::Resize { min, max, keep } => {
            let base = rebuild_collection_node(node, min, max);
            if keep {
                behind(base, id)
            } else {
                base
            }
        },
        CollRw::Plain => behind(node, id),
    }
}

/// A strategy under a condition: folded in as far as possible.
pub fn filter(node: StrategyNode, c: &Condition, packs: &Vec<Pack>) -> (r: Result<
    StrategyNode,
    NotFirstClass,
>)
    ensures
        r is Err <==> node is Data,
        r is Ok ==> filtered_by(r->Ok_0, node, *c, packs@),
{
    match node {
        StrategyNode::Data => {
            return Err(NotFirstClass);
        },
        StrategyNode::Integers { min, max } => {
            let rw = rewrite_integer_filter(&min, &max, c);
            let ghost g = rw;
            let out = apply_rewrite(StrategyNode::Integers { min, max }, rw, c.id);
            assert(integer_rewrite(bound(min), bound(max), *c, g));
            return Ok(out);
        },
        StrategyNode::Floats { min, max, allow_nan, allow_inf, snm, width } => {
            let f = FloatFields { min, max, allow_nan, allow_inf, snm, width };
            let rw = rewrite_float_filter(&f, c);
            let ghost g = rw;
            let out = apply_rewrite(
                StrategyNode::Floats { min, max, allow_nan, allow_inf, snm, width },
                rw,
                c.id,
            );
            assert(float_rewritten(f, *c, g));
            return Ok(out);
        },
        StrategyNode::Dates { min_ord, max_ord } => {
            let known = match &c.date {
                Some(p) => 1 <= min_ord && min_ord <= max_ord && max_ord <= MAX_ORDINAL && 1 <= p.1
                    && p.1 <= MAX_ORDINAL,
                None => false,
            };
            if !known {
                return Ok(behind(StrategyNode::Dates { min_ord, max_ord }, c.id));
            }
            return Ok(
                match rewrite_date_filter(min_ord, max_ord, &c.date) {
                    DateRewrite::Empty => StrategyNode::Nothing,
                    DateRewrite::Between { min_ord: lo, max_ord: hi } => StrategyNode::Dates {
                        min_ord: lo,
                        max_ord: hi,
                    },
                    _ => StrategyNode::Dates { min_ord, max_ord },
                },
            );
        },
        _ => {},
    }
    if let Some((min, max, is_str)) = sizes_of(&node) {
        if min > max {
            return Ok(behind(node, c.id));
        }
        let rw = analyze_coll_filter(min, max, is_str, c);
        return Ok(filter_collection(node, rw, c.id));
    }
    match node {
        StrategyNode::Mapped { base, func } => {
            if base_is_list(&base) && is_pack(packs, func) {
                if let Some((min, max, _)) = sizes_of(&base) {
                    if min <= max {
                        let rw = analyze_coll_filter(min, max, false, c);
                        if let CollRw::Resize { .. } = rw {
                            let inner = filter_collection(*base, rw, c.id);
                            let mapped = StrategyNode::Mapped { base: Box::new(inner), func };
                            return Ok(behind(mapped, c.id));
                        }
                    }
                }
            }
            Ok(behind(StrategyNode::Mapped { base, func }, c.id))
        },
        other => Ok(behind(other, c.id)),
    }
}

/// Whether a strategy makes lists.
pub fn base_is_list(node: &StrategyNode) -> (r: bool)
    ensures
        r == (node is Lists),
{
    match node {
        StrategyNode::Lists { .. } => true,
        _ => false,
    }
}

/// Whether a function keeps the length of a list: it is a kind of collection, or sorts.
pub fn pack_is_collection_ish(pack: &Pack) -> (r: bool)
    ensures
        r == pack.collection_ish(),
{
    (pack.is_type && pack.is_collection) || pack.is_sorted
}

/// Whether a function is known to keep the length of a list.
fn is_pack(packs: &Vec<Pack>, func: u64) -> (r: bool)
    ensures
        r == keeps_length(packs@, func),
{
    let mut i: usize = 0;
    while i < packs.len()
        invariant
            i <= packs.len(),
            forall|x: int|
                0 <= x < i ==> !((#[trigger] packs@[x]).func == func && packs@[x].collection_ish()),
        decreases packs.len() - i,
    {
        if packs[i].func == func && pack_is_collection_ish(&packs[i]) {
            assert(packs@[i as int].func == func);
            return true;
        }
        i = i + 1;
    }
    false
}

/// A strategy behind a function. A function that gives its argument back changes
/// nothing.
pub fn map_strategy(node: StrategyNode, func: u64, identity: bool) -> (r: Result<
    StrategyNode,
    NotFirstClass,
>)
    ensures
        r is Err <==> node is Data,
        r is Ok && identity ==> r->Ok_0 == node,
        r is Ok && !identity ==> r->Ok_0 is Mapped && *r->Ok_0->Mapped_base == node
            && r->Ok_0->Mapped_func == func,
{
    match node {
        StrategyNode::Data => Err(NotFirstClass),
        other => if identity {
            Ok(other)
        } else {
            Ok(StrategyNode::Mapped { base: Box::new(other), func })
        },
    }
}

/// A strategy whose values are expanded to strategies.
pub fn flatmap_strategy(node: StrategyNode, func: u64) -> (r: Result<StrategyNode, NotFirstClass>)
    ensures
        r is Err <==> node is Data,
        r is Ok ==> r->Ok_0 is Flatmapped && *r->Ok_0->Flatmapped_base == node
            && r->Ok_0->Flatmapped_func == func,
{
    match node {
        StrategyNode::Data => Err(NotFirstClass),
        other => Ok(StrategyNode::Flatmapped { base: Box::new(other), func }),
    }
}

/// The branches of a strategy.
pub open spec fn branches(node: StrategyNode) -> Seq<StrategyNode> {
    match node {
        StrategyNode::OneOf(children) => children@,
        _ => seq![node],
    }
}

fn into_branches(node: StrategyNode) -> (r: Vec<StrategyNode>)
    ensures
        r@ == branches(node),
{
    match node {
        StrategyNode::OneOf(children) => children,
        other => {
            let mut out: Vec<StrategyNode> = Vec::new();
            let ghost g = other;
            out.push(other);
            assert(out@ =~= seq![g]);
            out
        },
    }
}

/// One strategy or the other; choices among strategies are merged.
pub fn or_strategies(a: StrategyNode, b: StrategyNode) -> (r: StrategyNode)
    ensures
        r is OneOf,
        r->OneOf_0@ == branches(a) + branches(b),
{
    let mut children = into_branches(a);
    let mut more = into_branches(b);
    children.append(&mut more);
    StrategyNode::OneOf(children)
}

/// Whether a strategy is behind a filter, and which.
pub fn as_filter_node(node: &StrategyNode) -> (r: Option<(&StrategyNode, u64)>)
    ensures
        r is Some <==> node is Filtered,
        r is Some ==> *(r->0).0 == *node->Filtered_base && (r->0).1 == node->Filtered_func,
{
    match node {
        StrategyNode::Filtered { base, func } => Some((&**base, *func)),
        _ => None,
    }
}

/// `r` is `base` behind the filters, the first one innermost.
pub open spec fn is_chain(r: StrategyNode, base: StrategyNode, funcs: Seq<u64>) -> bool
    decreases funcs.len(),
{
    if funcs.len() == 0 {
        r == base
    } else {
        r is Filtered && r->Filtered_func == funcs.last() && is_chain(
            *r->Filtered_base,
            base,
            funcs.drop_last(),
        )
    }
}

/// A strategy behind filters, the first one innermost.
pub fn chain_filter_node(base: StrategyNode, funcs: &Vec<u64>) -> (r: StrategyNode)
    ensures
        is_chain(r, base, funcs@),
{
    let mut acc = base;
    let mut i: usize = 0;
    assert(funcs@.take(0) =~= Seq::<u64>::empty());
    while i < funcs.len()
        invariant
            i <= funcs.len(),
            is_chain(acc, base, funcs@.take(i as int)),
        decreases funcs.len() - i,
    {
        acc = StrategyNode::Filtered { base: Box::new(acc), func: funcs[i] };
        proof {
            assert(funcs@.take(i + 1).drop_last() =~= funcs@.take(i as int));
        }
        i = i + 1;
    }
    assert(funcs@.take(i as int) =~= funcs@);
    acc
}

/// The strategy that stands behind the filters.
pub open spec fn chain_base(node: StrategyNode) -> StrategyNode
    decreases node,
{
    match node {
        StrategyNode::Filtered { base, .. } => chain_base(*base),
        _ => node,
    }
}

/// The filters in front of a strategy, the innermost one first.
pub open spec fn chain_funcs(node: StrategyNode) -> Seq<u64>
    decreases node,
{
    match node {
        StrategyNode::Filtered { base, func } => chain_funcs(*base).push(func),
        _ => Seq::empty(),
    }
}

/// Takes the filters off a strategy.
pub fn unchain(node: StrategyNode) -> (r: (StrategyNode, Vec<u64>))
    ensures
        r.0 == chain_base(node),
        r.1@ == chain_funcs(node),
        !(r.0 is Filtered),
    decreases node,
{
    match node {
        StrategyNode::Filtered { base, func } => {
            let (inner, funcs) = unchain(*base);
            let mut funcs = funcs;
            funcs.push(func);
            (inner, funcs)
        },
        other => (other, Vec::new()),
    }
}

/// Taking the filters off again gives back what a chain was made of.
pub proof fn chain_comes_apart(r: StrategyNode, base: StrategyNode, funcs: Seq<u64>)
    requires
        is_chain(r, base, funcs),
        !(base is Filtered),
    ensures
        chain_base(r) == base,
        chain_funcs(r) == funcs,
    decreases funcs.len(),
{
    if funcs.len() > 0 {
        chain_comes_apart(*r->Filtered_base, base, funcs.drop_last());
        assert(chain_funcs(r) =~= funcs);
    } else {
        assert(chain_funcs(r) =~= funcs);
    }
}

/// One step of folding a chain of filters into a strategy: what remains to be tried is
/// set aside.
pub open spec fn fold_step(
    before: StrategyNode,
    c: Condition,
    packs: Seq<Pack>,
    after: StrategyNode,
    left: Option<u64>,
) -> bool {
    exists|r: StrategyNode| #[trigger]
        filtered_by(r, before, c, packs) && (if r is Filtered {
            after == *r->Filtered_base && left == Some(r->Filtered_func)
        } else {
            after == r && left is None
        })
}

/// A run of such steps through the conditions.
pub open spec fn folds(
    first: StrategyNode,
    conditions: Seq<Condition>,
    packs: Seq<Pack>,
    last: StrategyNode,
    left: Seq<u64>,
) -> bool
    decreases conditions.len(),
{
    if conditions.len() == 0 {
        last == first && left.len() == 0
    } else {
        exists|middle: StrategyNode, kept: Option<u64>| #[trigger]
            fold_step(middle, conditions.last(), packs, last, kept) && folds(
                first,
                conditions.drop_last(),
                packs,
                middle,
                if kept is Some {
                    left.drop_last()
                } else {
                    left
                },
            ) && (kept is Some ==> left.len() > 0 && left.last() == kept->0)
    }
}

/// Folding a condition into a strategy that is not behind a filter leaves one that is
/// not, with at most one filter in front; and nothing turns into a strategy that only
/// draws while a test runs.
proof fn filtering_adds_one_filter(
    r: StrategyNode,
    node: StrategyNode,
    c: Condition,
    packs: Seq<Pack>,
)
    requires
        filtered_by(r, node, c, packs),
        !(node is Filtered),
        !(node is Data),
    ensures
        !(r is Data),
        r is Filtered ==> !(*r->Filtered_base is Filtered) && !(*r->Filtered_base is Data),
{
}

/// Folds conditions into a strategy one after the other, and collects what remains to
/// be tried.
pub fn flatten_filtered(base: StrategyNode, conditions: &Vec<Condition>, packs: &Vec<Pack>) -> (r:
    Result<(StrategyNode, Vec<u64>), NotFirstClass>)
    requires
        !(base is Filtered),
    ensures
        r is Err <==> base is Data && conditions@.len() > 0,
        r is Ok ==> folds(base, conditions@, packs@, r->Ok_0.0, r->Ok_0.1@),
        r is Ok ==> !(r->Ok_0.0 is Filtered),
{
    let mut current = base;
    let mut left: Vec<u64> = Vec::new();
    let mut i: usize = 0;
    assert(conditions@.take(0) =~= Seq::<Condition>::empty());
    while i < conditions.len()
        invariant
            i <= conditions.len(),
            i == 0 ==> current == base,
            i > 0 ==> !(base is Data),
            !(base is Data) ==> !(current is Data),
            !(current is Filtered),
            folds(base, conditions@.take(i as int), packs@, current, left@),
        decreases conditions.len() - i,
    {
        let ghost before = current;
        let ghost kept_before = left@;
        let filtered = match filter(current, &conditions[i], packs) {
            Ok(n) => n,
            Err(e) => {
                return Err(e);
            },
        };
        let ghost r = filtered;
        let ghost mut kept: Option<u64> = None;
        proof {
            filtering_adds_one_filter(r, before, conditions@[i as int], packs@);
        }
        match filtered {
            StrategyNode::Filtered { base: rest, func } => {
                current = *rest;
                left.push(func);
                proof {
                    kept = Some(func);
                    assert(left@.drop_last() =~= kept_before);
                }
            },
            other => {
                current = other;
            },
        }
        proof {
            let c = conditions@[i as int];
            assert(filtered_by(r, before, c, packs@));
            assert(fold_step(before, c, packs@, current, kept));
            assert(conditions@.take(i + 1).drop_last() =~= conditions@.take(i as int));
            assert(conditions@.take(i + 1).last() == c);
            assert(folds(base, conditions@.take(i + 1), packs@, current, left@));
        }
        i = i + 1;
    }
    assert(conditions@.take(i as int) =~= conditions@);
    Ok((current, left))
}

/// The form in which a strategy shows what it was made of.
#[derive(Clone, Copy, Debug, PartialEq, Eq, Structural)]
pub enum Form {
    Integers,
    Float,
    Text,
    Bytes,
    List,
    Mapped,
    Filtered,
    /// The strategy has no other form.
    Itself,
}

/// The form of a strategy.
pub open spec fn form(node: StrategyNode) -> Form {
    match node {
        StrategyNode::Integers { .. } => Form::Integers,
        StrategyNode::Floats { .. } => Form::Float,
        StrategyNode::Text { .. } => Form::Text,
        StrategyNode::Binary { .. } => Form::Bytes,
        StrategyNode::Lists { .. } | StrategyNode::Sets { .. }
        | StrategyNode::Dictionaries { .. } => Form::List,
        StrategyNode::Mapped { .. } => Form::Mapped,
        StrategyNode::Filtered { .. } => Form::Filtered,
        _ => Form::Itself,
    }
}

/// Finds the form of a strategy.
pub fn build_typed_collection(node: &StrategyNode) -> (r: Form)
    ensures
        r == form(*node),
{
    match node {
        StrategyNode::Integers { .. } => Form::Integers,
        StrategyNode::Floats { .. } => Form::Float,
        StrategyNode::Text { .. } => Form::Text,
        StrategyNode::Binary { .. } => Form::Bytes,
        StrategyNode::Lists { .. } => Form::List,
        StrategyNode::Sets { .. } => Form::List,
        StrategyNode::Dictionaries { .. } => Form::List,
        StrategyNode::Mapped { .. } => Form::Mapped,
        StrategyNode::Filtered { .. } => Form::Filtered,
        _ => Form::Itself,
    }
}

/// The largest size that a form shows; an open end of a text or a list has none.
pub fn shown_max_size(form: Form, max: u64) -> (r: Option<u64>)
    ensures
        r == (if form != Form::Bytes && max == COLLECTION_DEFAULT_MAX_SIZE {
            None
        } else {
            Some(max)
        }),
{
    if form != Form::Bytes && max == COLLECTION_DEFAULT_MAX_SIZE {
        None
    } else {
        Some(max)
    }
}

/// What a strategy was made of: its form, and the conditions in front of it, the
/// innermost one first.
#[derive(Debug)]
pub struct Unwrapped {
    pub form: Form,
    pub base: StrategyNode,
    pub conditions: Vec<u64>,
}

/// Each filter of a chain is known.
pub open spec fn known_conditions(known: Seq<Condition>, funcs: Seq<u64>) -> bool {
    known.len() == funcs.len() && forall|i: int|
        0 <= i < funcs.len() ==> (#[trigger] known[i]).id == funcs[i]
}

/// Finds out what a strategy was made of. A single filter is shown as it stands; a
/// chain of filters is folded into the strategy as far as possible. `known` tells of
/// each filter of the chain, the innermost one first.
pub fn unwrap_wrapped(node: StrategyNode, known: &Vec<Condition>, packs: &Vec<Pack>) -> (r: Result<
    Unwrapped,
    NotFirstClass,
>)
    requires
        known_conditions(known@, chain_funcs(node)),
    ensures
        r is Err <==> known@.len() > 1 && chain_base(node) is Data,
        match r {
            Err(_) => true,
            Ok(u) => {
                &&& !(u.base is Filtered)
                &&& u.form == (if u.conditions@.len() > 0 {
                    Form::Filtered
                } else {
                    form(u.base)
                })
                &&& known@.len() <= 1 ==> u.base == chain_base(node) && u.conditions@
                    == chain_funcs(node)
                &&& known@.len() > 1 ==> folds(
                    chain_base(node),
                    known@,
                    packs@,
                    u.base,
                    u.conditions@,
                )
            },
        },
{
    let (base, funcs) = unchain(node);
    if funcs.len() <= 1 {
        let form = if funcs.len() > 0 {
            Form::Filtered
        } else {
            build_typed_collection(&base)
        };
        return Ok(Unwrapped { form, base, conditions: funcs });
    }
    match flatten_filtered(base, known, packs) {
        Err(e) => Err(e),
        Ok((rest, left)) => {
            let form = if left.len() > 0 {
                Form::Filtered
            } else {
                build_typed_collection(&rest)
            };
            Ok(Unwrapped { form, base: rest, conditions: left })
        },
    }
}

// ---- values drawn by hand ---------------------------------------------------

/// How often a value is drawn for [`Attempts`] before giving up.
pub const EXAMPLE_ATTEMPTS: u64 = 200;

/// Where a value is asked for outside of a test.
#[derive(Clone, Copy, Debug, PartialEq, Eq, Structural)]
pub struct Surroundings {
    /// Somebody types the commands.
    pub interactive: bool,
    /// A test runner is at work.
    pub under_runner: bool,
    /// A test case is being built, so many spans deep.
    pub building: Option<i64>,
    /// A strategy is drawing.
    pub drawing: bool,
}

/// Whether, and why, no value can be drawn by hand.
#[derive(Clone, Copy, Debug, PartialEq, Eq, Structural)]
pub enum ExampleError {
    InStrategy,
    InTest,
    OnData,
    Unsatisfiable,
}

impl ExampleError {
    pub open spec fn text(&self) -> Seq<char> {
        match self {
            ExampleError::InStrategy =>
                "Using example() inside a strategy definition is a bad idea. Instead consider using hypothesis.strategies.builds() or @hypothesis.strategies.composite to define your strategy."@,
            ExampleError::InTest =>
                "Using example() inside a test function is a bad idea. Instead consider using hypothesis.strategies.data() to draw more examples during testing."@,
            ExampleError::OnData =>
                "Cannot call example() on st.data(): it can only draw values inside a running test."@,
            ExampleError::Unsatisfiable => "could not find an example"@,
        }
    }

    pub fn message(&self) -> (r: String)
        ensures
            r@ == self.text(),
    {
        let mut out = String::new();
        match self {
            ExampleError::InStrategy => out.append(
                "Using example() inside a strategy definition is a bad idea. Instead consider using hypothesis.strategies.builds() or @hypothesis.strategies.composite to define your strategy.",
            ),
            ExampleError::InTest => out.append(
                "Using example() inside a test function is a bad idea. Instead consider using hypothesis.strategies.data() to draw more examples during testing.",
            ),
            ExampleError::OnData => out.append(
                "Cannot call example() on st.data(): it can only draw values inside a running test.",
            ),
            ExampleError::Unsatisfiable => out.append("could not find an example"),
        }
        assert(out@ =~= self.text());
        out
    }
}

/// Whether a warning is due before a value is drawn by hand.
pub fn example_warns(s: Surroundings) -> (r: bool)
    ensures
        r == (!s.interactive && s.under_runner),
{
    !s.interactive && s.under_runner
}

/// What is said of examples outside of interactive use.
pub open spec fn example_warning_text(shown: Seq<char>) -> Seq<char> {
    "The `.example()` method is good for exploring strategies, but should only be used interactively.  We recommend using `@given` for tests - it performs better, saves and replays failures to avoid flakiness, and reports minimal examples. (strategy: "@
        + shown + ")"@
}

/// The warning about an example that is asked for outside of interactive use.
pub fn example_warning(shown: &str) -> (r: String)
    ensures
        r@ == example_warning_text(shown@),
{
    let mut msg = String::new();
    msg.append(
        "The `.example()` method is good for exploring strategies, but should only be used interactively.  We recommend using `@given` for tests - it performs better, saves and replays failures to avoid flakiness, and reports minimal examples. (strategy: ",
    );
    msg.append(shown);
    msg.append(")");
    assert(msg@ =~= example_warning_text(shown@));
    msg
}

/// What is said where a strategy is taken for true or false.
pub open spec fn truth_warning_text(shown: Seq<char>) -> Seq<char> {
    "bool("@ + shown + ") is always True, did you mean to draw a value?"@
}

/// The warning about a strategy that is taken for true or false.
pub fn truth_warning(shown: &str) -> (r: String)
    ensures
        r@ == truth_warning_text(shown@),
{
    let mut msg = String::new();
    msg.append("bool(");
    msg.append(shown);
    msg.append(") is always True, did you mean to draw a value?");
    assert(msg@ =~= truth_warning_text(shown@));
    msg
}

/// Whether a value may be drawn by hand.
pub fn example_allowed(node: &StrategyNode, s: Surroundings) -> (r: Result<(), ExampleError>)
    ensures
        r == (match s.building {
            Some(depth) if depth > 0 => Err(ExampleError::InStrategy),
            Some(_) => Err(ExampleError::InTest),
            None => if s.drawing {
                Err(ExampleError::InStrategy)
            } else if node is Data {
                Err(ExampleError::OnData)
            } else {
                Ok(())
            },
        }),
{
    if let Some(depth) = s.building {
        if depth > 0 {
            return Err(ExampleError::InStrategy);
        }
        return Err(ExampleError::InTest);
    }
    if s.drawing {
        return Err(ExampleError::InStrategy);
    }
    match node {
        StrategyNode::Data => Err(ExampleError::OnData),
        _ => Ok(()),
    }
}

/// Whether to try again after so many attempts that ran out.
pub fn example_again(attempts: u64) -> (r: Result<(), ExampleError>)
    ensures
        r is Ok <==> attempts < EXAMPLE_ATTEMPTS,
        r is Err ==> r->Err_0 == ExampleError::Unsatisfiable,
{
    if attempts < EXAMPLE_ATTEMPTS {
        Ok(())
    } else {
        Err(ExampleError::Unsatisfiable)
    }
}

// ---- regular expressions ----------------------------------------------------

/// The method of a pattern that is used as a filter.
#[derive(Clone, Copy, Debug, PartialEq, Eq, Structural)]
pub enum PatternMethod {
    Search,
    Match,
    Findall,
    Fullmatch,
    Finditer,
    Scanner,
    Split,
    Other,
}

/// The method of a pattern with a name.
pub open spec fn method_named(name: Seq<char>) -> PatternMethod {
    if name == "search"@ {
        PatternMethod::Search
    } else if name == "match"@ {
        PatternMethod::Match
    } else if name == "findall"@ {
        PatternMethod::Findall
    } else if name == "fullmatch"@ {
        PatternMethod::Fullmatch
    } else if name == "finditer"@ {
        PatternMethod::Finditer
    } else if name == "scanner"@ {
        PatternMethod::Scanner
    } else if name == "split"@ {
        PatternMethod::Split
    } else {
        PatternMethod::Other
    }
}

impl PatternMethod {
    pub fn named(name: &str) -> (r: PatternMethod)
        ensures
            r == method_named(name@),
    {
        if same_str(name, "search") {
            PatternMethod::Search
        } else if same_str(name, "match") {
            PatternMethod::Match
        } else if same_str(name, "findall") {
            PatternMethod::Findall
        } else if same_str(name, "fullmatch") {
            PatternMethod::Fullmatch
        } else if same_str(name, "finditer") {
            PatternMethod::Finditer
        } else if same_str(name, "scanner") {
            PatternMethod::Scanner
        } else if same_str(name, "split") {
            PatternMethod::Split
        } else {
            PatternMethod::Other
        }
    }
}

/// What becomes of a string under a pattern.
#[derive(Debug)]
pub enum RegexPlan {
    /// The method is not understood.
    NotUnderstood,
    /// The method accepts almost everything; a warning is due when a value is drawn.
    /// With `nonempty` the string must not be empty.
    Warn { msg: String, nonempty: bool },
    /// Strings are made from the pattern, and their length is tried afterwards.
    Generate { pattern: String, fullmatch: bool, min_len: Option<u64>, max_len: Option<u64> },
}

/// `r` is what becomes of a string under a method of a pattern.
pub open spec fn regex_plan(
    r: RegexPlan,
    method: PatternMethod,
    pattern: Seq<char>,
    pretty: Seq<char>,
    min: u64,
    max: u64,
) -> bool {
    match method {
        PatternMethod::Other => r is NotUnderstood,
        PatternMethod::Split => r is Warn && r->nonempty && r->Warn_msg@ == "You applied "@ + pretty
            + " as a filter, but this allows any nonempty string!  Did you mean .search ?"@,
        PatternMethod::Finditer | PatternMethod::Scanner => r is Warn && !r->nonempty
            && r->Warn_msg@ == "You applied "@ + pretty
            + " as a filter, but this allows any string at all!  Did you mean .findall ?"@,
        _ => {
            &&& r is Generate
            &&& r->pattern@ == (if method == PatternMethod::Match {
                "^(?:"@ + pattern + ")"@
            } else {
                pattern
            })
            &&& r->fullmatch == (method == PatternMethod::Fullmatch)
            &&& r->min_len == (if min > 0 {
                Some(min)
            } else {
                None
            })
            &&& r->max_len == (if max < COLLECTION_DEFAULT_MAX_SIZE {
                Some(max)
            } else {
                None
            })
        },
    }
}

/// Finds out what becomes of a string under a method of a pattern.
pub fn try_regex_rewrite(
    method: PatternMethod,
    pattern: &String,
    pretty: &str,
    min_size: u64,
    max_size: u64,
) -> (r: RegexPlan)
    ensures
        regex_plan(r, method, pattern@, pretty@, min_size, max_size),
{
    match method {
        PatternMethod::Other => {
            return RegexPlan::NotUnderstood;
        },
        PatternMethod::Split => {
            let mut msg = String::new();
            msg.append("You applied ");
            msg.append(pretty);
            msg.append(
                " as a filter, but this allows any nonempty string!  Did you mean .search ?",
            );
            assert(msg@ =~= "You applied "@ + pretty@
                + " as a filter, but this allows any nonempty string!  Did you mean .search ?"@);
            return RegexPlan::Warn { msg, nonempty: true };
        },
        PatternMethod::Finditer | PatternMethod::Scanner => {
            let mut msg = String::new();
            msg.append("You applied ");
            msg.append(pretty);
            msg.append(
                " as a filter, but this allows any string at all!  Did you mean .findall ?",
            );
            assert(msg@ =~= "You applied "@ + pretty@
                + " as a filter, but this allows any string at all!  Did you mean .findall ?"@);
            return RegexPlan::Warn { msg, nonempty: false };
        },
        _ => {},
    }
    let mut source = String::new();
    if method == PatternMethod::Match {
        source.append("^(?:");
        source.append(pattern.as_str());
        source.append(")");
        assert(source@ =~= "^(?:"@ + pattern@ + ")"@);
    } else {
        source.append(pattern.as_str());
        assert(source@ =~= pattern@);
    }
    RegexPlan::Generate {
        pattern: source,
        fullmatch: method == PatternMethod::Fullmatch,
        min_len: if min_size > 0 {
            Some(min_size)
        } else {
            None
        },
        max_len: if max_size < COLLECTION_DEFAULT_MAX_SIZE {
            Some(max_size)
        } else {
            None
        },
    }
}

/// A method of strings that is sometimes confused with a test.
#[derive(Clone, Copy, Debug, PartialEq, Eq, Structural)]
pub enum CaseMethod {
    Lower,
    Title,
    Upper,
}

/// The name of such a method.
pub open spec fn case_method_name(m: CaseMethod) -> Seq<char> {
    match m {
        CaseMethod::Lower => "lower"@,
        CaseMethod::Title => "title"@,
        CaseMethod::Upper => "upper"@,
    }
}

/// The warning for a method of strings that is used as a filter.
pub open spec fn suspicious_text(m: CaseMethod, is_bytes: bool) -> Seq<char> {
    let kind = if is_bytes {
        "bytes"@
    } else {
        "str"@
    };
    "You applied "@ + kind + "."@ + case_method_name(m)
        + " as a filter, but this allows all nonempty strings!  Did you mean "@ + kind + ".is"@
        + case_method_name(m) + "?"@
}

/// The warning for a filter that is such a method, if it is one.
pub fn warn_suspicious_string_method(method: Option<CaseMethod>, is_bytes: bool) -> (r: Option<
    String,
>)
    ensures
        r is Some <==> method is Some,
        r is Some ==> r->0@ == suspicious_text(method->0, is_bytes),
{
    let m = match method {
        Some(m) => m,
        None => {
            return None;
        },
    };
    let name: &str = match m {
        CaseMethod::Lower => "lower",
        CaseMethod::Title => "title",
        CaseMethod::Upper => "upper",
    };
    let kind: &str = if is_bytes {
        "bytes"
    } else {
        "str"
    };
    let mut out = String::new();
    out.append("You applied ");
    out.append(kind);
    out.append(".");
    out.append(name);
    out.append(" as a filter, but this allows all nonempty strings!  Did you mean ");
    out.append(kind);
    out.append(".is");
    out.append(name);
    out.append("?");
    assert(out@ =~= suspicious_text(m, is_bytes));
    Some(out)
}

} // verus!
