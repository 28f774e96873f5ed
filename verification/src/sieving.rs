//! What filters let through: folding a condition into a strategy comes to the same as trying
//! it on every value.
use crate::combine::{
    applied, collection_sizes_of, filtered_by, fold_step, folds, is_chain, regex_plan, Pack,
    PatternMethod, RegexPlan,
};
use crate::filters::{
    bounds_length, comparison_holds, float_rewritten, integer_rewrite, Comparison, Condition,
    FloatFields, MathTest, Rewrite,
};
use crate::floats::{float_le, float_lt, is_finite_bits, is_nan_bits, negated_bits};
use crate::ordering::bound;
use crate::strategy::{Atom, StrategyNode};
use vstd::prelude::*;

verus! {

// ---- integers ---------------------------------------------------------------

/// An integer is not below the first bound and not above the second one.
pub open spec fn between(v: int, min: Option<int>, max: Option<int>) -> bool {
    (min is None || min->0 <= v) && (max is None || v <= max->0)
}

/// An integer comes out of a strategy, where `holds` tells which conditions hold of it.
pub open spec fn lets_integer(node: StrategyNode, v: int, holds: spec_fn(u64) -> bool) -> bool
    decreases node,
{
    match node {
        StrategyNode::Integers { min, max } => between(v, bound(min), bound(max)),
        StrategyNode::Filtered { base, func } => holds(func) && lets_integer(*base, v, holds),
        _ => false,
    }
}

/// What is known of a condition is true of an integer.
pub open spec fn told_of_integer(c: Condition, v: int, holds: spec_fn(u64) -> bool) -> bool {
    match (c.math, c.integer) {
        (Some(MathTest::IsFinite), _) => holds(c.id),
        (Some(_), _) => !holds(c.id),
        (None, Some(b)) => holds(c.id) <==> between(v, bound(b.min), bound(b.max)) && (
        b.remainder is None || holds(b.remainder->0)),
        (None, None) => true,
    }
}

/// Integers under a condition are those within their bounds of which it holds.
pub proof fn filtered_integers_satisfy_the_condition(
    r: StrategyNode,
    node: StrategyNode,
    c: Condition,
    packs: Seq<Pack>,
    v: int,
    holds: spec_fn(u64) -> bool,
)
    requires
        filtered_by(r, node, c, packs),
        node is Integers,
        told_of_integer(c, v, holds),
    ensures
        lets_integer(r, v, holds) <==> lets_integer(node, v, holds) && holds(c.id),
{
    let (min, max) = (bound(node->Integers_min), bound(node->Integers_max));
    let rw = choose|rw: Rewrite| #[trigger]
        integer_rewrite(min, max, c, rw) && applied(r, node, rw, c.id);
    reveal_with_fuel(lets_integer, 3);
    integer_rewrites_leave_what_fits(min, max, c, rw, v);
}

/// What becomes of integers under a condition: where the condition bounds them, exactly those
/// within both bounds are left, and what remains of the condition is still tried.
pub proof fn integer_rewrites_leave_what_fits(
    min: Option<int>,
    max: Option<int>,
    c: Condition,
    r: Rewrite,
    v: int,
)
    requires
        integer_rewrite(min, max, c, r),
    ensures
        r is Plain <==> c.math is None && c.integer is None,
        ({
            let left = match r {
                Rewrite::Plain => true,
                Rewrite::Unchanged { .. } => between(v, min, max),
                Rewrite::Becomes { node, .. } => node is Integers && between(
                    v,
                    bound(node->Integers_min),
                    bound(node->Integers_max),
                ),
            };
            &&& c.math is None && c.integer is Some ==> (left <==> between(v, min, max) && between(
                v,
                bound(c.integer->0.min),
                bound(c.integer->0.max),
            ))
            &&& c.math == Some(MathTest::IsFinite) ==> (left <==> between(v, min, max))
            &&& c.math == Some(MathTest::IsInf) || c.math == Some(MathTest::IsNan) ==> !left
            &&& c.math is None && c.integer is Some && left ==> c.integer->0.remainder == (match r {
                Rewrite::Unchanged { keep } => keep,
                Rewrite::Becomes { keep, .. } => keep,
                Rewrite::Plain => None,
            })
            &&& r is Becomes ==> r->node is Integers || r->node is Nothing
        }),
{
}

// ---- floats -----------------------------------------------------------------

/// A float comes out of a strategy, where `holds` tells which conditions hold of it. No number
/// nearer to zero than the smallest one that is allowed comes out, but zero does.
pub open spec fn lets_float(node: StrategyNode, x: u64, holds: spec_fn(u64) -> bool) -> bool
    decreases node,
{
    match node {
        StrategyNode::Floats { min, max, allow_nan, allow_inf, snm, .. } => if is_nan_bits(x) {
            allow_nan
        } else {
            &&& float_le(min, x) && float_le(x, max)
            &&& is_finite_bits(x) || allow_inf
            &&& !(float_lt(negated_bits(snm), x) && float_lt(x, 0))
            &&& !(float_lt(0, x) && float_lt(x, snm))
        },
        StrategyNode::SampledFrom { elements, .. } => elements@.contains(Atom::Float(x)),
        StrategyNode::Just(Atom::Float(y)) => if is_nan_bits(y) {
            is_nan_bits(x)
        } else {
            x == y
        },
        StrategyNode::Filtered { base, func } => holds(func) && lets_float(*base, x, holds),
        _ => false,
    }
}

/// What is known of a condition is true of a float.
pub open spec fn told_of_float(c: Condition, x: u64, holds: spec_fn(u64) -> bool) -> bool {
    match (c.math, c.float) {
        (Some(MathTest::IsFinite), _) => holds(c.id) <==> is_finite_bits(x),
        (Some(MathTest::IsInf), _) => holds(c.id) <==> !is_finite_bits(x) && !is_nan_bits(x),
        (Some(MathTest::IsNan), _) => holds(c.id) <==> is_nan_bits(x),
        (None, Some(p)) => holds(c.id) <==> (p.min is None || float_le(p.min->0, x)) && (
        p.max is None || float_le(x, p.max->0)) && (p.remainder is None || holds(p.remainder->0)),
        (None, None) => true,
    }
}

/// The bounds of floats and of a condition are numbers.
pub open spec fn bounds_are_numbers(node: StrategyNode, c: Condition) -> bool {
    &&& !is_nan_bits(node->Floats_min) && !is_nan_bits(node->Floats_max)
    &&& !is_nan_bits(node->Floats_snm)
    &&& c.float is Some && c.float->0.min is Some ==> !is_nan_bits(c.float->0.min->0)
    &&& c.float is Some && c.float->0.max is Some ==> !is_nan_bits(c.float->0.max->0)
}

/// Floats under a condition are those of the strategy of which it holds.
pub proof fn filtered_floats_satisfy_the_condition(
    r: StrategyNode,
    node: StrategyNode,
    c: Condition,
    packs: Seq<Pack>,
    x: u64,
    holds: spec_fn(u64) -> bool,
)
    requires
        filtered_by(r, node, c, packs),
        node is Floats,
        bounds_are_numbers(node, c),
        told_of_float(c, x, holds),
        c.math is Some || !is_nan_bits(x),
    ensures
        lets_float(r, x, holds) <==> lets_float(node, x, holds) && holds(c.id),
{
    reveal_with_fuel(lets_float, 3);
    match node {
        StrategyNode::Floats { min, max, allow_nan, allow_inf, snm, width } => {
            let f = FloatFields { min, max, allow_nan, allow_inf, snm, width };
            let rw = choose|rw: Rewrite| #[trigger]
                float_rewritten(f, c, rw) && applied(r, node, rw, c.id);
            if c.math == Some(MathTest::IsInf) {
                let elements = rw->node->elements@;
                if rw->node is SampledFrom {
                    let (a, b) = (
                        Atom::Float(0xFFF0_0000_0000_0000),
                        Atom::Float(0x7FF0_0000_0000_0000),
                    );
                    assert(elements.contains(Atom::Float(x)) ==> Atom::Float(x) == a || Atom::Float(
                        x,
                    ) == b);
                    if elements.len() == 2 {
                        assert(elements[0] == a && elements[1] == b);
                    } else {
                        assert(elements.len() == 1);
                        assert(elements[0] == a || elements[0] == b);
                    }
                }
            }
        },
        _ => {},
    }
}

/// A filter that bounds floats on one side at least leaves no value that is not a number.
pub proof fn bounded_floats_are_numbers(
    r: StrategyNode,
    node: StrategyNode,
    c: Condition,
    packs: Seq<Pack>,
    x: u64,
    holds: spec_fn(u64) -> bool,
)
    requires
        filtered_by(r, node, c, packs),
        node is Floats,
        bounds_are_numbers(node, c),
        float_le(node->Floats_min, node->Floats_max),
        c.math is None,
        c.float is Some,
        c.float->0.min is Some && is_finite_bits(c.float->0.min->0) || c.float->0.max is Some
            && is_finite_bits(c.float->0.max->0),
        is_nan_bits(x),
    ensures
        !lets_float(r, x, holds),
{
    reveal_with_fuel(lets_float, 3);
    match node {
        StrategyNode::Floats { min, max, allow_nan, allow_inf, snm, width } => {
            let f = FloatFields { min, max, allow_nan, allow_inf, snm, width };
            let rw = choose|rw: Rewrite| #[trigger]
                float_rewritten(f, c, rw) && applied(r, node, rw, c.id);
        },
        _ => {},
    }
}

// ---- days -------------------------------------------------------------------

/// The comparisons are those of the integers, with the fixed value on the left.
pub proof fn comparisons_compare(arg: int, x: int)
    ensures
        comparison_holds(Comparison::Lt, arg, x) <==> arg < x,
        comparison_holds(Comparison::Le, arg, x) <==> arg <= x,
        comparison_holds(Comparison::Eq, arg, x) <==> arg == x,
        comparison_holds(Comparison::Ge, arg, x) <==> arg >= x,
        comparison_holds(Comparison::Gt, arg, x) <==> arg > x,
{
}

/// A day comes out of a strategy, where `holds` tells which conditions hold of it.
pub open spec fn lets_day(node: StrategyNode, x: int, holds: spec_fn(u64) -> bool) -> bool
    decreases node,
{
    match node {
        StrategyNode::Dates { min_ord, max_ord } => min_ord <= x <= max_ord,
        StrategyNode::Filtered { base, func } => holds(func) && lets_day(*base, x, holds),
        _ => false,
    }
}

/// Days under a comparison are those within their bounds of which it holds.
pub proof fn filtered_days_satisfy_the_comparison(
    r: StrategyNode,
    node: StrategyNode,
    c: Condition,
    packs: Seq<Pack>,
    x: int,
    holds: spec_fn(u64) -> bool,
)
    requires
        filtered_by(r, node, c, packs),
        node is Dates,
        c.date is Some ==> (holds(c.id) <==> match (c.date->0).0 {
            Comparison::Lt => (c.date->0).1 < x,
            Comparison::Le => (c.date->0).1 <= x,
            Comparison::Eq => (c.date->0).1 == x,
            Comparison::Ge => (c.date->0).1 >= x,
            Comparison::Gt => (c.date->0).1 > x,
        }),
    ensures
        lets_day(r, x, holds) <==> lets_day(node, x, holds) && holds(c.id),
{
    reveal_with_fuel(lets_day, 3);
    if c.date is Some {
        let (op, arg) = c.date->0;
        comparisons_compare(arg as int, x);
        assert(comparison_holds(op, arg as int, x) <==> holds(c.id));
    }
}

// ---- collections ------------------------------------------------------------

/// A collection of a length comes out of a strategy, where `holds` tells which conditions hold
/// of it, and functions keep the length.
pub open spec fn lets_length(node: StrategyNode, n: int, holds: spec_fn(u64) -> bool) -> bool
    decreases node,
{
    match node {
        StrategyNode::Text { min, max, .. } => min <= n <= max,
        StrategyNode::Binary { min, max } => min <= n <= max,
        StrategyNode::Lists { min, max, .. } => min <= n <= max,
        StrategyNode::Sets { min, max, .. } => min <= n <= max,
        StrategyNode::Dictionaries { min, max, .. } => min <= n <= max,
        StrategyNode::Mapped { base, .. } => lets_length(*base, n, holds),
        StrategyNode::Filtered { base, func } => holds(func) && lets_length(*base, n, holds),
        _ => false,
    }
}

/// What is known of a condition is true of a collection of a length.
pub open spec fn told_of_length(c: Condition, n: int, holds: spec_fn(u64) -> bool) -> bool {
    if c.identity || c.nonempty {
        holds(c.id) <==> n >= 1
    } else if bounds_length(c) {
        let b = c.integer->0;
        holds(c.id) <==> between(n, bound(b.min), bound(b.max)) && (b.remainder is None || holds(
            b.remainder->0,
        ))
    } else {
        c.content && holds(c.id) ==> n >= 1
    }
}

/// Collections under a condition have the lengths that the strategy allows and of which the
/// condition holds.
pub proof fn filtered_collections_satisfy_the_condition(
    r: StrategyNode,
    node: StrategyNode,
    c: Condition,
    packs: Seq<Pack>,
    n: int,
    holds: spec_fn(u64) -> bool,
)
    requires
        filtered_by(r, node, c, packs),
        collection_sizes_of(node) is Some || node is Mapped,
        told_of_length(c, n, holds),
    ensures
        lets_length(r, n, holds) <==> lets_length(node, n, holds) && holds(c.id),
{
    reveal_with_fuel(lets_length, 5);
}

// ---- several filters --------------------------------------------------------

/// All of the conditions hold.
pub open spec fn all_hold(funcs: Seq<u64>, holds: spec_fn(u64) -> bool) -> bool {
    forall|i: int| 0 <= i < funcs.len() ==> holds(#[trigger] funcs[i])
}

/// A strategy behind several filters lets through what the strategy lets through and all of
/// them hold of.
pub proof fn chains_try_every_filter(
    r: StrategyNode,
    base: StrategyNode,
    funcs: Seq<u64>,
    v: int,
    holds: spec_fn(u64) -> bool,
)
    requires
        is_chain(r, base, funcs),
    ensures
        lets_integer(r, v, holds) <==> lets_integer(base, v, holds) && all_hold(funcs, holds),
    decreases funcs.len(),
{
    if funcs.len() > 0 {
        let front = funcs.drop_last();
        chains_try_every_filter(*r->Filtered_base, base, front, v, holds);
        lemma_all_hold(funcs, holds);
    }
}

proof fn lemma_all_hold(funcs: Seq<u64>, holds: spec_fn(u64) -> bool)
    requires
        funcs.len() > 0,
    ensures
        all_hold(funcs, holds) <==> all_hold(funcs.drop_last(), holds) && holds(funcs.last()),
{
    let front = funcs.drop_last();
    if all_hold(funcs, holds) {
        assert(holds(funcs[funcs.len() - 1]));
        assert forall|i: int| 0 <= i < front.len() implies holds(#[trigger] front[i]) by {
            assert(holds(funcs[i]));
        }
    }
    if all_hold(front, holds) && holds(funcs.last()) {
        assert forall|i: int| 0 <= i < funcs.len() implies holds(#[trigger] funcs[i]) by {
            if i < front.len() {
                assert(holds(front[i]));
            }
        }
    }
}

/// All of the conditions are known, and hold.
pub open spec fn all_conditions_hold(
    conditions: Seq<Condition>,
    holds: spec_fn(u64) -> bool,
) -> bool {
    forall|i: int| 0 <= i < conditions.len() ==> holds((#[trigger] conditions[i]).id)
}

/// Folding a chain of filters into integers changes nothing: what comes out of the strategy that
/// is left, and passes the filters that are left, is what comes out of the first one and passes
/// all of them.
pub proof fn folded_filters_change_nothing(
    first: StrategyNode,
    conditions: Seq<Condition>,
    packs: Seq<Pack>,
    last: StrategyNode,
    left: Seq<u64>,
    v: int,
    holds: spec_fn(u64) -> bool,
)
    requires
        folds(first, conditions, packs, last, left),
        first is Integers,
        forall|i: int|
            0 <= i < conditions.len() ==> told_of_integer(#[trigger] conditions[i], v, holds),
    ensures
        last is Integers || last is Nothing,
        lets_integer(last, v, holds) && all_hold(left, holds) <==> lets_integer(first, v, holds)
            && all_conditions_hold(conditions, holds),
    decreases conditions.len(),
{
    if conditions.len() > 0 {
        let front = conditions.drop_last();
        let c = conditions.last();
        let (middle, kept) = choose|middle: StrategyNode, kept: Option<u64>| #[trigger]
            fold_step(middle, c, packs, last, kept) && folds(
                first,
                front,
                packs,
                middle,
                if kept is Some {
                    left.drop_last()
                } else {
                    left
                },
            ) && (kept is Some ==> left.len() > 0 && left.last() == kept->0);
        let rest = if kept is Some {
            left.drop_last()
        } else {
            left
        };
        assert forall|i: int| 0 <= i < front.len() implies told_of_integer(
            #[trigger] front[i],
            v,
            holds,
        ) by {
            assert(told_of_integer(conditions[i], v, holds));
        }
        folded_filters_change_nothing(first, front, packs, middle, rest, v, holds);
        assert(told_of_integer(conditions[conditions.len() - 1], v, holds));
        let r = choose|r: StrategyNode| #[trigger]
            filtered_by(r, middle, c, packs) && (if r is Filtered {
                last == *r->Filtered_base && kept == Some(r->Filtered_func)
            } else {
                last == r && kept is None
            });
        reveal_with_fuel(lets_integer, 3);
        if middle is Integers {
            filtered_integers_satisfy_the_condition(r, middle, c, packs, v, holds);
            let (min, max) = (bound(middle->Integers_min), bound(middle->Integers_max));
            let rw = choose|rw: Rewrite| #[trigger]
                integer_rewrite(min, max, c, rw) && applied(r, middle, rw, c.id);
            integer_rewrites_leave_what_fits(min, max, c, rw, v);
        }
        if kept is Some {
            lemma_all_hold(left, holds);
        }
        assert(all_conditions_hold(conditions, holds) <==> all_conditions_hold(front, holds)
            && holds(c.id)) by {
            if all_conditions_hold(front, holds) && holds(c.id) {
                assert forall|i: int| 0 <= i < conditions.len() implies holds(
                    (#[trigger] conditions[i]).id,
                ) by {
                    if i < front.len() {
                        assert(holds(front[i].id));
                    }
                }
            }
            if all_conditions_hold(conditions, holds) {
                assert(holds(conditions[conditions.len() - 1].id));
                assert forall|i: int| 0 <= i < front.len() implies holds(
                    (#[trigger] front[i]).id,
                ) by {
                    assert(holds(conditions[i].id));
                }
            }
        }
    }
}

// ---- regular expressions ----------------------------------------------------

/// A strategy made of a regular expression has the lengths of the strings that it takes the
/// place of. A match begins at the start, and only a full match takes up all of a string.
pub proof fn patterns_keep_the_lengths(
    r: RegexPlan,
    method: PatternMethod,
    pattern: Seq<char>,
    pretty: Seq<char>,
    min: u64,
    max: u64,
    n: int,
)
    requires
        regex_plan(r, method, pattern, pretty, min, max),
        r is Generate,
        0 <= n,
    ensures
        (r->min_len is None || r->min_len->0 <= n) && (r->max_len is None || n <= r->max_len->0)
            <==> min <= n && (n <= max || max >= 10_000_000_000),
        r->fullmatch <==> method == PatternMethod::Fullmatch,
        method == PatternMethod::Match ==> r->pattern@ == "^(?:"@ + pattern + ")"@,
        method != PatternMethod::Match ==> r->pattern@ == pattern,
        method != PatternMethod::Split && method != PatternMethod::Finditer && method
            != PatternMethod::Scanner && method != PatternMethod::Other,
{
}

} // verus!
