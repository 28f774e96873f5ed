//! Folding conditions into strategies.
//!
//! A filter that only compares with a bound, or looks at a length, is better built
//! into the strategy than tried afterwards. What is known of a condition comes as a
//! [`Condition`]; a part of it that could not be folded in stays as a filter.
use crate::calendar::MAX_ORDINAL;
use crate::floats::{
    float_le, float_lt, le, lt, negate, negated_bits, next_down, next_up, INFINITY, MAX_FINITE,
    SIGN,
};
use crate::integer::Int;
use crate::ordering::{bound, bounds_ordered, within};
use crate::strategy::{float_max, float_min, max_of, min_of, Atom, StrategyNode};
use vstd::prelude::*;

verus! {

/// The bits of the NaN that a filter for it leaves.
pub const NAN: u64 = 0x7FF8_0000_0000_0000;

/// The functions of the mathematics module that a filter can be.
#[derive(Clone, Copy, Debug, PartialEq, Eq, Structural)]
pub enum MathTest {
    IsFinite,
    IsInf,
    IsNan,
}

/// A comparison of a fixed value, on the left, with the filtered one.
#[derive(Clone, Copy, Debug, PartialEq, Eq, Structural)]
pub enum Comparison {
    Lt,
    Le,
    Eq,
    Ge,
    Gt,
}

/// What a condition says of an integer, or of a length, and what remains to be tried.
#[derive(Debug)]
pub struct IntegerBounds {
    pub min: Option<Int>,
    pub max: Option<Int>,
    /// The bounds are those of the length.
    pub len: bool,
    pub remainder: Option<u64>,
}

/// What a condition says of a float, and what remains to be tried.
#[derive(Clone, Copy, Debug, PartialEq, Eq, Structural)]
pub struct FloatConditions {
    pub min: Option<u64>,
    pub max: Option<u64>,
    pub remainder: Option<u64>,
}

/// What is known of a condition.
#[derive(Debug)]
pub struct Condition {
    pub id: u64,
    pub math: Option<MathTest>,
    pub integer: Option<IntegerBounds>,
    pub float: Option<FloatConditions>,
    /// The comparison with a day.
    pub date: Option<(Comparison, i64)>,
    /// The condition gives its argument back.
    pub identity: bool,
    /// The condition holds of everything that is not empty.
    pub nonempty: bool,
    /// The condition holds only of what is not empty, and not of all of it.
    pub content: bool,
}

/// What becomes of a strategy under a filter.
#[derive(Debug)]
pub enum Rewrite {
    /// The condition is not understood.
    Plain,
    /// The strategy stays as it is; something may remain to be tried.
    Unchanged { keep: Option<u64> },
    /// Another strategy takes its place; something may remain to be tried.
    Becomes { node: StrategyNode, keep: Option<u64> },
}

// ---- integers ---------------------------------------------------------------

/// The greater one of two lower bounds.
pub open spec fn tighter_min(a: Option<int>, b: Option<int>) -> Option<int> {
    match (a, b) {
        (Some(x), Some(y)) => if x > y {
            Some(x)
        } else {
            Some(y)
        },
        (Some(x), None) => Some(x),
        (None, y) => y,
    }
}

/// The smaller one of two upper bounds.
pub open spec fn tighter_max(a: Option<int>, b: Option<int>) -> Option<int> {
    match (a, b) {
        (Some(x), Some(y)) => if x < y {
            Some(x)
        } else {
            Some(y)
        },
        (Some(x), None) => Some(x),
        (None, y) => y,
    }
}

/// Both bounds together permit exactly what both permit.
pub proof fn tighter_bounds_permit_what_both_permit(
    v: int,
    min: Option<int>,
    max: Option<int>,
    cmin: Option<int>,
    cmax: Option<int>,
)
    ensures
        within(v, tighter_min(min, cmin), tighter_max(max, cmax)) <==> within(v, min, max)
            && within(v, cmin, cmax),
{
}

fn tighten_min(a: &Option<Int>, b: &Option<Int>) -> (r: Option<Int>)
    ensures
        bound(r) == tighter_min(bound(*a), bound(*b)),
{
    match (a, b) {
        (Some(x), Some(y)) => if y.less(x) {
            Some(x.clone())
        } else {
            Some(y.clone())
        },
        (Some(x), None) => Some(x.clone()),
        (None, Some(y)) => Some(y.clone()),
        (None, None) => None,
    }
}

fn tighten_max(a: &Option<Int>, b: &Option<Int>) -> (r: Option<Int>)
    ensures
        bound(r) == tighter_max(bound(*a), bound(*b)),
{
    match (a, b) {
        (Some(x), Some(y)) => if x.less(y) {
            Some(x.clone())
        } else {
            Some(y.clone())
        },
        (Some(x), None) => Some(x.clone()),
        (None, Some(y)) => Some(y.clone()),
        (None, None) => None,
    }
}

fn same_bound(a: &Option<Int>, b: &Option<Int>) -> (r: bool)
    ensures
        r == (bound(*a) == bound(*b)),
{
    match (a, b) {
        (Some(x), Some(y)) => x.same(y),
        (None, None) => true,
        _ => false,
    }
}

/// `r` is what becomes of integers between two bounds.
pub open spec fn integer_rewrite(
    min: Option<int>,
    max: Option<int>,
    c: Condition,
    r: Rewrite,
) -> bool {
    match c.math {
        Some(MathTest::IsFinite) => r == (Rewrite::Unchanged { keep: None }),
        Some(_) => r == (Rewrite::Becomes { node: StrategyNode::Nothing, keep: None }),
        None => match c.integer {
            None => r is Plain,
            Some(b) => {
                let new_min = tighter_min(min, bound(b.min));
                let new_max = tighter_max(max, bound(b.max));
                if new_min == min && new_max == max {
                    r == (Rewrite::Unchanged { keep: b.remainder })
                } else if !bounds_ordered(new_min, new_max) {
                    r == (Rewrite::Becomes { node: StrategyNode::Nothing, keep: None })
                } else {
                    &&& r is Becomes
                    &&& r->Becomes_keep == b.remainder
                    &&& r->node is Integers
                    &&& bound(r->node->Integers_min) == new_min
                    &&& bound(r->node->Integers_max) == new_max
                }
            },
        },
    }
}

/// Folds a condition into the bounds of integers.
pub fn rewrite_integer_filter(min: &Option<Int>, max: &Option<Int>, c: &Condition) -> (r: Rewrite)
    ensures
        integer_rewrite(bound(*min), bound(*max), *c, r),
{
    match c.math {
        Some(MathTest::IsFinite) => {
            return Rewrite::Unchanged { keep: None };
        },
        Some(_) => {
            return Rewrite::Becomes { node: StrategyNode::Nothing, keep: None };
        },
        None => {},
    }
    let b = match &c.integer {
        Some(b) => b,
        None => {
            return Rewrite::Plain;
        },
    };
    let new_min = tighten_min(min, &b.min);
    let new_max = tighten_max(max, &b.max);
    if same_bound(&new_min, min) && same_bound(&new_max, max) {
        return Rewrite::Unchanged { keep: b.remainder };
    }
    if let (Some(lo), Some(hi)) = (&new_min, &new_max) {
        if hi.less(lo) {
            return Rewrite::Becomes { node: StrategyNode::Nothing, keep: None };
        }
    }
    Rewrite::Becomes {
        node: StrategyNode::Integers { min: new_min, max: new_max },
        keep: b.remainder,
    }
}

// ---- floats -----------------------------------------------------------------

/// A float strategy.
#[derive(Clone, Copy, Debug, PartialEq, Eq, Structural)]
pub struct FloatFields {
    pub min: u64,
    pub max: u64,
    pub allow_nan: bool,
    pub allow_inf: bool,
    pub snm: u64,
    pub width: u32,
}

impl FloatFields {
    pub open spec fn node(&self) -> StrategyNode {
        StrategyNode::Floats {
            min: self.min,
            max: self.max,
            allow_nan: self.allow_nan,
            allow_inf: self.allow_inf,
            snm: self.snm,
            width: self.width,
        }
    }

    fn to_node(&self) -> (r: StrategyNode)
        ensures
            r == self.node(),
    {
        StrategyNode::Floats {
            min: self.min,
            max: self.max,
            allow_nan: self.allow_nan,
            allow_inf: self.allow_inf,
            snm: self.snm,
            width: self.width,
        }
    }
}

/// A lower bound moved out of the range around zero in which no number is drawn.
pub open spec fn min_off_zero(b: u64, snm: u64) -> u64 {
    if float_lt(negated_bits(snm), b) && float_lt(b, 0) {
        SIGN
    } else if float_lt(0, b) && float_lt(b, snm) {
        snm
    } else {
        b
    }
}

/// An upper bound moved out of the range around zero in which no number is drawn.
pub open spec fn max_off_zero(b: u64, snm: u64) -> u64 {
    if float_lt(negated_bits(snm), b) && float_lt(b, 0) {
        negated_bits(snm)
    } else if float_lt(0, b) && float_lt(b, snm) {
        0
    } else {
        b
    }
}

/// The bounds of floats under a condition.
pub open spec fn float_bounds_under(f: FloatFields, c: FloatConditions) -> (u64, u64) {
    let cmin = match c.min {
        Some(b) => b,
        None => (SIGN + INFINITY) as u64,
    };
    let cmax = match c.max {
        Some(b) => b,
        None => INFINITY,
    };
    (min_off_zero(float_max(cmin, f.min), f.snm), max_off_zero(float_min(cmax, f.max), f.snm))
}

/// What becomes of floats under a condition.
pub open spec fn float_rewrite(f: FloatFields, c: Condition) -> Option<(Option<FloatFields>, Option<u64>)> {
    match c.float {
        None => None,
        Some(p) => if p.min is None && p.max is None {
            None
        } else {
            let (lo, hi) = float_bounds_under(f, p);
            if float_lt(hi, lo) {
                None
            } else if float_lt(f.min, lo) || float_lt(hi, f.max) || (f.allow_nan && (float_lt(
                (SIGN + INFINITY) as u64,
                lo,
            ) || float_lt(hi, INFINITY))) {
                Some(
                    (
                        Some(
                            FloatFields {
                                min: lo,
                                max: hi,
                                allow_nan: false,
                                allow_inf: f.allow_inf && (lo == SIGN + INFINITY || hi == INFINITY),
                                snm: f.snm,
                                width: f.width,
                            },
                        ),
                        p.remainder,
                    ),
                )
            } else {
                Some((None, p.remainder))
            }
        },
    }
}

/// `r` is what becomes of floats.
pub open spec fn float_rewritten(f: FloatFields, c: Condition, r: Rewrite) -> bool {
    match c.math {
        Some(MathTest::IsFinite) => r == (Rewrite::Becomes {
            node: (FloatFields {
                min: float_max(f.min, (SIGN + MAX_FINITE) as u64),
                max: float_min(f.max, MAX_FINITE),
                allow_nan: false,
                allow_inf: false,
                snm: f.snm,
                width: f.width,
            }).node(),
            keep: None,
        }),
        Some(MathTest::IsInf) => {
            let down = f.allow_inf && float_le(f.min, (SIGN + INFINITY) as u64) && float_le(
                (SIGN + INFINITY) as u64,
                f.max,
            );
            let up = f.allow_inf && float_le(f.min, INFINITY) && float_le(INFINITY, f.max);
            &&& r is Becomes && r->Becomes_keep is None
            &&& !down && !up ==> r->node is Nothing
            &&& down || up ==> r->node is SampledFrom && !r->node->is_tuple
                && r->node->elements@ == (if down {
                seq![Atom::Float((SIGN + INFINITY) as u64)]
            } else {
                Seq::<Atom>::empty()
            }) + (if up {
                seq![Atom::Float(INFINITY)]
            } else {
                Seq::<Atom>::empty()
            })
        },
        Some(MathTest::IsNan) => r == (Rewrite::Becomes {
            node: if f.allow_nan {
                StrategyNode::Just(Atom::Float(NAN))
            } else {
                StrategyNode::Nothing
            },
            keep: None,
        }),
        None => match c.float {
            None => r is Plain,
            Some(p) => if p.min is None && p.max is None {
                r is Plain
            } else {
                match float_rewrite(f, c) {
                    None => r == (Rewrite::Becomes { node: StrategyNode::Nothing, keep: None }),
                    Some((None, keep)) => r == (Rewrite::Unchanged { keep }),
                    Some((Some(g), keep)) => r == (Rewrite::Becomes { node: g.node(), keep }),
                }
            },
        },
    }
}

/// Folds a condition into the bounds of floats. Where infinities were forbidden they
/// stay so, whatever the bounds say.
pub fn rewrite_float_filter(f: &FloatFields, c: &Condition) -> (r: Rewrite)
    ensures
        float_rewritten(*f, *c, r),
{
    let minus_inf: u64 = SIGN + INFINITY;
    match c.math {
        Some(MathTest::IsFinite) => {
            let g = FloatFields {
                min: max_of(f.min, next_up(minus_inf)),
                max: min_of(f.max, next_down(INFINITY)),
                allow_nan: false,
                allow_inf: false,
                snm: f.snm,
                width: f.width,
            };
            return Rewrite::Becomes { node: g.to_node(), keep: None };
        },
        Some(MathTest::IsInf) => {
            let mut elements: Vec<Atom> = Vec::new();
            if f.allow_inf && le(f.min, minus_inf) && le(minus_inf, f.max) {
                elements.push(Atom::Float(minus_inf));
            }
            if f.allow_inf && le(f.min, INFINITY) && le(INFINITY, f.max) {
                elements.push(Atom::Float(INFINITY));
            }
            if elements.len() == 0 {
                return Rewrite::Becomes { node: StrategyNode::Nothing, keep: None };
            }
            proof {
                let down = f.allow_inf && float_le(f.min, minus_inf) && float_le(minus_inf, f.max);
                let up = f.allow_inf && float_le(f.min, INFINITY) && float_le(INFINITY, f.max);
                assert(elements@ =~= (if down {
                    seq![Atom::Float(minus_inf)]
                } else {
                    Seq::<Atom>::empty()
                }) + (if up {
                    seq![Atom::Float(INFINITY)]
                } else {
                    Seq::<Atom>::empty()
                }));
            }
            return Rewrite::Becomes {
                node: StrategyNode::SampledFrom { elements, is_tuple: false },
                keep: None,
            };
        },
        Some(MathTest::IsNan) => {
            let node = if f.allow_nan {
                StrategyNode::Just(Atom::Float(NAN))
            } else {
                StrategyNode::Nothing
            };
            return Rewrite::Becomes { node, keep: None };
        },
        None => {},
    }
    let p: FloatConditions = match c.float {
        Some(p) => p,
        None => {
            return Rewrite::Plain;
        },
    };
    if p.min.is_none() && p.max.is_none() {
        return Rewrite::Plain;
    }
    let cmin: u64 = match p.min {
        Some(b) => b,
        None => minus_inf,
    };
    let cmax: u64 = match p.max {
        Some(b) => b,
        None => INFINITY,
    };
    let near: u64 = negate(f.snm);
    let mut lo: u64 = max_of(cmin, f.min);
    let mut hi: u64 = min_of(cmax, f.max);
    if lt(near, lo) && lt(lo, 0) {
        lo = SIGN;
    } else if lt(0, lo) && lt(lo, f.snm) {
        lo = f.snm;
    }
    if lt(near, hi) && lt(hi, 0) {
        hi = near;
    } else if lt(0, hi) && lt(hi, f.snm) {
        hi = 0;
    }
    if lt(hi, lo) {
        return Rewrite::Becomes { node: StrategyNode::Nothing, keep: None };
    }
    let changed = lt(f.min, lo) || lt(hi, f.max) || (f.allow_nan && (lt(minus_inf, lo) || lt(
        hi,
        INFINITY,
    )));
    if !changed {
        return Rewrite::Unchanged { keep: p.remainder };
    }
    let g = FloatFields {
        min: lo,
        max: hi,
        allow_nan: false,
        allow_inf: f.allow_inf && (lo == minus_inf || hi == INFINITY),
        snm: f.snm,
        width: f.width,
    };
    Rewrite::Becomes { node: g.to_node(), keep: p.remainder }
}

// ---- dates ------------------------------------------------------------------

/// The comparison of the fixed day with another one holds.
pub open spec fn comparison_holds(op: Comparison, arg: int, x: int) -> bool {
    match op {
        Comparison::Lt => arg < x,
        Comparison::Le => arg <= x,
        Comparison::Eq => arg == x,
        Comparison::Ge => arg >= x,
        Comparison::Gt => arg > x,
    }
}

/// What becomes of days under a comparison: other bounds, the same, or nothing.
#[derive(Clone, Copy, Debug, PartialEq, Eq, Structural)]
pub enum DateRewrite {
    Plain,
    Unchanged,
    Empty,
    Between { min_ord: i64, max_ord: i64 },
}

/// Folds a comparison into the bounds of days. Exactly the days for which it holds are
/// left.
pub fn rewrite_date_filter(min_ord: i64, max_ord: i64, date: &Option<(Comparison, i64)>) -> (r:
    DateRewrite)
    requires
        1 <= min_ord <= max_ord <= MAX_ORDINAL,
        date is Some ==> 1 <= (date->0).1 <= MAX_ORDINAL,
    ensures
        date is None <==> r is Plain,
        date is Some ==> {
            let (op, arg) = date->0;
            &&& r is Empty <==> forall|x: int|
                min_ord <= x <= max_ord ==> !#[trigger] comparison_holds(op, arg as int, x)
            &&& r is Unchanged <==> forall|x: int|
                min_ord <= x <= max_ord ==> #[trigger] comparison_holds(op, arg as int, x)
            &&& r is Between ==> min_ord <= r->min_ord <= r->max_ord <= max_ord && forall|x: int|
                min_ord <= x <= max_ord ==> (#[trigger] comparison_holds(op, arg as int, x)
                    <==> r->min_ord <= x <= r->max_ord)
        },
{
    let (op, arg): (Comparison, i64) = match date {
        Some(p) => (p.0, p.1),
        None => {
            return DateRewrite::Plain;
        },
    };
    let adj: i64 = match op {
        Comparison::Lt => arg + 1,
        Comparison::Gt => arg - 1,
        _ => arg,
    };
    let (lo, hi): (i64, i64) = match op {
        Comparison::Lt => (adj, max_ord),
        Comparison::Le => (adj, max_ord),
        Comparison::Eq => (adj, adj),
        Comparison::Ge => (min_ord, adj),
        Comparison::Gt => (min_ord, adj),
    };
    let lo: i64 = if lo > min_ord {
        lo
    } else {
        min_ord
    };
    let hi: i64 = if hi < max_ord {
        hi
    } else {
        max_ord
    };
    proof {
        assert forall|x: int| min_ord <= x <= max_ord implies (#[trigger] comparison_holds(
            op,
            arg as int,
            x,
        ) <==> lo <= x <= hi) by {}
        assert(min_ord <= min_ord <= max_ord && min_ord <= max_ord <= max_ord);
        assert(comparison_holds(op, arg as int, min_ord as int) <==> lo <= min_ord <= hi);
        assert(comparison_holds(op, arg as int, max_ord as int) <==> lo <= max_ord <= hi);
        if lo <= hi {
            assert(comparison_holds(op, arg as int, lo as int));
        }
    }
    if adj < 1 || adj > MAX_ORDINAL || hi < lo {
        return DateRewrite::Empty;
    }
    if lo <= min_ord && max_ord <= hi {
        return DateRewrite::Unchanged;
    }
    DateRewrite::Between { min_ord: lo, max_ord: hi }
}

// ---- collections ------------------------------------------------------------

/// What becomes of a collection under a filter.
#[derive(Clone, Copy, Debug, PartialEq, Eq, Structural)]
pub enum CollRw {
    SelfUnchanged,
    Empty,
    /// Other sizes; the condition may have to be tried all the same.
    Resize { min: u64, max: u64, keep: bool },
    Plain,
}

/// The sizes that a length condition leaves.
pub open spec fn sizes_under(min: u64, max: u64, b: IntegerBounds) -> (int, int) {
    (
        if b.min is Some && b.min->0@ > min {
            b.min->0@
        } else {
            min as int
        },
        if b.max is Some && b.max->0@ < max {
            b.max->0@
        } else {
            max as int
        },
    )
}

/// The condition bounds the length.
pub open spec fn bounds_length(c: Condition) -> bool {
    c.integer is Some && c.integer->0.len && (c.integer->0.min is Some || c.integer->0.max is Some)
}

/// What becomes of a collection under a filter.
pub open spec fn coll_rewrite(min: u64, max: u64, is_str: bool, c: Condition) -> CollRw {
    if c.identity || c.nonempty {
        if max < 1 {
            CollRw::Empty
        } else if min >= 1 {
            CollRw::SelfUnchanged
        } else {
            CollRw::Resize { min: 1, max, keep: false }
        }
    } else if bounds_length(c) {
        let b = c.integer->0;
        let (lo, hi) = sizes_under(min, max, b);
        if lo > hi {
            CollRw::Plain
        } else if lo == min && hi == max && b.remainder is None {
            CollRw::SelfUnchanged
        } else {
            CollRw::Resize { min: lo as u64, max: hi as u64, keep: b.remainder is Some }
        }
    } else if is_str && max >= 1 && c.content {
        CollRw::Resize {
            min: if min > 1 {
                min
            } else {
                1
            },
            max,
            keep: true,
        }
    } else {
        CollRw::Plain
    }
}

/// Finds out what becomes of a collection under a filter.
pub fn analyze_coll_filter(min_size: u64, max_size: u64, is_str: bool, c: &Condition) -> (r: CollRw)
    requires
        min_size <= max_size,
    ensures
        r == coll_rewrite(min_size, max_size, is_str, *c),
        r is Resize ==> min_size <= r->Resize_min <= r->Resize_max <= max_size,
{
    if c.identity || c.nonempty {
        if max_size < 1 {
            return CollRw::Empty;
        }
        if min_size >= 1 {
            return CollRw::SelfUnchanged;
        }
        return CollRw::Resize { min: 1, max: max_size, keep: false };
    }
    if let Some(b) = &c.integer {
        if b.len && (b.min.is_some() || b.max.is_some()) {
            let low = Int::of_unsigned(min_size);
            let high = Int::of_unsigned(max_size);
            let lo = match &b.min {
                Some(m) => if low.less(m) {
                    m.clone()
                } else {
                    low
                },
                None => low,
            };
            let hi = match &b.max {
                Some(m) => if m.less(&high) {
                    m.clone()
                } else {
                    high
                },
                None => high,
            };
            if hi.less(&lo) {
                return CollRw::Plain;
            }
            let lo: u64 = match lo.to_u64() {
                Some(n) => n,
                None => min_size,
            };
            let hi: u64 = match hi.to_u64() {
                Some(n) => n,
                None => max_size,
            };
            if lo == min_size && hi == max_size && b.remainder.is_none() {
                return CollRw::SelfUnchanged;
            }
            return CollRw::Resize { min: lo, max: hi, keep: b.remainder.is_some() };
        }
    }
    if is_str && max_size >= 1 && c.content {
        return CollRw::Resize {
            min: if min_size > 1 {
                min_size
            } else {
                1
            },
            max: max_size,
            keep: true,
        };
    }
    CollRw::Plain
}

/// Whether a function is one of a list of filters.
pub fn coll_class_filter_set(filters: &Vec<u64>, func: u64) -> (r: bool)
    ensures
        r == filters@.contains(func),
{
    let mut i: usize = 0;
    while i < filters.len()
        invariant
            i <= filters.len(),
            forall|x: int| 0 <= x < i ==> filters@[x] != func,
        decreases filters.len() - i,
    {
        if filters[i] == func {
            assert(filters@[i as int] == func);
            return true;
        }
        i = i + 1;
    }
    false
}

} // verus!
