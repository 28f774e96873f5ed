//! Strategies as data.
//!
//! A strategy is a tree of [`StrategyNode`]s. Objects and functions that belong to
//! the user are kept by the host and stand here as numbers.
use crate::choice::{holds_codepoints, CODEPOINT_LIMIT};
use crate::floats::{
    float_lt, is_nan, is_nan_bits, lt, max_finite_for_width, negate, negated_bits, sign_aware_lte,
    FloatBounds, INFINITY, MAX_FINITE, SIGN,
};
use crate::integer::Int;
use crate::intervalset::{ascending, covers, intervals_valid, IntervalSet};
use crate::ordering::{bound, bounds_ordered};
use crate::provider::float_bounds_ordered;
use vstd::prelude::*;

verus! {

/// Where no upper size is given.
pub const COLLECTION_DEFAULT_MAX_SIZE: u64 = 10_000_000_000;

pub const US_PER_DAY: i64 = 86_400_000_000;

/// The ordinal of the first of January 2000, towards which dates shrink.
pub const MILLENNIUM_ORDINAL: i64 = 730_120;

/// A value without parts: one of a few plain ones, or an object of the host.
#[derive(Clone, Copy, Debug, PartialEq, Eq, Structural)]
pub enum Atom {
    Nil,
    Bool(bool),
    Int(i64),
    /// The bits of a float.
    Float(u64),
    Host(u64),
}

/// A fraction; the denominator is positive.
#[derive(Debug)]
pub struct Ratio {
    pub num: Int,
    pub den: Int,
}

/// The characters that a string may be made of.
#[derive(Debug)]
pub struct Alphabet {
    set: IntervalSet,
}

impl Alphabet {
    #[verifier::type_invariant]
    spec fn in_order(&self) -> bool {
        self.set.wf() && self.set.normal() && holds_codepoints(self.set)
    }

    /// The set of the characters.
    pub closed spec fn members(&self) -> IntervalSet {
        self.set
    }

    /// An alphabet of the members of a set, if they are all codepoints and the set
    /// counts each of them once.
    pub fn new(set: IntervalSet) -> (r: Option<Alphabet>)
        requires
            set.wf(),
        ensures
            r is Some <==> set.normal() && holds_codepoints(set),
            r is Some ==> r->0.members() == set,
    {
        let s = &set.intervals;
        let mut i: usize = 0;
        while i < s.len()
            invariant
                i <= s.len(),
                s == set.intervals,
                intervals_valid(s@),
                ascending(s@.take(i as int)),
                forall|k: int|
                    0 <= k < i ==> 0 <= (#[trigger] s@[k]).0 && s@[k].1 < CODEPOINT_LIMIT,
            decreases s.len() - i,
        {
            let (u, v) = s[i];
            proof {
                assert(s@[i as int].0 <= s@[i as int].1);
            }
            if u < 0 || v >= CODEPOINT_LIMIT as i64 {
                proof {
                    if u < 0 {
                        assert(covers(s@, u as int));
                        assert(set.has(u as int));
                    } else {
                        assert(covers(s@, v as int));
                        assert(set.has(v as int));
                    }
                }
                return None;
            }
            if i > 0 && s[i - 1].1 >= u {
                proof {
                    assert(!(s@[i - 1].1 < s@[i as int].0));
                }
                return None;
            }
            proof {
                let t = s@.take(i + 1);
                assert forall|a: int, b: int| 0 <= a < b < t.len() implies (#[trigger] t[a]).1 < (
                #[trigger] t[b]).0 by {
                    let f = s@.take(i as int);
                    if b < i {
                        assert(f[a].1 < f[b].0);
                    } else if a < i - 1 {
                        assert(f[a].1 < f[i - 1].0);
                        assert(s@[i - 1].0 <= s@[i - 1].1);
                    }
                }
            }
            i = i + 1;
        }
        proof {
            assert(s@.take(i as int) =~= s@);
            assert forall|x: int| #[trigger] set.has(x) implies 0 <= x < CODEPOINT_LIMIT by {
                let k = choose|k: int| 0 <= k < s@.len() && (#[trigger] s@[k]).0 <= x <= s@[k].1;
                assert(0 <= s@[k].0 && s@[k].1 < CODEPOINT_LIMIT);
            }
        }
        Some(Alphabet { set })
    }

    /// The alphabet of the members of a set.
    pub fn of(set: IntervalSet) -> (r: Alphabet)
        requires
            set.wf(),
            set.normal(),
            holds_codepoints(set),
        ensures
            r.members() == set,
    {
        Alphabet { set }
    }

    pub fn as_set(&self) -> (r: &IntervalSet)
        ensures
            *r == self.members(),
            r.wf(),
            r.normal(),
            holds_codepoints(*r),
    {
        proof {
            use_type_invariant(self);
        }
        &self.set
    }

    /// The same alphabet again.
    pub fn copy(&self) -> (r: Alphabet)
        ensures
            r.members().intervals@ == self.members().intervals@,
    {
        proof {
            use_type_invariant(self);
        }
        let set = self.set.copy();
        proof {
            assert forall|x: int| #[trigger] set.has(x) implies 0 <= x < CODEPOINT_LIMIT by {
                assert(self.set.has(x));
            }
        }
        Alphabet { set }
    }
}

/// A key of a fixed dictionary and the strategy of its value.
#[derive(Debug)]
pub struct FixedItem {
    pub key: Atom,
    pub value: StrategyNode,
}

/// A keyword and the strategy of its value.
#[derive(Debug)]
pub struct NamedNode {
    pub name: String,
    pub node: StrategyNode,
}

/// A strategy.
#[derive(Debug)]
#[allow(inconsistent_fields)]
pub enum StrategyNode {
    Integers { min: Option<Int>, max: Option<Int> },
    Booleans,
    /// The floats are their bits.
    Floats { min: u64, max: u64, allow_nan: bool, allow_inf: bool, snm: u64, width: u32 },
    NoneVal,
    Just(Atom),
    Nothing,
    SampledFrom { elements: Vec<Atom>, is_tuple: bool },
    /// The numbers of an arithmetic progression, which may be very long. `stop` is
    /// only shown.
    SampledFromRange { start: Int, stop: Int, step: Int, len: Int },
    OneOf(Vec<StrategyNode>),
    Tuples(Vec<StrategyNode>),
    /// With key functions the elements are unique by each of them. With a domain
    /// they are drawn from it without putting them back.
    Lists {
        elem: Box<StrategyNode>,
        min: u64,
        max: u64,
        unique_by: Vec<u64>,
        swap_domain: Option<Vec<Atom>>,
    },
    /// Found out when it is needed.
    Deferred { thunk: u64 },
    Sets { elem: Box<StrategyNode>, min: u64, max: u64, frozen: bool },
    Dictionaries { keys: Box<StrategyNode>, values: Box<StrategyNode>, min: u64, max: u64 },
    FixedDict { items: Vec<FixedItem> },
    Text { alphabet: Alphabet, min: u64, max: u64 },
    Characters { alphabet: Alphabet, repr: String },
    Binary { min: u64, max: u64 },
    Mapped { base: Box<StrategyNode>, func: u64 },
    Filtered { base: Box<StrategyNode>, func: u64 },
    Flatmapped { base: Box<StrategyNode>, func: u64 },
    Uuids { version: Option<u8>, allow_nil: bool },
    Permutations(Vec<Atom>),
    Builds { target: u64, args: Vec<StrategyNode>, kwargs: Vec<NamedNode> },
    /// A function of the user that draws as it goes.
    Composite { func: u64 },
    /// Days are counted from the first of January of the year one.
    Dates { min_ord: i64, max_ord: i64 },
    /// Microseconds since midnight.
    Times { min_us: i64, max_us: i64 },
    Datetimes { min_ord: i64, max_ord: i64 },
    Timedeltas { min_us: Int, max_us: Int },
    ComplexNumbers { allow_nan: bool },
    IpAddresses { v6: Option<bool>, net_range: Option<(Int, Int)> },
    Slices { size: u64 },
    Fractions { min: Option<Ratio>, max: Option<Ratio>, max_denom: i64 },
    Decimals { min: Option<Ratio>, max: Option<Ratio>, places: Option<i32> },
    /// Something to draw from while the test runs.
    Data,
    /// Functions with a given signature.
    Functions { id: u64, result: Box<StrategyNode>, pure: bool },
    /// Random number generators.
    Randoms { use_true_random: bool, note_method_calls: bool },
    /// A mistake that is reported when the strategy is used.
    Invalid { msg: String, resolution_failed: bool },
    /// Drawn once per test case for each key. `shown` is how the key is shown.
    Shared { base: Box<StrategyNode>, key: String, shown: String },
    /// A strategy of somebody else.
    Foreign { id: u64 },
}

/// The largest of two floats, the other one where one is not a number.
pub open spec fn float_max(a: u64, b: u64) -> u64 {
    if is_nan_bits(a) {
        b
    } else if is_nan_bits(b) {
        a
    } else if float_lt(a, b) {
        b
    } else {
        a
    }
}

/// The smallest of two floats, the other one where one is not a number.
pub open spec fn float_min(a: u64, b: u64) -> u64 {
    if is_nan_bits(a) {
        b
    } else if is_nan_bits(b) {
        a
    } else if float_lt(b, a) {
        b
    } else {
        a
    }
}

pub fn max_of(a: u64, b: u64) -> (r: u64)
    ensures
        r == float_max(a, b),
{
    if is_nan(a) {
        b
    } else if is_nan(b) {
        a
    } else if lt(a, b) {
        b
    } else {
        a
    }
}

pub fn min_of(a: u64, b: u64) -> (r: u64)
    ensures
        r == float_min(a, b),
{
    if is_nan(a) {
        b
    } else if is_nan(b) {
        a
    } else if lt(b, a) {
        b
    } else {
        a
    }
}

/// The largest finite float of a width.
pub open spec fn widest(width: u32) -> u64 {
    if width == 16 {
        0x40EF_FC00_0000_0000u64
    } else if width == 32 {
        0x47EF_FFFF_E000_0000u64
    } else {
        MAX_FINITE
    }
}

/// The bounds that a float of a width is drawn between: an open bound is the
/// largest finite float where infinities are not allowed, and no finite bound goes
/// beyond it.
pub open spec fn effective_bounds(min: u64, max: u64, allow_inf: bool, width: u32) -> (u64, u64) {
    let far = widest(width);
    (
        if min == SIGN + INFINITY {
            if allow_inf {
                min
            } else {
                negated_bits(far)
            }
        } else {
            float_max(min, negated_bits(far))
        },
        if max == INFINITY {
            if allow_inf {
                max
            } else {
                far
            }
        } else {
            float_min(max, far)
        },
    )
}

pub fn float_effective_bounds(min: u64, max: u64, allow_inf: bool, width: u32) -> (r: (u64, u64))
    ensures
        r == effective_bounds(min, max, allow_inf, width),
{
    let far: u64 = max_finite_for_width(width);
    let low: u64 = if min == SIGN + INFINITY {
        if allow_inf {
            min
        } else {
            negate(far)
        }
    } else {
        max_of(min, negate(far))
    };
    let high: u64 = if max == INFINITY {
        if allow_inf {
            max
        } else {
            far
        }
    } else {
        min_of(max, far)
    };
    (low, high)
}

/// A fraction whose denominator is positive, where there is one.
pub open spec fn ratio_ok(r: Option<Ratio>) -> bool {
    r is Some ==> r->0.den@ > 0
}

fn check_ratio(r: &Option<Ratio>) -> (b: bool)
    ensures
        b == ratio_ok(*r),
{
    match r {
        Some(q) => Int::of(0).less(&q.den),
        None => true,
    }
}

/// The sizes of a collection make sense.
pub open spec fn sizes_ok(min: u64, max: u64) -> bool {
    min <= max
}

impl StrategyNode {
    /// The bounds and sizes of a strategy and of all its parts make sense, so that it
    /// can be drawn from.
    pub open spec fn ok(&self) -> bool
        decreases self,
    {
        match self {
            StrategyNode::Integers { min, max } => bounds_ordered(bound(*min), bound(*max)),
            StrategyNode::Floats { min, max, allow_nan, allow_inf, snm, width } => {
                let (low, high) = effective_bounds(*min, *max, *allow_inf, *width);
                float_bounds_ordered(
                    FloatBounds {
                        min_value: low,
                        max_value: high,
                        allow_nan: *allow_nan,
                        smallest_nonzero_magnitude: *snm,
                    },
                )
            },
            StrategyNode::OneOf(children) => forall|i: int|
                0 <= i < children@.len() ==> (#[trigger] children@[i]).ok(),
            StrategyNode::Tuples(children) => forall|i: int|
                0 <= i < children@.len() ==> (#[trigger] children@[i]).ok(),
            StrategyNode::Lists { elem, min, max, .. } => sizes_ok(*min, *max) && elem.ok(),
            StrategyNode::Sets { elem, min, max, .. } => sizes_ok(*min, *max) && elem.ok(),
            StrategyNode::Dictionaries { keys, values, min, max } => sizes_ok(*min, *max)
                && keys.ok() && values.ok(),
            StrategyNode::FixedDict { items } => forall|i: int|
                0 <= i < items@.len() ==> (#[trigger] items@[i]).value.ok(),
            StrategyNode::Text { min, max, .. } => *min <= *max && *min <= u32::MAX,
            StrategyNode::Binary { min, max } => *min <= *max && *min <= u32::MAX,
            StrategyNode::Mapped { base, .. } => base.ok(),
            StrategyNode::Filtered { base, .. } => base.ok(),
            StrategyNode::Flatmapped { base, .. } => base.ok(),
            StrategyNode::Builds { args, kwargs, .. } => {
                &&& forall|i: int| 0 <= i < args@.len() ==> (#[trigger] args@[i]).ok()
                &&& forall|i: int| 0 <= i < kwargs@.len() ==> (#[trigger] kwargs@[i]).node.ok()
            },
            StrategyNode::Dates { min_ord, max_ord } => *min_ord <= *max_ord,
            StrategyNode::Times { min_us, max_us } => *min_us <= *max_us,
            StrategyNode::Datetimes { min_ord, max_ord } => *min_ord <= *max_ord,
            StrategyNode::Timedeltas { min_us, max_us } => min_us@ <= max_us@,
            StrategyNode::IpAddresses { net_range, .. } => net_range is Some ==> (net_range->0).0@
                <= (net_range->0).1@,
            StrategyNode::Slices { size } => *size <= 0x7FFF_FFFF_FFFF_FFFF,
            StrategyNode::Fractions { min, max, max_denom } => ratio_ok(*min) && ratio_ok(*max)
                && *max_denom >= 1,
            StrategyNode::Decimals { min, max, .. } => ratio_ok(*min) && ratio_ok(*max),
            StrategyNode::Functions { result, .. } => result.ok(),
            StrategyNode::Shared { base, .. } => base.ok(),
            _ => true,
        }
    }

    /// Whether the strategy can be drawn from.
    pub fn check(&self) -> (r: bool)
        ensures
            r == self.ok(),
        decreases self,
    {
        match self {
            StrategyNode::Integers { min, max } => match (min, max) {
                (Some(a), Some(b)) => !b.less(a),
                _ => true,
            },
            StrategyNode::Floats { min, max, allow_nan: _, allow_inf, snm: _, width } => {
                let (low, high) = float_effective_bounds(*min, *max, *allow_inf, *width);
                !is_nan(low) && !is_nan(high) && sign_aware_lte(low, high)
            },
            StrategyNode::OneOf(children) => check_all(children),
            StrategyNode::Tuples(children) => check_all(children),
            StrategyNode::Lists { elem, min, max, .. } => *min <= *max
                && elem.check(),
            StrategyNode::Sets { elem, min, max, .. } => *min <= *max
                && elem.check(),
            StrategyNode::Dictionaries { keys, values, min, max } => *min <= *max && keys.check() && values.check(),
            StrategyNode::FixedDict { items } => {
                let mut i: usize = 0;
                while i < items.len()
                    invariant
                        i <= items.len(),
                        self is FixedDict,
                        self->items == *items,
                        forall|k: int| 0 <= k < i ==> (#[trigger] items@[k]).value.ok(),
                    decreases items.len() - i,
                {
                    if !items[i].value.check() {
                        return false;
                    }
                    i = i + 1;
                }
                true
            },
            StrategyNode::Text { min, max, .. } => *min <= *max && *min <= u32::MAX as u64,
            StrategyNode::Binary { min, max } => *min <= *max && *min <= u32::MAX as u64,
            StrategyNode::Mapped { base, .. } => base.check(),
            StrategyNode::Filtered { base, .. } => base.check(),
            StrategyNode::Flatmapped { base, .. } => base.check(),
            StrategyNode::Builds { args, kwargs, .. } => {
                if !check_all(args) {
                    return false;
                }
                let mut i: usize = 0;
                while i < kwargs.len()
                    invariant
                        i <= kwargs.len(),
                        self is Builds,
                        self->Builds_kwargs == *kwargs,
                        self->Builds_args == *args,
                        forall|k: int| 0 <= k < args@.len() ==> (#[trigger] args@[k]).ok(),
                        forall|k: int| 0 <= k < i ==> (#[trigger] kwargs@[k]).node.ok(),
                    decreases kwargs.len() - i,
                {
                    if !kwargs[i].node.check() {
                        return false;
                    }
                    i = i + 1;
                }
                true
            },
            StrategyNode::Dates { min_ord, max_ord } => *min_ord <= *max_ord,
            StrategyNode::Times { min_us, max_us } => *min_us <= *max_us,
            StrategyNode::Datetimes { min_ord, max_ord } => *min_ord <= *max_ord,
            StrategyNode::Timedeltas { min_us, max_us } => !max_us.less(min_us),
            StrategyNode::IpAddresses { v6: _, net_range } => match net_range {
                Some((lo, hi)) => !hi.less(lo),
                None => true,
            },
            StrategyNode::Slices { size } => *size <= 0x7FFF_FFFF_FFFF_FFFF,
            StrategyNode::Fractions { min, max, max_denom } => check_ratio(min) && check_ratio(max)
                && *max_denom >= 1,
            StrategyNode::Decimals { min, max, .. } => check_ratio(min) && check_ratio(max),
            StrategyNode::Functions { result, .. } => result.check(),
            StrategyNode::Shared { base, .. } => base.check(),
            _ => true,
        }
    }
}

fn check_all(children: &Vec<StrategyNode>) -> (r: bool)
    ensures
        r == (forall|i: int| 0 <= i < children@.len() ==> (#[trigger] children@[i]).ok()),
    decreases children,
{
    let mut i: usize = 0;
    while i < children.len()
        invariant
            i <= children.len(),
            forall|k: int| 0 <= k < i ==> (#[trigger] children@[k]).ok(),
        decreases children.len() - i,
    {
        if !children[i].check() {
            return false;
        }
        i = i + 1;
    }
    true
}

} // verus!
