//! Strategies for numbers, samples and lists.
use crate::arguments::{
    all_strategies, check_ordered_sample, check_strategy, collection_sizes, deferred_invalid,
    first_stranger, invalid, invalid_argument, is_strategy, not_a_strategy, push_count,
    push_number, sample_mistake, size_of, sizes_mistake, strat_is_empty, take_strategies, taken,
    ArgumentError, Kind, Sample, SizeArg, StrategyArg,
};
use crate::floats::{
    abs_bits, float_le, float_lt, is_finite, is_finite_bits, is_nan, is_nan_bits, le, lt,
    magnitude_bits, negate, negated_bits, next_above, next_down_strict, next_up_strict, value_key,
    INFINITY, SIGN, SMALLEST_SUBNORMAL,
};
use crate::integer::{decimal, magnitude, Int};
use crate::nodes::{empty_in, Facts};
use crate::ordering::{bound, bounds_ordered};
use crate::strategy::{widest, Atom, Ratio, StrategyNode, COLLECTION_DEFAULT_MAX_SIZE};
use vstd::prelude::*;

verus! {

// ---- integers ---------------------------------------------------------------

/// An argument for the end of a range of integers.
#[derive(Debug)]
pub struct EndPoint {
    /// How the argument is shown.
    pub shown: String,
    /// The name of its type.
    pub of_type: String,
    /// The argument equals itself.
    pub itself: bool,
    /// The integer that the argument is cut off to, if it can be.
    pub truncated: Option<Int>,
    /// Nothing is cut off.
    pub exact: bool,
}

/// What is wrong with an end point.
pub open spec fn end_point_mistake(v: EndPoint, name: Seq<char>) -> Option<Seq<char>> {
    if !v.itself || v.truncated is None {
        Some("Invalid end point "@ + name + "="@ + v.shown@)
    } else if !v.exact {
        Some(
            name + "="@ + v.shown@ + " of type "@ + v.of_type@
                + " cannot be exactly represented as an integer."@,
        )
    } else {
        None
    }
}

/// The integer that an end point stands for.
pub fn coerce_integer_bound(v: &EndPoint, name: &str) -> (r: Result<Int, ArgumentError>)
    ensures
        r is Ok <==> end_point_mistake(*v, name@) is None,
        r is Ok ==> r->Ok_0@ == v.truncated->0@,
        r is Err ==> invalid(r->Err_0, end_point_mistake(*v, name@)->0),
{
    let mut msg = String::new();
    if v.itself {
        if let Some(n) = &v.truncated {
            if v.exact {
                return Ok(n.clone());
            }
            msg.append(name);
            msg.append("=");
            msg.append(v.shown.as_str());
            msg.append(" of type ");
            msg.append(v.of_type.as_str());
            msg.append(" cannot be exactly represented as an integer.");
            assert(msg@ =~= name@ + "="@ + v.shown@ + " of type "@ + v.of_type@
                + " cannot be exactly represented as an integer."@);
            return Err(invalid_argument(msg));
        }
    }
    msg.append("Invalid end point ");
    msg.append(name);
    msg.append("=");
    msg.append(v.shown.as_str());
    assert(msg@ =~= "Invalid end point "@ + name@ + "="@ + v.shown@);
    Err(invalid_argument(msg))
}

/// `r` is the mistake that is said when it is used.
pub open spec fn says(r: StrategyNode, msg: Seq<char>) -> bool {
    r is Invalid && r->Invalid_msg@ == msg && !r->resolution_failed
}

/// Integers between two bounds.
pub fn integers(min_value: Option<Int>, max_value: Option<Int>) -> (r: StrategyNode)
    ensures
        r.ok(),
        bounds_ordered(bound(min_value), bound(max_value)) ==> r == (StrategyNode::Integers {
            min: min_value,
            max: max_value,
        }),
        !bounds_ordered(bound(min_value), bound(max_value)) ==> says(
            r,
            "min_value="@ + decimal(min_value->0@) + " cannot be greater than max_value="@
                + decimal(max_value->0@),
        ),
{
    if let (Some(mn), Some(mx)) = (&min_value, &max_value) {
        if mx.less(mn) {
            let mut msg = String::new();
            msg.append("min_value=");
            push_number(&mut msg, mn);
            msg.append(" cannot be greater than max_value=");
            push_number(&mut msg, mx);
            assert(msg@ =~= "min_value="@ + decimal(mn@) + " cannot be greater than max_value="@
                + decimal(mx@));
            return deferred_invalid(msg);
        }
    }
    StrategyNode::Integers { min: min_value, max: max_value }
}

// ---- floats -----------------------------------------------------------------

/// A bound of floats, as bits, if the argument is a real number.
pub fn coerce_float_bound(bits: Option<u64>, shown: &str, name: &str) -> (r: Result<
    u64,
    ArgumentError,
>)
    ensures
        r is Ok <==> bits is Some,
        r is Ok ==> Some(r->Ok_0) == bits,
        r is Err ==> invalid(r->Err_0, name@ + "="@ + shown@ + " must be a real number."@),
{
    match bits {
        Some(b) => Ok(b),
        None => {
            let mut msg = String::new();
            msg.append(name);
            msg.append("=");
            msg.append(shown);
            msg.append(" must be a real number.");
            assert(msg@ =~= name@ + "="@ + shown@ + " must be a real number."@);
            Err(invalid_argument(msg))
        },
    }
}

/// The arguments of floats; bounds are bits.
#[derive(Clone, Copy, Debug, PartialEq, Eq, Structural)]
pub struct FloatsArgs {
    pub min: Option<u64>,
    pub max: Option<u64>,
    pub allow_nan: Option<bool>,
    pub allow_infinity: Option<bool>,
    pub allow_subnormal: Option<bool>,
    pub width: u32,
    pub exclude_min: bool,
    pub exclude_max: bool,
}

/// What the bounds are among the floats of a narrow width.
#[derive(Clone, Copy, Debug, PartialEq, Eq, Structural)]
pub struct Narrowed {
    /// The bounds, rounded to the width.
    pub min: u64,
    pub max: u64,
    /// The smallest float of the width above the lower bound.
    pub above_min: u64,
    /// The largest float of the width below the upper bound.
    pub below_max: u64,
}

/// What is wrong with the arguments of floats.
#[derive(Clone, Copy, Debug, PartialEq, Eq, Structural)]
pub enum FloatsError {
    /// A bound is infinite once rounded to the width. Reported at once.
    OutOfRange { width: u32 },
    Width { width: u32 },
    MinIsNan,
    MaxIsNan,
    MinNotExact { value: u64, nearest: u64, width: u32 },
    MaxNotExact { value: u64, nearest: u64, width: u32 },
    NanWithBounds,
    CannotExcludeMin { given: Option<u64> },
    CannotExcludeMax { given: Option<u64> },
    NothingBetween { min: u64, max: u64, width: u32, exclude_min: bool, exclude_max: bool },
    InfinityWithBounds,
    InfinityExcludesMin,
    InfinityExcludesMax,
    ExcludingMinIsInfinite { value: u64 },
    ExcludingMaxIsInfinite { value: u64 },
    SubnormalsBelowMin { value: u64, width: u32 },
    SubnormalsAboveMax { value: u64, width: u32 },
}

/// The bits of the smallest normal number of a width.
pub open spec fn least_normal(width: u32) -> u64 {
    if width == 16 {
        0x3F10_0000_0000_0000u64
    } else if width == 32 {
        0x3810_0000_0000_0000u64
    } else {
        0x0010_0000_0000_0000u64
    }
}

fn smallest_normal_of(width: u32) -> (r: u64)
    ensures
        r == least_normal(width),
{
    if width == 16 {
        0x3F10_0000_0000_0000u64
    } else if width == 32 {
        0x3810_0000_0000_0000u64
    } else {
        0x0010_0000_0000_0000u64
    }
}

/// Two floats are numerically equal.
pub open spec fn float_same(a: u64, b: u64) -> bool {
    !is_nan_bits(a) && !is_nan_bits(b) && value_key(a) == value_key(b)
}

fn same(a: u64, b: u64) -> (r: bool)
    ensures
        r == float_same(a, b),
{
    le(a, b) && le(b, a)
}

/// A finite bound is infinite at the width.
pub open spec fn rounds_away(v: Option<u64>, rounded: u64, width: u32) -> bool {
    (width == 16 || width == 32) && v is Some && is_finite_bits(v->0) && magnitude_bits(rounded)
        == INFINITY
}

/// A bound is another number at the width.
pub open spec fn inexact(v: Option<u64>, rounded: u64, width: u32) -> bool {
    width != 64 && v is Some && is_finite_bits(rounded) && !float_same(rounded, v->0)
}

/// The lower bound that remains: moved if it is excluded, and none if everything is
/// above it.
pub open spec fn moved_min(a: FloatsArgs, n: Narrowed) -> Option<u64> {
    let moved = if !a.exclude_min {
        a.min
    } else if a.width == 64 {
        Some(next_above(a.min->0))
    } else {
        Some(n.above_min)
    };
    if moved == Some((SIGN + INFINITY) as u64) {
        None
    } else {
        moved
    }
}

/// The upper bound that remains.
pub open spec fn moved_max(a: FloatsArgs, n: Narrowed) -> Option<u64> {
    let moved = if !a.exclude_max {
        a.max
    } else if a.width == 64 {
        Some(negated_bits(next_above(negated_bits(a.max->0))))
    } else {
        Some(n.below_max)
    };
    if moved == Some(INFINITY) {
        None
    } else {
        moved
    }
}

/// No float lies between the bounds; zero is not below minus zero.
pub open spec fn float_bounds_crossed(min: Option<u64>, max: Option<u64>) -> bool {
    &&& min is Some && max is Some
    &&& {
        ||| float_lt(max->0, min->0)
        ||| min->0 == 0 && max->0 == SIGN
    }
}

/// Whether subnormal numbers are allowed where nothing is said of it: they are if
/// there are any between the bounds.
pub open spec fn subnormal_default(min: Option<u64>, max: Option<u64>, width: u32) -> bool {
    let least = least_normal(width);
    match (min, max) {
        (Some(mn), Some(mx)) => if float_same(mn, mx) {
            float_lt(negated_bits(least), mn) && float_lt(mn, least)
        } else {
            float_lt(mn, least) && float_lt(negated_bits(least), mx)
        },
        (Some(mn), None) => float_lt(mn, least),
        (None, Some(mx)) => float_lt(negated_bits(least), mx),
        (None, None) => true,
    }
}

/// The first rule about the bounds as they are given that the arguments break.
pub open spec fn bounds_mistake(a: FloatsArgs, n: Narrowed) -> Option<FloatsError> {
    if rounds_away(a.min, n.min, a.width) || rounds_away(a.max, n.max, a.width) {
        Some(FloatsError::OutOfRange { width: a.width })
    } else if a.width != 16 && a.width != 32 && a.width != 64 {
        Some(FloatsError::Width { width: a.width })
    } else if a.min is Some && is_nan_bits(a.min->0) {
        Some(FloatsError::MinIsNan)
    } else if a.max is Some && is_nan_bits(a.max->0) {
        Some(FloatsError::MaxIsNan)
    } else if inexact(a.min, n.min, a.width) {
        Some(FloatsError::MinNotExact { value: a.min->0, nearest: n.min, width: a.width })
    } else if inexact(a.max, n.max, a.width) {
        Some(FloatsError::MaxNotExact { value: a.max->0, nearest: n.max, width: a.width })
    } else if a.allow_nan == Some(true) && (a.min is Some || a.max is Some) {
        Some(FloatsError::NanWithBounds)
    } else if a.exclude_min && (a.min is None || a.min == Some(INFINITY)) {
        Some(FloatsError::CannotExcludeMin { given: a.min })
    } else if a.exclude_max && (a.max is None || a.max == Some((SIGN + INFINITY) as u64)) {
        Some(FloatsError::CannotExcludeMax { given: a.max })
    } else {
        None
    }
}

/// Whether subnormal numbers are allowed.
pub open spec fn subnormals(a: FloatsArgs, n: Narrowed) -> bool {
    match a.allow_subnormal {
        Some(b) => b,
        None => subnormal_default(moved_min(a, n), moved_max(a, n), a.width),
    }
}

/// The first rule about the bounds that remain that the arguments break.
pub open spec fn range_mistake(a: FloatsArgs, n: Narrowed) -> Option<FloatsError> {
    let min = moved_min(a, n);
    let max = moved_max(a, n);
    let least = least_normal(a.width);
    if float_bounds_crossed(min, max) {
        Some(
            FloatsError::NothingBetween {
                min: a.min->0,
                max: a.max->0,
                width: a.width,
                exclude_min: a.exclude_min,
                exclude_max: a.exclude_max,
            },
        )
    } else if a.allow_infinity == Some(true) && min is Some && max is Some {
        Some(FloatsError::InfinityWithBounds)
    } else if a.allow_infinity == Some(false) && min == Some(INFINITY) {
        if a.min == Some(INFINITY) {
            Some(FloatsError::InfinityExcludesMin)
        } else {
            Some(FloatsError::ExcludingMinIsInfinite { value: a.min->0 })
        }
    } else if a.allow_infinity == Some(false) && max == Some((SIGN + INFINITY) as u64) {
        if a.max == Some((SIGN + INFINITY) as u64) {
            Some(FloatsError::InfinityExcludesMax)
        } else {
            Some(FloatsError::ExcludingMaxIsInfinite { value: a.max->0 })
        }
    } else if subnormals(a, n) && min is Some && float_le(least, min->0) {
        Some(FloatsError::SubnormalsBelowMin { value: min->0, width: a.width })
    } else if subnormals(a, n) && max is Some && float_le(max->0, negated_bits(least)) {
        Some(FloatsError::SubnormalsAboveMax { value: max->0, width: a.width })
    } else {
        None
    }
}

/// What is wrong with the arguments of floats: the first rule that they break.
pub open spec fn floats_mistake(a: FloatsArgs, n: Narrowed) -> Option<FloatsError> {
    match bounds_mistake(a, n) {
        Some(e) => Some(e),
        None => range_mistake(a, n),
    }
}

/// The floats that the arguments stand for.
pub open spec fn floats_node(a: FloatsArgs, n: Narrowed) -> StrategyNode {
    let min = moved_min(a, n);
    let max = moved_max(a, n);
    StrategyNode::Floats {
        min: if min is Some {
            min->0
        } else {
            (SIGN + INFINITY) as u64
        },
        max: if max is Some {
            max->0
        } else {
            INFINITY
        },
        allow_nan: match a.allow_nan {
            Some(b) => b,
            None => a.min is None && a.max is None,
        },
        allow_inf: match a.allow_infinity {
            Some(b) => b,
            None => min is None || max is None,
        },
        snm: if subnormals(a, n) {
            SMALLEST_SUBNORMAL
        } else {
            least_normal(a.width)
        },
        width: a.width,
    }
}

fn check_bounds(a: &FloatsArgs, n: &Narrowed) -> (r: Option<FloatsError>)
    ensures
        r == bounds_mistake(*a, *n),
{
    let narrow = a.width == 16 || a.width == 32;
    if let Some(v) = a.min {
        if narrow && is_finite(v) && abs_bits(n.min) == INFINITY {
            return Some(FloatsError::OutOfRange { width: a.width });
        }
    }
    if let Some(v) = a.max {
        if narrow && is_finite(v) && abs_bits(n.max) == INFINITY {
            return Some(FloatsError::OutOfRange { width: a.width });
        }
    }
    if a.width != 16 && a.width != 32 && a.width != 64 {
        return Some(FloatsError::Width { width: a.width });
    }
    if let Some(v) = a.min {
        if is_nan(v) {
            return Some(FloatsError::MinIsNan);
        }
    }
    if let Some(v) = a.max {
        if is_nan(v) {
            return Some(FloatsError::MaxIsNan);
        }
    }
    if a.width != 64 {
        if let Some(v) = a.min {
            if is_finite(n.min) && !same(n.min, v) {
                return Some(
                    FloatsError::MinNotExact { value: v, nearest: n.min, width: a.width },
                );
            }
        }
        if let Some(v) = a.max {
            if is_finite(n.max) && !same(n.max, v) {
                return Some(
                    FloatsError::MaxNotExact { value: v, nearest: n.max, width: a.width },
                );
            }
        }
    }
    if a.allow_nan == Some(true) && (a.min.is_some() || a.max.is_some()) {
        return Some(FloatsError::NanWithBounds);
    }
    if a.exclude_min && (a.min.is_none() || a.min == Some(INFINITY)) {
        return Some(FloatsError::CannotExcludeMin { given: a.min });
    }
    let minus_inf: u64 = SIGN + INFINITY;
    if a.exclude_max && (a.max.is_none() || a.max == Some(minus_inf)) {
        return Some(FloatsError::CannotExcludeMax { given: a.max });
    }
    None
}

fn move_min(a: &FloatsArgs, n: &Narrowed) -> (r: Option<u64>)
    requires
        bounds_mistake(*a, *n) is None,
    ensures
        r == moved_min(*a, *n),
{
    let moved = match a.min {
        Some(v) if a.exclude_min => if a.width == 64 {
            Some(next_up_strict(v))
        } else {
            Some(n.above_min)
        },
        other => other,
    };
    let minus_inf: u64 = SIGN + INFINITY;
    if moved == Some(minus_inf) {
        None
    } else {
        moved
    }
}

fn move_max(a: &FloatsArgs, n: &Narrowed) -> (r: Option<u64>)
    requires
        bounds_mistake(*a, *n) is None,
    ensures
        r == moved_max(*a, *n),
{
    let moved = match a.max {
        Some(v) if a.exclude_max => if a.width == 64 {
            Some(next_down_strict(v))
        } else {
            Some(n.below_max)
        },
        other => other,
    };
    if moved == Some(INFINITY) {
        None
    } else {
        moved
    }
}

fn decide_subnormals(a: &FloatsArgs, min: Option<u64>, max: Option<u64>) -> (r: bool)
    ensures
        r == (match a.allow_subnormal {
            Some(b) => b,
            None => subnormal_default(min, max, a.width),
        }),
{
    let least: u64 = smallest_normal_of(a.width);
    match a.allow_subnormal {
        Some(b) => b,
        None => match (min, max) {
            (Some(mn), Some(mx)) => if same(mn, mx) {
                lt(negate(least), mn) && lt(mn, least)
            } else {
                lt(mn, least) && lt(negate(least), mx)
            },
            (Some(mn), None) => lt(mn, least),
            (None, Some(mx)) => lt(negate(least), mx),
            (None, None) => true,
        },
    }
}

/// The floats that the arguments stand for, or what is wrong with them.
pub fn floats_params(a: &FloatsArgs, n: &Narrowed) -> (r: Result<StrategyNode, FloatsError>)
    ensures
        r is Err <==> floats_mistake(*a, *n) is Some,
        r is Err ==> Some(r->Err_0) == floats_mistake(*a, *n),
        r is Ok ==> r->Ok_0 == floats_node(*a, *n),
{
    if let Some(e) = check_bounds(a, n) {
        return Err(e);
    }
    let min = move_min(a, n);
    let max = move_max(a, n);
    let minus_inf: u64 = SIGN + INFINITY;
    if let (Some(mn), Some(mx)) = (min, max) {
        if lt(mx, mn) || (mn == 0 && mx == SIGN) {
            proof {
                assert(a.min is Some && a.max is Some);
            }
            if let (Some(x), Some(y)) = (a.min, a.max) {
                return Err(
                    FloatsError::NothingBetween {
                        min: x,
                        max: y,
                        width: a.width,
                        exclude_min: a.exclude_min,
                        exclude_max: a.exclude_max,
                    },
                );
            }
        }
        if a.allow_infinity == Some(true) {
            return Err(FloatsError::InfinityWithBounds);
        }
    }
    if a.allow_infinity == Some(false) {
        if min == Some(INFINITY) {
            if a.min == Some(INFINITY) {
                return Err(FloatsError::InfinityExcludesMin);
            }
            if let Some(x) = a.min {
                return Err(FloatsError::ExcludingMinIsInfinite { value: x });
            }
        }
        if max == Some(minus_inf) {
            if a.max == Some(minus_inf) {
                return Err(FloatsError::InfinityExcludesMax);
            }
            if let Some(x) = a.max {
                return Err(FloatsError::ExcludingMaxIsInfinite { value: x });
            }
        }
    }
    let least: u64 = smallest_normal_of(a.width);
    let subnormal = decide_subnormals(a, min, max);
    if subnormal {
        if let Some(mn) = min {
            if le(least, mn) {
                return Err(FloatsError::SubnormalsBelowMin { value: mn, width: a.width });
            }
        }
        if let Some(mx) = max {
            if le(mx, negate(least)) {
                return Err(FloatsError::SubnormalsAboveMax { value: mx, width: a.width });
            }
        }
    }
    Ok(
        StrategyNode::Floats {
            min: match min {
                Some(v) => v,
                None => minus_inf,
            },
            max: match max {
                Some(v) => v,
                None => INFINITY,
            },
            allow_nan: match a.allow_nan {
                Some(b) => b,
                None => a.min.is_none() && a.max.is_none(),
            },
            allow_inf: match a.allow_infinity {
                Some(b) => b,
                None => min.is_none() || max.is_none(),
            },
            snm: if subnormal {
                SMALLEST_SUBNORMAL
            } else {
                least
            },
            width: a.width,
        },
    )
}

/// A float of a width: not beyond the largest finite one, or infinite.
pub open spec fn of_width(b: u64, width: u32) -> bool {
    magnitude_bits(b) <= widest(width) || magnitude_bits(b) == INFINITY
}

/// Floats whose arguments break no rule can be drawn, if the bounds were rounded to
/// floats of the width.
pub proof fn accepted_floats_can_be_drawn(a: FloatsArgs, n: Narrowed)
    requires
        floats_mistake(a, n) is None,
        a.width != 64 ==> of_width(n.min, a.width) && of_width(n.max, a.width) && of_width(
            n.above_min,
            a.width,
        ) && of_width(n.below_max, a.width),
    ensures
        floats_node(a, n).ok(),
{
}

impl FloatsError {
    /// What is said of a mistake. `first` and `second` show the floats that it tells of,
    /// in their order; where subnormals are missed, `second` shows the normal number
    /// closest to zero.
    pub open spec fn text(self, first: Seq<char>, second: Seq<char>) -> Seq<char> {
        match self {
            FloatsError::OutOfRange { width } =>
                "min_value/max_value out of range for a float of width "@ + decimal(width as int),
            FloatsError::Width { width } => "Got width="@ + decimal(width as int)
                + ", but the only valid values are the integers 16, 32, and 64."@,
            FloatsError::MinIsNan => "min_value=nan is not a valid float bound (cannot be NaN)"@,
            FloatsError::MaxIsNan => "max_value=nan is not a valid float bound (cannot be NaN)"@,
            FloatsError::MinNotExact { width, .. } => "min_value="@ + first
                + " cannot be exactly represented as a float of width "@ + decimal(width as int)
                + " - use min_value="@ + second + " instead."@,
            FloatsError::MaxNotExact { width, .. } => "max_value="@ + first
                + " cannot be exactly represented as a float of width "@ + decimal(width as int)
                + " - use max_value="@ + second + " instead."@,
            FloatsError::NanWithBounds =>
                "Cannot have allow_nan=True, with min_value or max_value"@,
            FloatsError::CannotExcludeMin { .. } => "Cannot exclude min_value="@ + first,
            FloatsError::CannotExcludeMax { .. } => "Cannot exclude max_value="@ + first,
            FloatsError::NothingBetween { width, exclude_min, exclude_max, .. } => {
                let start = "There are no "@ + decimal(width as int)
                    + "-bit floating-point values between min_value="@ + first + " and max_value="@
                    + second;
                if exclude_min || exclude_max {
                    start + ", exclude_min="@ + flag_text(exclude_min) + " and exclude_max="@
                        + flag_text(exclude_max)
                } else {
                    start
                }
            },
            FloatsError::InfinityWithBounds =>
                "Cannot have allow_infinity=True, with both min_value and max_value"@,
            FloatsError::InfinityExcludesMin => "allow_infinity=False excludes min_value=inf"@,
            FloatsError::InfinityExcludesMax => "allow_infinity=False excludes max_value=-inf"@,
            FloatsError::ExcludingMinIsInfinite { .. } => "exclude_min=True turns min_value="@
                + first + " into inf, but allow_infinity=False"@,
            FloatsError::ExcludingMaxIsInfinite { .. } => "exclude_max=True turns max_value="@
                + first + " into -inf, but allow_infinity=False"@,
            FloatsError::SubnormalsBelowMin { width, .. } =>
                "allow_subnormal=True, but minimum value "@ + first
                + " excludes values below float"@ + decimal(width as int)
                + "'s smallest positive normal "@ + second,
            FloatsError::SubnormalsAboveMax { width, .. } =>
                "allow_subnormal=True, but maximum value "@ + first
                + " excludes values above float"@ + decimal(width as int)
                + "'s smallest negative normal "@ + second,
        }
    }

    /// The floats that a mistake tells of, in their order.
    pub open spec fn told(self) -> (Option<u64>, Option<u64>) {
        match self {
            FloatsError::MinNotExact { value, nearest, .. } => (Some(value), Some(nearest)),
            FloatsError::MaxNotExact { value, nearest, .. } => (Some(value), Some(nearest)),
            FloatsError::CannotExcludeMin { given } => (given, None),
            FloatsError::CannotExcludeMax { given } => (given, None),
            FloatsError::NothingBetween { min, max, .. } => (Some(min), Some(max)),
            FloatsError::ExcludingMinIsInfinite { value } => (Some(value), None),
            FloatsError::ExcludingMaxIsInfinite { value } => (Some(value), None),
            FloatsError::SubnormalsBelowMin { value, width } => (
                Some(value),
                Some(least_normal(width)),
            ),
            FloatsError::SubnormalsAboveMax { value, width } => (
                Some(value),
                Some(negated_bits(least_normal(width))),
            ),
            _ => (None, None),
        }
    }

    pub fn numbers(self) -> (r: (Option<u64>, Option<u64>))
        ensures
            r == self.told(),
    {
        match self {
            FloatsError::MinNotExact { value, nearest, .. } => (Some(value), Some(nearest)),
            FloatsError::MaxNotExact { value, nearest, .. } => (Some(value), Some(nearest)),
            FloatsError::CannotExcludeMin { given } => (given, None),
            FloatsError::CannotExcludeMax { given } => (given, None),
            FloatsError::NothingBetween { min, max, .. } => (Some(min), Some(max)),
            FloatsError::ExcludingMinIsInfinite { value } => (Some(value), None),
            FloatsError::ExcludingMaxIsInfinite { value } => (Some(value), None),
            FloatsError::SubnormalsBelowMin { value, width } => (
                Some(value),
                Some(smallest_normal_of(width)),
            ),
            FloatsError::SubnormalsAboveMax { value, width } => (
                Some(value),
                Some(negate(smallest_normal_of(width))),
            ),
            _ => (None, None),
        }
    }

    pub fn message(self, first: &str, second: &str) -> (r: String)
        ensures
            r@ == self.text(first@, second@),
    {
        let mut m = String::new();
        match self {
            FloatsError::OutOfRange { width } => {
                m.append("min_value/max_value out of range for a float of width ");
                push_count(&mut m, width as u64);
            },
            FloatsError::Width { width } => {
                m.append("Got width=");
                push_count(&mut m, width as u64);
                m.append(", but the only valid values are the integers 16, 32, and 64.");
            },
            FloatsError::MinIsNan => m.append(
                "min_value=nan is not a valid float bound (cannot be NaN)",
            ),
            FloatsError::MaxIsNan => m.append(
                "max_value=nan is not a valid float bound (cannot be NaN)",
            ),
            FloatsError::MinNotExact { width, .. } => {
                m.append("min_value=");
                m.append(first);
                m.append(" cannot be exactly represented as a float of width ");
                push_count(&mut m, width as u64);
                m.append(" - use min_value=");
                m.append(second);
                m.append(" instead.");
            },
            FloatsError::MaxNotExact { width, .. } => {
                m.append("max_value=");
                m.append(first);
                m.append(" cannot be exactly represented as a float of width ");
                push_count(&mut m, width as u64);
                m.append(" - use max_value=");
                m.append(second);
                m.append(" instead.");
            },
            FloatsError::NanWithBounds => m.append(
                "Cannot have allow_nan=True, with min_value or max_value",
            ),
            FloatsError::CannotExcludeMin { .. } => {
                m.append("Cannot exclude min_value=");
                m.append(first);
            },
            FloatsError::CannotExcludeMax { .. } => {
                m.append("Cannot exclude max_value=");
                m.append(first);
            },
            FloatsError::NothingBetween { width, exclude_min, exclude_max, .. } => {
                m.append("There are no ");
                push_count(&mut m, width as u64);
                m.append("-bit floating-point values between min_value=");
                m.append(first);
                m.append(" and max_value=");
                m.append(second);
                if exclude_min || exclude_max {
                    m.append(", exclude_min=");
                    m.append(flag_name(exclude_min));
                    m.append(" and exclude_max=");
                    m.append(flag_name(exclude_max));
                }
            },
            FloatsError::InfinityWithBounds => m.append(
                "Cannot have allow_infinity=True, with both min_value and max_value",
            ),
            FloatsError::InfinityExcludesMin => m.append(
                "allow_infinity=False excludes min_value=inf",
            ),
            FloatsError::InfinityExcludesMax => m.append(
                "allow_infinity=False excludes max_value=-inf",
            ),
            FloatsError::ExcludingMinIsInfinite { .. } => {
                m.append("exclude_min=True turns min_value=");
                m.append(first);
                m.append(" into inf, but allow_infinity=False");
            },
            FloatsError::ExcludingMaxIsInfinite { .. } => {
                m.append("exclude_max=True turns max_value=");
                m.append(first);
                m.append(" into -inf, but allow_infinity=False");
            },
            FloatsError::SubnormalsBelowMin { width, .. } => {
                m.append("allow_subnormal=True, but minimum value ");
                m.append(first);
                m.append(" excludes values below float");
                push_count(&mut m, width as u64);
                m.append("'s smallest positive normal ");
                m.append(second);
            },
            FloatsError::SubnormalsAboveMax { width, .. } => {
                m.append("allow_subnormal=True, but maximum value ");
                m.append(first);
                m.append(" excludes values above float");
                push_count(&mut m, width as u64);
                m.append("'s smallest negative normal ");
                m.append(second);
            },
        }
        assert(m@ =~= self.text(first@, second@));
        m
    }
}

/// A truth value as it is shown.
pub open spec fn flag_text(b: bool) -> Seq<char> {
    if b {
        "True"@
    } else {
        "False"@
    }
}

pub fn flag_name(b: bool) -> (r: &'static str)
    ensures
        r@ == flag_text(b),
{
    if b {
        "True"
    } else {
        "False"
    }
}

// ---- samples and choices among strategies -----------------------------------

/// `v` comes before `stop` for someone who counts in steps.
pub open spec fn before(v: int, stop: int, step: int) -> bool {
    (step > 0 && v < stop) || (step < 0 && v > stop)
}

proof fn quotient_counts(d: int, s: int, k: int)
    requires
        d >= 0,
        s > 0,
        k >= 0,
    ensures
        k <= d / s <==> k * s <= d,
{
    let q = d / s;
    let rest = d % s;
    vstd::arithmetic::div_mod::lemma_fundamental_div_mod(d, s);
    assert(d == s * q + rest && 0 <= rest < s);
    if k <= q {
        assert(k * s <= q * s) by (nonlinear_arith)
            requires
                k <= q,
                s > 0,
        ;
        assert(q * s == s * q) by (nonlinear_arith);
    } else {
        assert(k * s >= (q + 1) * s) by (nonlinear_arith)
            requires
                k >= q + 1,
                s > 0,
        ;
        assert((q + 1) * s == s * q + s) by (nonlinear_arith);
    }
}

/// How many steps an arithmetic progression has before it is at its end.
pub fn range_len(start: &Int, stop: &Int, step: &Int) -> (r: Int)
    ensures
        r@ >= 0,
        forall|k: int|
            k >= 0 ==> (k < r@ <==> #[trigger] before(start@ + k * step@, stop@, step@)),
{
    let zero = Int::of(0);
    let one = Int::of(1);
    if zero.less(step) && start.less(stop) {
        let span = stop.minus(start).minus(&one);
        let r = span.div_floor(step).plus(&one);
        proof {
            let (d, s) = (span@, step@);
            assert(d / s >= 0) by (nonlinear_arith)
                requires
                    d >= 0,
                    s > 0,
            ;
            assert forall|k: int| k >= 0 implies (k < r@ <==> #[trigger] before(
                start@ + k * step@,
                stop@,
                step@,
            )) by {
                quotient_counts(d, s, k);
            }
        }
        return r;
    }
    if step.less(&zero) && stop.less(start) {
        let span = start.minus(stop).minus(&one);
        let back = zero.minus(step);
        let r = span.div_floor(&back).plus(&one);
        proof {
            let (d, s) = (span@, back@);
            assert(d / s >= 0) by (nonlinear_arith)
                requires
                    d >= 0,
                    s > 0,
            ;
            assert forall|k: int| k >= 0 implies (k < r@ <==> #[trigger] before(
                start@ + k * step@,
                stop@,
                step@,
            )) by {
                quotient_counts(d, s, k);
                assert(k * s == -(k * step@)) by (nonlinear_arith)
                    requires
                        s == -step@,
                ;
            }
        }
        return r;
    }
    proof {
        assert forall|k: int| k >= 0 implies !#[trigger] before(
            start@ + k * step@,
            stop@,
            step@,
        ) by {
            if step@ > 0 {
                assert(k * step@ >= 0) by (nonlinear_arith)
                    requires
                        k >= 0,
                        step@ > 0,
                ;
            } else if step@ < 0 {
                assert(k * step@ <= 0) by (nonlinear_arith)
                    requires
                        k >= 0,
                        step@ < 0,
                ;
            }
        }
    }
    zero
}

/// What a sample is taken from.
#[derive(Debug)]
pub struct SampleSource {
    pub sample: Sample,
    /// How the source is shown.
    pub shown: String,
    /// The start, stop, step and length of an arithmetic progression.
    pub range: Option<(Int, Int, Int, Int)>,
    pub elements: Vec<Atom>,
    pub is_tuple: bool,
    /// The only value of an enumeration of flags that lists none.
    pub zero_flag: Option<Atom>,
    /// The full name of an enumeration that has annotations.
    pub annotated: Option<String>,
}

/// `r` is the strategy that takes a sample.
pub open spec fn sampled_strategy(r: StrategyNode, s: SampleSource) -> bool {
    if s.range is Some {
        r == (StrategyNode::SampledFromRange {
            start: (s.range->0).0,
            stop: (s.range->0).1,
            step: (s.range->0).2,
            len: (s.range->0).3,
        })
    } else if s.elements@.len() > 0 {
        r == (StrategyNode::SampledFrom { elements: s.elements, is_tuple: s.is_tuple })
    } else if s.zero_flag is Some {
        r is SampledFrom && r->elements@ == seq![s.zero_flag->0] && !r->is_tuple
    } else if s.annotated is Some {
        says(
            r,
            "Cannot sample from "@ + s.annotated->0@
                + " because it contains no elements.  It does however have annotations, so maybe you tried to write an enum as if it was a dataclass?"@,
        )
    } else {
        says(r, "Cannot sample from a length-zero sequence."@)
    }
}

/// A value out of a sample.
pub fn sampled_from(s: SampleSource) -> (r: Result<StrategyNode, ArgumentError>)
    ensures
        r is Ok <==> sample_mistake(s.sample, s.shown@, "sampled_from"@) is None,
        r is Ok ==> sampled_strategy(r->Ok_0, s) && r->Ok_0.ok(),
        r is Err ==> invalid(
            r->Err_0,
            sample_mistake(s.sample, s.shown@, "sampled_from"@)->0,
        ),
{
    match check_ordered_sample(s.sample, s.shown.as_str(), "sampled_from") {
        Ok(_) => {},
        Err(e) => {
            return Err(e);
        },
    }
    if let Some((start, stop, step, len)) = s.range {
        return Ok(StrategyNode::SampledFromRange { start, stop, step, len });
    }
    if s.elements.len() > 0 {
        return Ok(StrategyNode::SampledFrom { elements: s.elements, is_tuple: s.is_tuple });
    }
    if let Some(zero) = s.zero_flag {
        let mut elements: Vec<Atom> = Vec::new();
        elements.push(zero);
        assert(elements@ =~= seq![zero]);
        return Ok(StrategyNode::SampledFrom { elements, is_tuple: false });
    }
    let mut msg = String::new();
    if let Some(name) = &s.annotated {
        msg.append("Cannot sample from ");
        msg.append(name.as_str());
        msg.append(
            " because it contains no elements.  It does however have annotations, so maybe you tried to write an enum as if it was a dataclass?",
        );
        assert(msg@ =~= "Cannot sample from "@ + name@
            + " because it contains no elements.  It does however have annotations, so maybe you tried to write an enum as if it was a dataclass?"@);
        return Ok(deferred_invalid(msg));
    }
    msg.append("Cannot sample from a length-zero sequence.");
    assert(msg@ =~= "Cannot sample from a length-zero sequence."@);
    Ok(deferred_invalid(msg))
}

/// Whether a single argument stands for the strategies in it.
pub fn unpacks(count: u64, native: bool, iterable: bool) -> (r: bool)
    ensures
        r == (count == 1 && !native && iterable),
{
    count == 1 && !native && iterable
}

/// There are arguments, and none of them is a strategy.
pub open spec fn only_strangers(args: Seq<StrategyArg>) -> bool {
    args.len() > 0 && forall|i: int| 0 <= i < args.len() ==> !((#[trigger] args[i]) is Strategy)
}

/// One of several strategies. `shown` shows the list of the arguments.
pub fn one_of(args: Vec<StrategyArg>, shown: &str) -> (r: Result<StrategyNode, ArgumentError>)
    ensures
        r is Ok <==> all_strategies(args@),
        r is Ok && args@.len() == 1 ==> r->Ok_0 == args@[0]->Strategy_0,
        r is Ok && args@.len() != 1 ==> r->Ok_0 is OneOf && taken(r->Ok_0->OneOf_0@, args@),
        only_strangers(args@) ==> r is Err && invalid(
            r->Err_0,
            "Did you mean st.sampled_from("@ + shown@ + ")?"@,
        ),
        r is Err && !only_strangers(args@) ==> exists|k: int| #[trigger]
            first_stranger(args@, k) && invalid(r->Err_0, not_a_strategy(args@[k], ""@)),
{
    let mut strategies = args.len() == 0;
    let mut i: usize = 0;
    while i < args.len()
        invariant
            i <= args.len(),
            strategies <==> (args@.len() == 0 || exists|k: int|
                0 <= k < i && (#[trigger] args@[k]) is Strategy),
        decreases args.len() - i,
    {
        if is_strategy(&args[i]) {
            strategies = true;
        }
        i = i + 1;
    }
    if !strategies {
        let mut msg = String::new();
        msg.append("Did you mean st.sampled_from(");
        msg.append(shown);
        msg.append(")?");
        assert(msg@ =~= "Did you mean st.sampled_from("@ + shown@ + ")?"@);
        assert(!(args@[0] is Strategy));
        return Err(invalid_argument(msg));
    }
    let ghost all = args@;
    proof {
        if args@.len() > 0 {
            let k = choose|k: int| 0 <= k < i && (#[trigger] args@[k]) is Strategy;
            assert(!only_strangers(args@));
        }
    }
    let mut nodes = match take_strategies(args, "") {
        Ok(n) => n,
        Err(e) => {
            return Err(e);
        },
    };
    if nodes.len() == 1 {
        let ghost before = nodes@;
        if let Some(node) = nodes.pop() {
            assert(node == before[0]);
            return Ok(node);
        }
    }
    Ok(StrategyNode::OneOf(nodes))
}

/// Several values at once.
pub fn tuples(args: Vec<StrategyArg>) -> (r: Result<StrategyNode, ArgumentError>)
    ensures
        r is Ok <==> all_strategies(args@),
        r is Ok ==> r->Ok_0 is Tuples && taken(r->Ok_0->Tuples_0@, args@),
        r is Err ==> exists|k: int| #[trigger]
            first_stranger(args@, k) && invalid(
                r->Err_0,
                not_a_strategy(args@[k], "tuples() argument="@),
            ),
{
    match take_strategies(args, "tuples() argument=") {
        Ok(n) => Ok(StrategyNode::Tuples(n)),
        Err(e) => Err(e),
    }
}

// ---- lists ------------------------------------------------------------------

/// The number at a place of a domain of integers, ordered by absolute value; of two
/// numbers of the same absolute value the positive one comes first.
pub open spec fn domain_at(a: int, b: int, k: int) -> int {
    if a > 0 {
        a + k
    } else if b < 0 {
        b - k
    } else {
        let near = if -a < b {
            -a
        } else {
            b
        };
        if k > 2 * near {
            if near < b {
                k - near
            } else {
                near - k
            }
        } else if k % 2 == 1 {
            (k + 1) / 2
        } else {
            -(k / 2)
        }
    }
}

/// How many integers lie between two bounds.
pub open spec fn domain_len(a: int, b: int) -> int {
    if a <= b {
        b - a + 1
    } else {
        0
    }
}

/// The integers between two bounds, ordered by absolute value.
pub fn ordered_int_domain(a: &Int, b: &Int) -> (r: Vec<Int>)
    requires
        b@ - a@ < usize::MAX,
    ensures
        r@.len() == domain_len(a@, b@),
        forall|k: int| 0 <= k < r@.len() ==> (#[trigger] r@[k])@ == domain_at(a@, b@, k),
        forall|j: int, k: int|
            0 <= j < k < r@.len() ==> magnitude((#[trigger] r@[j])@) <= magnitude(
                (#[trigger] r@[k])@,
            ),
{
    let zero = Int::of(0);
    let one = Int::of(1);
    let mut out: Vec<Int> = Vec::new();
    if b.less(a) {
        return out;
    }
    if zero.less(a) {
        let mut v = a.clone();
        while !b.less(&v)
            invariant
                one@ == 1,
                0 < a@ <= b@,
                v@ == a@ + out@.len(),
                v@ <= b@ + 1,
                forall|k: int|
                    0 <= k < out@.len() ==> (#[trigger] out@[k])@ == domain_at(a@, b@, k),
            decreases b@ + 1 - v@,
        {
            out.push(v.clone());
            v = v.plus(&one);
        }
    } else if b.less(&zero) {
        let mut v = b.clone();
        while !v.less(a)
            invariant
                one@ == 1,
                a@ <= b@ < 0,
                v@ == b@ - out@.len(),
                v@ >= a@ - 1,
                forall|k: int|
                    0 <= k < out@.len() ==> (#[trigger] out@[k])@ == domain_at(a@, b@, k),
            decreases v@ + 1 - a@,
        {
            out.push(v.clone());
            v = v.minus(&one);
        }
    } else {
        out.push(zero);
        let mut v = Int::of(1);
        let mut w = Int::of(-1);
        while !b.less(&v) || !w.less(a)
            invariant
                one@ == 1,
                a@ <= 0 <= b@,
                v@ >= 1,
                w@ == -v@,
                out@.len() == 1 + (if v@ - 1 < b@ {
                    v@ - 1
                } else {
                    b@
                }) + (if v@ - 1 < -a@ {
                    v@ - 1
                } else {
                    -a@
                }),
                forall|k: int|
                    0 <= k < out@.len() ==> (#[trigger] out@[k])@ == domain_at(a@, b@, k),
            decreases (if b@ < -a@ {
                -a@
            } else {
                b@
            }) + 1 - v@,
        {
            if !b.less(&v) {
                out.push(v.clone());
            }
            if !w.less(a) {
                out.push(w.clone());
            }
            v = v.plus(&one);
            w = w.minus(&one);
        }
    }
    proof {
        assert forall|j: int, k: int| 0 <= j < k < out@.len() implies magnitude(
            (#[trigger] out@[j])@,
        ) <= magnitude((#[trigger] out@[k])@) by {
            domain_leads_away_from_zero(a@, b@, j, k);
        }
    }
    out
}

/// A domain holds each integer between its bounds at one place, and nothing else.
pub proof fn domain_holds_each_integer_once(a: int, b: int, x: int)
    requires
        a <= x <= b,
    ensures
        exists|k: int| 0 <= k < domain_len(a, b) && #[trigger] domain_at(a, b, k) == x,
        forall|j: int, k: int|
            0 <= j < domain_len(a, b) && 0 <= k < domain_len(a, b) && #[trigger] domain_at(a, b, j)
                == #[trigger] domain_at(a, b, k) ==> j == k,
        forall|k: int| 0 <= k < domain_len(a, b) ==> a <= #[trigger] domain_at(a, b, k) <= b,
{
    let near = if -a < b {
        -a
    } else {
        b
    };
    let k = if a > 0 {
        x - a
    } else if b < 0 {
        b - x
    } else if x > near {
        x + near
    } else if x < -near {
        near - x
    } else if x > 0 {
        2 * x - 1
    } else {
        -2 * x
    };
    assert(domain_at(a, b, k) == x);
}

/// A domain starts with the numbers closest to zero.
pub proof fn domain_leads_away_from_zero(a: int, b: int, j: int, k: int)
    requires
        0 <= j < k < domain_len(a, b),
    ensures
        magnitude(domain_at(a, b, j)) <= magnitude(domain_at(a, b, k)),
{
}

/// How an integer stands in a domain: by itself, or as the object that the host keeps
/// for it.
pub open spec fn number_atom(v: int, wide: u64, k: int) -> Atom {
    if i64::MIN <= v <= i64::MAX {
        Atom::Int(v as i64)
    } else {
        Atom::Host((wide + k) as u64)
    }
}

/// Whether the values of a strategy are few enough to be listed.
pub open spec fn has_domain(node: StrategyNode) -> bool {
    match node {
        StrategyNode::SampledFrom { .. } => true,
        StrategyNode::Integers { min, max } => min is Some && max is Some && max->0@ - min->0@
            <= 255,
        _ => false,
    }
}

/// `d` lists the values of such a strategy.
pub open spec fn lists_domain(d: Seq<Atom>, node: StrategyNode, wide: u64) -> bool {
    match node {
        StrategyNode::SampledFrom { elements, .. } => d == elements@,
        StrategyNode::Integers { min, max } => {
            &&& d.len() == domain_len(min->0@, max->0@)
            &&& forall|k: int|
                0 <= k < d.len() ==> (#[trigger] d[k]) == number_atom(
                    domain_at(min->0@, max->0@, k),
                    wide,
                    k,
                )
        },
        _ => false,
    }
}

/// The values of a strategy, where they are few enough to be listed. The host keeps
/// integers that do not fit into a machine word, from number `wide` on.
pub fn finite_unique_domain(node: &StrategyNode, wide: u64) -> (r: Option<Vec<Atom>>)
    requires
        wide <= u64::MAX - 256,
    ensures
        r is Some <==> has_domain(*node),
        r is Some ==> lists_domain(r->0@, *node, wide),
{
    match node {
        StrategyNode::SampledFrom { elements, .. } => {
            let out = elements.clone();
            assert(out@ =~= elements@);
            Some(out)
        },
        StrategyNode::Integers { min: Some(a), max: Some(b) } => {
            if Int::of(255).less(&b.minus(a)) {
                return None;
            }
            let ordered = ordered_int_domain(a, b);
            let mut out: Vec<Atom> = Vec::new();
            let mut k: usize = 0;
            while k < ordered.len()
                invariant
                    k <= ordered.len() <= 256,
                    wide <= u64::MAX - 256,
                    ordered@.len() == domain_len(a@, b@),
                    forall|i: int|
                        0 <= i < ordered@.len() ==> (#[trigger] ordered@[i])@ == domain_at(
                            a@,
                            b@,
                            i,
                        ),
                    out@.len() == k,
                    forall|i: int|
                        0 <= i < k ==> (#[trigger] out@[i]) == number_atom(
                            domain_at(a@, b@, i),
                            wide,
                            i,
                        ),
                decreases ordered.len() - k,
            {
                assert(ordered@[k as int]@ == domain_at(a@, b@, k as int));
                let atom = match ordered[k].to_i64() {
                    Some(v) => Atom::Int(v),
                    None => Atom::Host(wide + k as u64),
                };
                out.push(atom);
                k = k + 1;
            }
            Some(out)
        },
        _ => None,
    }
}

/// How many different values a list of atoms has.
fn count_distinct(atoms: &Vec<Atom>) -> (r: usize)
    ensures
        r == atoms@.to_set().len(),
{
    let mut seen: Vec<Atom> = Vec::new();
    let mut i: usize = 0;
    proof {
        assert(seen@.to_set() =~= atoms@.take(0).to_set());
    }
    while i < atoms.len()
        invariant
            i <= atoms.len(),
            seen@.no_duplicates(),
            seen@.to_set() == atoms@.take(i as int).to_set(),
        decreases atoms.len() - i,
    {
        let a: Atom = atoms[i];
        let mut known = false;
        let mut k: usize = 0;
        while k < seen.len()
            invariant
                k <= seen.len(),
                known == exists|x: int| 0 <= x < k && #[trigger] seen@[x] == a,
            decreases seen.len() - k,
        {
            if seen[k] == a {
                known = true;
            }
            k = k + 1;
        }
        let ghost before = seen@;
        let ghost front = atoms@.take(i as int);
        let ghost longer = atoms@.take(i + 1);
        proof {
            assert(longer =~= front.push(a));
            assert(longer.to_set() =~= front.to_set().insert(a)) by {
                assert forall|x: Atom| longer.to_set().contains(x) <==> front.to_set().insert(
                    a,
                ).contains(x) by {
                    if front.contains(x) {
                        let n = choose|n: int| 0 <= n < front.len() && front[n] == x;
                        assert(longer[n] == x);
                    }
                    assert(longer[i as int] == a);
                    if longer.contains(x) && x != a {
                        let n = choose|n: int| 0 <= n < longer.len() && longer[n] == x;
                        assert(front[n] == x);
                    }
                }
            }
        }
        if !known {
            seen.push(a);
            proof {
                assert(seen@.to_set() =~= before.to_set().insert(a)) by {
                    assert forall|x: Atom| seen@.to_set().contains(x)
                        <==> before.to_set().insert(a).contains(x) by {
                        if before.contains(x) {
                            let n = choose|n: int| 0 <= n < before.len() && before[n] == x;
                            assert(seen@[n] == x);
                        }
                        assert(seen@[before.len() as int] == a);
                        if seen@.contains(x) && x != a {
                            let n = choose|n: int| 0 <= n < seen@.len() && seen@[n] == x;
                            assert(before[n] == x);
                        }
                    }
                }
            }
        } else {
            proof {
                let n = choose|x: int| 0 <= x < k && #[trigger] seen@[x] == a;
                assert(seen@.contains(seen@[n]));
                assert(before.to_set().insert(a) =~= before.to_set());
            }
        }
        i = i + 1;
    }
    proof {
        assert(atoms@.take(i as int) =~= atoms@);
        seen@.unique_seq_to_set();
    }
    seen.len()
}

/// How many different values a sample offers.
pub fn sampled_from_len(node: &StrategyNode) -> (r: Option<usize>)
    ensures
        r is Some <==> *node is SampledFrom,
        r is Some ==> r->0 == node->elements@.to_set().len(),
{
    match node {
        StrategyNode::SampledFrom { elements, .. } => Some(count_distinct(elements)),
        _ => None,
    }
}

/// The functions by which the elements of a list are unique: one, or several; each
/// with whether it can be called.
#[derive(Debug)]
pub struct UniqueBy {
    pub shown: String,
    pub funcs: Vec<(u64, bool)>,
}

/// There are functions, and all of them can be called.
pub open spec fn callable(u: UniqueBy) -> bool {
    u.funcs@.len() > 0 && forall|i: int| 0 <= i < u.funcs@.len() ==> (#[trigger] u.funcs@[i]).1
}

fn check_callable(u: &UniqueBy) -> (r: bool)
    ensures
        r == callable(*u),
{
    let mut i: usize = 0;
    while i < u.funcs.len()
        invariant
            i <= u.funcs.len(),
            forall|k: int| 0 <= k < i ==> (#[trigger] u.funcs@[k]).1,
        decreases u.funcs.len() - i,
    {
        if !u.funcs[i].1 {
            assert(!u.funcs@[i as int].1);
            return false;
        }
        i = i + 1;
    }
    u.funcs.len() > 0
}

/// The arguments of lists.
#[derive(Debug)]
pub struct ListsArgs {
    pub min_size: SizeArg,
    pub max_size: SizeArg,
    pub unique_by: Option<UniqueBy>,
    pub unique: bool,
    /// The function that gives its argument back.
    pub identity: u64,
    /// Where the host keeps integers that do not fit into a machine word.
    pub wide: u64,
    /// How the strategy of the elements is shown.
    pub elem_repr: String,
}

/// The most elements that a list can have, where they are unique among few values.
pub open spec fn unique_limit(elem: StrategyNode, a: ListsArgs) -> Option<int> {
    if a.unique && has_domain(elem) {
        Some(
            match elem {
                StrategyNode::SampledFrom { elements, .. } => elements@.to_set().len() as int,
                _ => domain_len(elem->Integers_min->0@, elem->Integers_max->0@),
            },
        )
    } else if (a.unique || a.unique_by is Some) && elem is SampledFrom {
        Some(elem->elements@.to_set().len() as int)
    } else {
        None
    }
}

/// The functions by which the elements are unique.
pub open spec fn unique_keys(a: ListsArgs) -> Seq<u64> {
    if a.unique_by is Some {
        a.unique_by->0.funcs@.map_values(|p: (u64, bool)| p.0)
    } else if a.unique {
        seq![a.identity]
    } else {
        Seq::empty()
    }
}

/// `r` is the strategy of lists with elements of a strategy.
pub open spec fn lists_strategy(
    r: StrategyNode,
    elem: StrategyNode,
    a: ListsArgs,
    empty: bool,
) -> bool {
    let min = size_of(a.min_size, 0);
    let max = size_of(a.max_size, COLLECTION_DEFAULT_MAX_SIZE);
    let mistake = sizes_mistake(a.min_size, a.max_size, Kind::Lists, empty, a.elem_repr@);
    if a.unique && a.unique_by is Some {
        says(
            r,
            "Cannot pass both unique and unique_by (you probably only want to use unique_by)"@,
        )
    } else if mistake is Some {
        says(r, mistake->0)
    } else if unique_limit(elem, a) is Some && min > unique_limit(elem, a)->0 {
        says(
            r,
            "Cannot create a collection of min_size="@ + decimal(min as int)
                + " unique elements with values drawn from only "@ + decimal(
                unique_limit(elem, a)->0,
            ) + " distinct elements"@,
        )
    } else {
        &&& r is Lists
        &&& *r->Lists_elem == elem
        &&& r->Lists_min == min
        &&& r->Lists_max == (if unique_limit(elem, a) is Some && unique_limit(elem, a)->0 < max {
            unique_limit(elem, a)->0
        } else {
            max as int
        })
        &&& r->unique_by@ == unique_keys(a)
        &&& r->swap_domain is Some <==> a.unique && has_domain(elem)
        &&& r->swap_domain is Some ==> lists_domain(r->swap_domain->0@, elem, a.wide)
    }
}

/// Lists of values of a strategy.
pub fn lists(elements: StrategyArg, a: &ListsArgs, facts: &Facts) -> (r: Result<
    StrategyNode,
    ArgumentError,
>)
    requires
        a.wide <= u64::MAX - 256,
    ensures
        !(elements is Strategy) ==> r is Err && invalid(
            r->Err_0,
            not_a_strategy(elements, "lists() elements="@),
        ),
        elements is Strategy && !a.unique && a.unique_by is Some && !callable(a.unique_by->0)
            ==> r is Err && invalid(
            r->Err_0,
            "unique_by="@ + a.unique_by->0.shown@
                + " must be a callable or a (non-empty) tuple of callables."@,
        ),
        elements is Strategy && (a.unique || a.unique_by is None || callable(a.unique_by->0))
            ==> r is Ok && lists_strategy(
            r->Ok_0,
            elements->Strategy_0,
            *a,
            empty_in(elements->Strategy_0, *facts, Seq::empty()),
        ),
{
    match check_strategy(&elements, "lists() elements") {
        Ok(_) => {},
        Err(e) => {
            assert("lists() elements"@ + "="@ =~= "lists() elements="@) by {
                reveal_strlit("lists() elements");
                reveal_strlit("=");
                reveal_strlit("lists() elements=");
            }
            return Err(e);
        },
    }
    let mut msg = String::new();
    if a.unique && a.unique_by.is_some() {
        msg.append(
            "Cannot pass both unique and unique_by (you probably only want to use unique_by)",
        );
        assert(msg@
            =~= "Cannot pass both unique and unique_by (you probably only want to use unique_by)"@);
        return Ok(deferred_invalid(msg));
    }
    if let Some(u) = &a.unique_by {
        if !check_callable(u) {
            msg.append("unique_by=");
            msg.append(u.shown.as_str());
            msg.append(" must be a callable or a (non-empty) tuple of callables.");
            assert(msg@ =~= "unique_by="@ + u.shown@
                + " must be a callable or a (non-empty) tuple of callables."@);
            return Err(invalid_argument(msg));
        }
    }
    let elem = match elements {
        StrategyArg::Strategy(n) => n,
        StrategyArg::Other { .. } => {
            assert(false);
            StrategyNode::Nothing
        },
    };
    let (min, max) = match collection_sizes(
        &a.min_size,
        &a.max_size,
        Kind::Lists,
        strat_is_empty(&elem, facts),
        a.elem_repr.as_str(),
    ) {
        Ok(v) => v,
        Err(m) => {
            return Ok(deferred_invalid(m));
        },
    };
    let swap_domain = if a.unique {
        finite_unique_domain(&elem, a.wide)
    } else {
        None
    };
    let keys = list_keys(a);
    let card = if keys.len() == 0 {
        None
    } else {
        match sampled_from_len(&elem) {
            Some(n) => Some(n),
            None => match &swap_domain {
                Some(d) => Some(d.len()),
                None => None,
            },
        }
    };
    let mut most: u64 = max;
    if let Some(n) = card {
        let n: u64 = n as u64;
        if min > n {
            msg.append("Cannot create a collection of min_size=");
            push_count(&mut msg, min);
            msg.append(" unique elements with values drawn from only ");
            push_count(&mut msg, n);
            msg.append(" distinct elements");
            assert(msg@ =~= "Cannot create a collection of min_size="@ + decimal(min as int)
                + " unique elements with values drawn from only "@ + decimal(n as int)
                + " distinct elements"@);
            return Ok(deferred_invalid(msg));
        }
        if n < max {
            most = n;
        }
    }
    Ok(
        StrategyNode::Lists {
            elem: Box::new(elem),
            min,
            max: most,
            unique_by: keys,
            swap_domain,
        },
    )
}

fn list_keys(a: &ListsArgs) -> (r: Vec<u64>)
    ensures
        r@ == unique_keys(*a),
{
    let mut keys: Vec<u64> = Vec::new();
    if let Some(u) = &a.unique_by {
        let mut i: usize = 0;
        while i < u.funcs.len()
            invariant
                i <= u.funcs.len(),
                keys@.len() == i,
                forall|k: int| 0 <= k < i ==> (#[trigger] keys@[k]) == u.funcs@[k].0,
            decreases u.funcs.len() - i,
        {
            keys.push(u.funcs[i].0);
            i = i + 1;
        }
        assert(keys@ =~= unique_keys(*a));
    } else if a.unique {
        keys.push(a.identity);
        assert(keys@ =~= unique_keys(*a));
    } else {
        assert(keys@ =~= unique_keys(*a));
    }
    keys
}

// ---- slices and fractions ---------------------------------------------------

/// Slices of something of a size.
pub fn slices(size: Option<i64>, shown: &str) -> (r: Result<StrategyNode, ArgumentError>)
    ensures
        r is Ok <==> size is Some && size->0 >= 0,
        r is Ok ==> r->Ok_0 == (StrategyNode::Slices { size: size->0 as u64 }),
        r is Err ==> invalid(
            r->Err_0,
            "Expected size to be a non-negative integer, but got "@ + shown@,
        ),
{
    if let Some(n) = size {
        if n >= 0 {
            return Ok(StrategyNode::Slices { size: n as u64 });
        }
    }
    let mut msg = String::new();
    msg.append("Expected size to be a non-negative integer, but got ");
    msg.append(shown);
    assert(msg@ =~= "Expected size to be a non-negative integer, but got "@ + shown@);
    Err(invalid_argument(msg))
}

/// The largest denominator where none is given.
pub const DEFAULT_DENOMINATOR: i64 = 65536;

/// The argument for the largest denominator.
#[derive(Debug)]
pub enum DenominatorArg {
    Absent,
    Number(i64),
    /// Something that is not a number of this width, as it is shown.
    Other(String),
}

/// The argument for a bound of fractions.
#[derive(Debug)]
pub enum FractionArg {
    Absent,
    /// A fraction in lowest terms, as it is shown.
    Value { ratio: Ratio, shown: String },
    /// Something that is no fraction, as it is shown.
    Other(String),
}

/// What is wrong with the largest denominator.
pub open spec fn denominator_mistake(d: DenominatorArg) -> Option<Seq<char>> {
    match d {
        DenominatorArg::Absent => None,
        DenominatorArg::Number(n) => if n < 1 {
            Some(
                "max_denominator="@ + decimal(n as int)
                    + " must be >= 1, but the smallest valid denominator is 1."@,
            )
        } else {
            None
        },
        DenominatorArg::Other(shown) => Some(
            "max_denominator="@ + shown@ + " must be an integer."@,
        ),
    }
}

/// The largest denominator that the argument stands for.
pub open spec fn denominator_of(d: DenominatorArg) -> i64 {
    match d {
        DenominatorArg::Number(n) => n,
        _ => DEFAULT_DENOMINATOR,
    }
}

/// What is wrong with a bound of fractions.
pub open spec fn fraction_mistake(v: FractionArg, name: Seq<char>, d: DenominatorArg) -> Option<
    Seq<char>,
> {
    match v {
        FractionArg::Absent => None,
        FractionArg::Other(shown) => Some(
            "Cannot convert "@ + name + "="@ + shown@ + " to a Fraction."@,
        ),
        FractionArg::Value { ratio, shown } => if !(d is Absent) && ratio.den@ > denominator_of(
            d,
        ) {
            Some(
                "The "@ + name + "="@ + shown@
                    + " has a denominator greater than the max_denominator="@ + decimal(
                    denominator_of(d) as int,
                ),
            )
        } else {
            None
        },
    }
}

/// One fraction is greater than the other, both with positive denominators.
pub open spec fn ratio_above(a: Ratio, b: Ratio) -> bool {
    a.num@ * b.den@ > b.num@ * a.den@
}

/// What is wrong with the arguments of fractions: the first rule that they break.
pub open spec fn fractions_mistake(
    min: FractionArg,
    max: FractionArg,
    d: DenominatorArg,
) -> Option<Seq<char>> {
    if denominator_mistake(d) is Some {
        denominator_mistake(d)
    } else if fraction_mistake(min, "min_value"@, d) is Some {
        fraction_mistake(min, "min_value"@, d)
    } else if fraction_mistake(max, "max_value"@, d) is Some {
        fraction_mistake(max, "max_value"@, d)
    } else if min is Value && max is Value && ratio_above(min->ratio, max->ratio) {
        Some(
            "min_value="@ + min->Value_shown@ + " cannot be greater than max_value="@
                + max->Value_shown@,
        )
    } else {
        None
    }
}

/// The bound that an argument stands for.
pub open spec fn fraction_bound(v: FractionArg) -> Option<Ratio> {
    match v {
        FractionArg::Value { ratio, .. } => Some(ratio),
        _ => None,
    }
}

fn check_denominator(d: &DenominatorArg) -> (r: Result<i64, ArgumentError>)
    ensures
        r is Ok <==> denominator_mistake(*d) is None,
        r is Ok ==> r->Ok_0 == denominator_of(*d),
        r is Err ==> invalid(r->Err_0, denominator_mistake(*d)->0),
{
    let mut msg = String::new();
    match d {
        DenominatorArg::Absent => Ok(DEFAULT_DENOMINATOR),
        DenominatorArg::Number(n) => {
            if *n >= 1 {
                return Ok(*n);
            }
            msg.append("max_denominator=");
            push_number(&mut msg, &Int::of(*n));
            msg.append(" must be >= 1, but the smallest valid denominator is 1.");
            assert(msg@ =~= "max_denominator="@ + decimal(*n as int)
                + " must be >= 1, but the smallest valid denominator is 1."@);
            Err(invalid_argument(msg))
        },
        DenominatorArg::Other(shown) => {
            msg.append("max_denominator=");
            msg.append(shown.as_str());
            msg.append(" must be an integer.");
            assert(msg@ =~= "max_denominator="@ + shown@ + " must be an integer."@);
            Err(invalid_argument(msg))
        },
    }
}

fn check_fraction(v: &FractionArg, name: &str, d: &DenominatorArg, most: i64) -> (r: Result<
    (),
    ArgumentError,
>)
    requires
        most == denominator_of(*d),
    ensures
        r is Ok <==> fraction_mistake(*v, name@, *d) is None,
        r is Err ==> invalid(r->Err_0, fraction_mistake(*v, name@, *d)->0),
{
    let given = match d {
        DenominatorArg::Absent => false,
        _ => true,
    };
    let mut msg = String::new();
    match v {
        FractionArg::Absent => Ok(()),
        FractionArg::Other(shown) => {
            msg.append("Cannot convert ");
            msg.append(name);
            msg.append("=");
            msg.append(shown.as_str());
            msg.append(" to a Fraction.");
            assert(msg@ =~= "Cannot convert "@ + name@ + "="@ + shown@ + " to a Fraction."@);
            Err(invalid_argument(msg))
        },
        FractionArg::Value { ratio, shown } => {
            if !(given && Int::of(most).less(&ratio.den)) {
                return Ok(());
            }
            msg.append("The ");
            msg.append(name);
            msg.append("=");
            msg.append(shown.as_str());
            msg.append(" has a denominator greater than the max_denominator=");
            push_number(&mut msg, &Int::of(most));
            assert(msg@ =~= "The "@ + name@ + "="@ + shown@
                + " has a denominator greater than the max_denominator="@ + decimal(most as int));
            Err(invalid_argument(msg))
        },
    }
}

fn into_bound(v: FractionArg) -> (r: Option<Ratio>)
    ensures
        r == fraction_bound(v),
{
    match v {
        FractionArg::Value { ratio, .. } => Some(ratio),
        _ => None,
    }
}

/// Fractions between two bounds.
pub fn fractions(min: FractionArg, max: FractionArg, max_denominator: &DenominatorArg) -> (r:
    Result<StrategyNode, ArgumentError>)
    ensures
        r is Ok <==> fractions_mistake(min, max, *max_denominator) is None,
        r is Err ==> invalid(r->Err_0, fractions_mistake(min, max, *max_denominator)->0),
        r is Ok ==> r->Ok_0 == (StrategyNode::Fractions {
            min: fraction_bound(min),
            max: fraction_bound(max),
            max_denom: denominator_of(*max_denominator),
        }),
{
    let max_denom: i64 = match check_denominator(max_denominator) {
        Ok(n) => n,
        Err(e) => {
            return Err(e);
        },
    };
    match check_fraction(&min, "min_value", max_denominator, max_denom) {
        Ok(_) => {},
        Err(e) => {
            return Err(e);
        },
    }
    match check_fraction(&max, "max_value", max_denominator, max_denom) {
        Ok(_) => {},
        Err(e) => {
            return Err(e);
        },
    }
    if let (
        FractionArg::Value { ratio: a, shown: x },
        FractionArg::Value { ratio: b, shown: y },
    ) = (&min, &max) {
        let left = a.num.times(&b.den);
        let right = b.num.times(&a.den);
        if right.less(&left) {
            let mut msg = String::new();
            msg.append("min_value=");
            msg.append(x.as_str());
            msg.append(" cannot be greater than max_value=");
            msg.append(y.as_str());
            assert(msg@ =~= "min_value="@ + x@ + " cannot be greater than max_value="@ + y@);
            return Err(invalid_argument(msg));
        }
    }
    Ok(StrategyNode::Fractions { min: into_bound(min), max: into_bound(max), max_denom })
}

/// Decimal numbers between two bounds.
pub fn decimals(min: Option<Ratio>, max: Option<Ratio>, places: Option<i32>) -> (r: StrategyNode)
    ensures
        r == (StrategyNode::Decimals { min, max, places }),
{
    StrategyNode::Decimals { min, max, places }
}

} // verus!
