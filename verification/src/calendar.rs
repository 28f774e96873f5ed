//! Days and times of day as numbers.
//!
//! Days are counted in the Gregorian calendar, extended backwards; day one is the
//! first of January of the year one. Times are microseconds since midnight.
use crate::integer::Int;
use crate::strategy::{MILLENNIUM_ORDINAL, US_PER_DAY};
use vstd::prelude::*;

verus! {

/// The last year of the calendar.
pub const MAX_YEAR: i64 = 9999;

/// The last day of the last year.
pub const MAX_ORDINAL: i64 = 3_652_059;

/// Ranges of more years than this are not searched for peculiar days.
pub const MAX_PECULIAR_YEARS: i64 = 50;

pub open spec fn leap_year(y: int) -> bool {
    y % 4 == 0 && (y % 100 != 0 || y % 400 == 0)
}

/// How many days come before the first of January of a year.
pub open spec fn days_before_year(y: int) -> int {
    (y - 1) * 365 + (y - 1) / 4 - (y - 1) / 100 + (y - 1) / 400
}

/// How many days a month has.
pub open spec fn month_length(y: int, m: int) -> int {
    if m == 2 {
        if leap_year(y) {
            29
        } else {
            28
        }
    } else if m == 4 || m == 6 || m == 9 || m == 11 {
        30
    } else {
        31
    }
}

/// How many days of a year come before a month.
pub open spec fn days_before_month(y: int, m: int) -> int
    decreases m,
{
    if m <= 1 {
        0
    } else {
        days_before_month(y, m - 1) + month_length(y, m - 1)
    }
}

/// The day is in the calendar.
pub open spec fn valid_date(y: int, m: int, d: int) -> bool {
    1 <= y <= MAX_YEAR && 1 <= m <= 12 && 1 <= d <= month_length(y, m)
}

/// The number of a day.
pub open spec fn date_ordinal(y: int, m: int, d: int) -> int {
    days_before_year(y) + days_before_month(y, m) + d
}

fn before_year(y: i64) -> (r: i64)
    requires
        1 <= y <= MAX_YEAR + 1,
    ensures
        r == days_before_year(y as int),
        0 <= r <= MAX_ORDINAL,
{
    let p: i64 = y - 1;
    p * 365 + p / 4 - p / 100 + p / 400
}

fn is_leap(y: i64) -> (r: bool)
    requires
        1 <= y <= MAX_YEAR,
    ensures
        r == leap_year(y as int),
{
    y % 4 == 0 && (y % 100 != 0 || y % 400 == 0)
}

proof fn lemma_year_length(y: int)
    requires
        1 <= y,
    ensures
        days_before_year(y + 1) == days_before_year(y) + (if leap_year(y) {
            366int
        } else {
            365
        }),
{
    let p = y - 1;
    assert(y / 4 == p / 4 + (if y % 4 == 0 {
        1int
    } else {
        0
    }));
    assert(y / 100 == p / 100 + (if y % 100 == 0 {
        1int
    } else {
        0
    }));
    assert(y / 400 == p / 400 + (if y % 400 == 0 {
        1int
    } else {
        0
    }));
    assert(y % 400 == 0 ==> y % 100 == 0);
    assert(y % 100 == 0 ==> y % 4 == 0);
}

/// The number of a day.
pub fn ordinal_of(y: i64, m: i64, d: i64) -> (r: i64)
    requires
        valid_date(y as int, m as int, d as int),
    ensures
        r == date_ordinal(y as int, m as int, d as int),
{
    let mut total: i64 = before_year(y) + d;
    let mut i: i64 = 1;
    while i < m
        invariant
            1 <= i <= m <= 12,
            1 <= y <= MAX_YEAR,
            1 <= d <= 31,
            total == days_before_year(y as int) + days_before_month(y as int, i as int) + d,
            0 <= days_before_year(y as int) <= MAX_ORDINAL,
            0 <= days_before_month(y as int, i as int) <= 31 * (i - 1),
        decreases m - i,
    {
        let length: i64 = if i == 2 {
            if is_leap(y) {
                29
            } else {
                28
            }
        } else if i == 4 || i == 6 || i == 9 || i == 11 {
            30
        } else {
            31
        };
        total = total + length;
        i = i + 1;
    }
    total
}

/// The year that a day lies in.
pub open spec fn in_year(ordinal: int, y: int) -> bool {
    days_before_year(y) < ordinal <= days_before_year(y + 1)
}

/// The year that a day lies in.
pub fn year_of(ordinal: i64) -> (r: i64)
    requires
        1 <= ordinal <= MAX_ORDINAL,
    ensures
        in_year(ordinal as int, r as int),
        1 <= r <= MAX_YEAR,
{
    let mut y: i64 = (ordinal - 1) / 366 + 1;
    proof {
        let p = y - 1;
        assert(p * 365 + p / 4 - p / 100 + p / 400 <= p * 366);
        assert(p * 366 <= ordinal - 1);
        assert(y <= MAX_YEAR);
    }
    while y < MAX_YEAR && before_year(y + 1) < ordinal
        invariant
            1 <= y <= MAX_YEAR,
            1 <= ordinal <= MAX_ORDINAL,
            days_before_year(y as int) < ordinal,
        decreases MAX_YEAR - y,
    {
        y = y + 1;
    }
    proof {
        if y == MAX_YEAR {
            assert(days_before_year(MAX_YEAR + 1) == MAX_ORDINAL);
        }
    }
    y
}

/// The peculiar days of one year: the leap day, if there is one, and the first and
/// the last day.
pub open spec fn year_days(y: int) -> Seq<int> {
    if leap_year(y) {
        seq![date_ordinal(y, 2, 29), date_ordinal(y, 1, 1), date_ordinal(y, 12, 31)]
    } else {
        seq![date_ordinal(y, 1, 1), date_ordinal(y, 12, 31)]
    }
}

/// The peculiar days of the years before `until`, as far as they are in range.
pub open spec fn peculiar_days(from: int, until: int, min_ord: int, max_ord: int) -> Seq<int>
    decreases until - from,
{
    if until <= from {
        Seq::empty()
    } else {
        peculiar_days(from, until - 1, min_ord, max_ord) + year_days(until - 1).filter(
            |o: int| min_ord <= o <= max_ord,
        )
    }
}

/// The days that are tried more often than others: both ends of the range, the
/// millennium if it lies between them, and in a short range the peculiar days of
/// every year.
pub open spec fn date_candidates(
    min_ord: int,
    max_ord: int,
    min_year: int,
    max_year: int,
) -> Seq<int> {
    let ends = seq![min_ord, max_ord];
    let middle = if min_ord < MILLENNIUM_ORDINAL < max_ord {
        ends.push(MILLENNIUM_ORDINAL as int)
    } else {
        ends
    };
    if max_year - min_year <= MAX_PECULIAR_YEARS {
        middle + peculiar_days(min_year, max_year + 1, min_ord, max_ord)
    } else {
        middle
    }
}

fn push_within(out: &mut Vec<Int>, o: i64, min_ord: i64, max_ord: i64)
    ensures
        crate::ordering::values(final(out)@) == crate::ordering::values(old(out)@) + (if min_ord
            <= o <= max_ord {
            seq![o as int]
        } else {
            Seq::<int>::empty()
        }),
{
    let ghost before = crate::ordering::values(out@);
    if min_ord <= o && o <= max_ord {
        out.push(Int::of(o));
        proof {
            assert(crate::ordering::values(out@) =~= before + seq![o as int]);
        }
    } else {
        proof {
            assert(before =~= before + Seq::<int>::empty());
        }
    }
}

/// The days that are tried more often than others.
pub fn date_inject_candidates(min_ord: i64, max_ord: i64) -> (r: Vec<Int>)
    requires
        1 <= min_ord <= max_ord <= MAX_ORDINAL,
    ensures
        exists|a: int, b: int| #[trigger]
            in_year(min_ord as int, a) && #[trigger] in_year(max_ord as int, b)
                && crate::ordering::values(r@) == date_candidates(
                min_ord as int,
                max_ord as int,
                a,
                b,
            ),
{
    let ghost lo = min_ord as int;
    let ghost hi = max_ord as int;
    let mut out: Vec<Int> = Vec::new();
    out.push(Int::of(min_ord));
    out.push(Int::of(max_ord));
    proof {
        assert(crate::ordering::values(out@) =~= seq![lo, hi]);
    }
    if MILLENNIUM_ORDINAL > min_ord && MILLENNIUM_ORDINAL < max_ord {
        out.push(Int::of(MILLENNIUM_ORDINAL));
        proof {
            assert(crate::ordering::values(out@) =~= seq![lo, hi].push(MILLENNIUM_ORDINAL as int));
        }
    }
    let min_year: i64 = year_of(min_ord);
    let max_year: i64 = year_of(max_ord);
    let ghost start = crate::ordering::values(out@);
    if max_year - min_year <= MAX_PECULIAR_YEARS {
        let mut y: i64 = min_year;
        proof {
            assert(start + Seq::<int>::empty() =~= start);
        }
        while y <= max_year
            invariant
                1 <= min_year,
                min_year <= y,
                max_year <= MAX_YEAR,
                y <= max_year + 1 || min_year > max_year,
                y == min_year || y <= max_year + 1,
                lo == min_ord,
                hi == max_ord,
                crate::ordering::values(out@) == start + peculiar_days(
                    min_year as int,
                    y as int,
                    lo,
                    hi,
                ),
            decreases max_year + 1 - y,
        {
            let ghost before = crate::ordering::values(out@);
            let ghost yy = y as int;
            proof {
                reveal_with_fuel(days_before_month, 13);
            }
            let first: i64 = ordinal_of(y, 1, 1);
            let last: i64 = ordinal_of(y, 12, 31);
            if is_leap(y) {
                let day: i64 = ordinal_of(y, 2, 29);
                push_within(&mut out, day, min_ord, max_ord);
            }
            push_within(&mut out, first, min_ord, max_ord);
            push_within(&mut out, last, min_ord, max_ord);
            proof {
                let keep = |o: int| lo <= o <= hi;
                let days = year_days(yy);
                lemma_filter_three(days, keep);
                assert(crate::ordering::values(out@) =~= before + days.filter(keep));
                assert(start + (peculiar_days(min_year as int, yy, lo, hi) + days.filter(keep))
                    =~= (start + peculiar_days(min_year as int, yy, lo, hi)) + days.filter(keep));
            }
            y = y + 1;
        }
        proof {
            if min_year > max_year {
                assert(peculiar_days(min_year as int, max_year + 1, lo, hi) =~= Seq::<
                    int,
                >::empty());
            }
        }
    }
    proof {
        assert(in_year(lo, min_year as int) && in_year(hi, max_year as int));
    }
    out
}

/// A filter over at most three elements, spelled out.
proof fn lemma_filter_three(s: Seq<int>, keep: spec_fn(int) -> bool)
    requires
        2 <= s.len() <= 3,
    ensures
        s.filter(keep) == kept(s, keep, 0) + kept(s, keep, 1) + (if s.len() == 3 {
            kept(s, keep, 2)
        } else {
            Seq::<int>::empty()
        }),
{
    reveal(Seq::filter);
    let a = s.drop_last();
    let b = a.drop_last();
    assert(s.filter(keep) =~= a.filter(keep) + kept(s, keep, s.len() - 1));
    assert(a.filter(keep) =~= b.filter(keep) + kept(s, keep, s.len() - 2));
    if s.len() == 3 {
        let c = b.drop_last();
        assert(b.filter(keep) =~= c.filter(keep) + kept(s, keep, 0));
        assert(c.filter(keep) =~= Seq::<int>::empty());
    } else {
        assert(b.filter(keep) =~= Seq::<int>::empty());
    }
    assert(s.filter(keep) =~= kept(s, keep, 0) + kept(s, keep, 1) + (if s.len() == 3 {
        kept(s, keep, 2)
    } else {
        Seq::<int>::empty()
    }));
}

spec fn kept(s: Seq<int>, keep: spec_fn(int) -> bool, i: int) -> Seq<int> {
    if keep(s[i]) {
        seq![s[i]]
    } else {
        Seq::empty()
    }
}

// ---- times ------------------------------------------------------------------

/// A time of day.
#[derive(Clone, Copy, Debug, PartialEq, Eq, Structural)]
pub struct TimeOfDay {
    pub hour: i64,
    pub minute: i64,
    pub second: i64,
    pub microsecond: i64,
}

/// The parts of a time are within their bounds.
pub open spec fn valid_time(t: TimeOfDay) -> bool {
    0 <= t.hour < 24 && 0 <= t.minute < 60 && 0 <= t.second < 60 && 0 <= t.microsecond < 1_000_000
}

/// The microseconds since midnight.
pub open spec fn microseconds(t: TimeOfDay) -> int {
    t.hour * 3_600_000_000 + t.minute * 60_000_000 + t.second * 1_000_000 + t.microsecond
}

pub fn time_to_us(t: &TimeOfDay) -> (r: i64)
    requires
        valid_time(*t),
    ensures
        r == microseconds(*t),
        0 <= r < US_PER_DAY,
{
    t.hour * 3_600_000_000 + t.minute * 60_000_000 + t.second * 1_000_000 + t.microsecond
}

/// The time of day so many microseconds after midnight.
pub fn time_from_us(us: i64) -> (r: TimeOfDay)
    requires
        0 <= us < US_PER_DAY,
    ensures
        valid_time(r),
        microseconds(r) == us,
{
    let hour: i64 = us / 3_600_000_000;
    let rest: i64 = us % 3_600_000_000;
    let minute: i64 = rest / 60_000_000;
    let rest: i64 = rest % 60_000_000;
    TimeOfDay { hour, minute, second: rest / 1_000_000, microsecond: rest % 1_000_000 }
}

/// The microseconds of a span of time given in days, seconds and microseconds.
pub fn td_to_us(days: i64, seconds: i64, microseconds: i64) -> (r: Int)
    ensures
        r@ == (days * 86400 + seconds) * 1_000_000 + microseconds,
{
    Int::of(days).times(&Int::of(86400)).plus(&Int::of(seconds)).times(&Int::of(1_000_000)).plus(
        &Int::of(microseconds),
    )
}

/// A time of day is determined by its microseconds.
pub proof fn microseconds_identify_the_time(a: TimeOfDay, b: TimeOfDay)
    requires
        valid_time(a),
        valid_time(b),
        microseconds(a) == microseconds(b),
    ensures
        a == b,
{
}

/// Every day lies in exactly one year.
pub proof fn years_do_not_overlap(ordinal: int, a: int, b: int)
    requires
        1 <= a,
        1 <= b,
        in_year(ordinal, a),
        in_year(ordinal, b),
    ensures
        a == b,
    decreases
            if a < b {
                b - a
            } else {
                a - b
            },
{
    if a < b {
        lemma_years_ascend(a + 1, b);
    } else if b < a {
        lemma_years_ascend(b + 1, a);
    }
}

proof fn lemma_years_ascend(a: int, b: int)
    requires
        1 <= a <= b,
    ensures
        days_before_year(a) <= days_before_year(b),
    decreases b - a,
{
    if a < b {
        lemma_year_length(b - 1);
        lemma_years_ascend(a, b - 1);
    }
}

// ---- days in their order ----------------------------------------------------

/// The days are counted one after the other, from the first of January of year 1 on. Every
/// fourth year has a day more, but of the full hundreds only every fourth.
pub proof fn days_follow_each_other(y: int, m: int, d: int)
    requires
        1 <= y,
        1 <= m <= 12,
    ensures
        date_ordinal(1, 1, 1) == 1,
        date_ordinal(y, m, d + 1) == date_ordinal(y, m, d) + 1,
        m < 12 ==> date_ordinal(y, m + 1, 1) == date_ordinal(y, m, month_length(y, m)) + 1,
        date_ordinal(y + 1, 1, 1) == date_ordinal(y, 12, 31) + 1,
        month_length(y, 2) == (if y % 4 == 0 && (y % 100 != 0 || y % 400 == 0) {
            29int
        } else {
            28
        }),
        m == 4 || m == 6 || m == 9 || m == 11 ==> month_length(y, m) == 30,
        m == 1 || m == 3 || m == 5 || m == 7 || m == 8 || m == 10 || m == 12 ==> month_length(y, m)
            == 31,
{
    lemma_year_ends(y);
    assert(days_before_month(y, m + 1) == days_before_month(y, m) + month_length(y, m));
    assert(days_before_month(y, 1) == 0 && days_before_month(y + 1, 1) == 0);
    assert(days_before_month(1, 1) == 0);
}

proof fn lemma_year_ends(y: int)
    requires
        1 <= y,
    ensures
        days_before_month(y, 12) == 334 + (if leap_year(y) {
            1int
        } else {
            0
        }),
        days_before_year(y + 1) == days_before_year(y) + 365 + (if leap_year(y) {
            1int
        } else {
            0
        }),
{
    assert(days_before_month(y, 1) == 0);
    assert(days_before_month(y, 2) == 31);
    assert(days_before_month(y, 3) == 31 + month_length(y, 2));
    assert(days_before_month(y, 4) == 62 + month_length(y, 2));
    assert(days_before_month(y, 5) == 92 + month_length(y, 2));
    assert(days_before_month(y, 6) == 123 + month_length(y, 2));
    assert(days_before_month(y, 7) == 153 + month_length(y, 2));
    assert(days_before_month(y, 8) == 184 + month_length(y, 2));
    assert(days_before_month(y, 9) == 215 + month_length(y, 2));
    assert(days_before_month(y, 10) == 245 + month_length(y, 2));
    assert(days_before_month(y, 11) == 276 + month_length(y, 2));
    assert(days_before_month(y, 12) == 306 + month_length(y, 2));
}

} // verus!
