//! What a test case plays back, where it ends, and what comes up more often.
use crate::calendar::{date_candidates, date_ordinal, leap_year, peculiar_days, year_days};
use crate::choice::{ChoiceModel, Constraints};
use crate::data::{prefix_count, room, simplest_of, Case, Plan, PrefixEntry};
use crate::drawing::weighs;
use crate::floats::{negated_bits, next_up_of, FloatBounds};
use crate::integer::{decimal, Int};
use crate::provider::peculiar;
use crate::runner::{deepest_line, draw_note, failure_in, Failure, Outcome, Raised, Subject};
use crate::shrinker::{shrunk_from, Shrunk, Trials};
use crate::tree::{few_values, MAX_TOTAL_TRACKED_NODES, MAX_TRACKED_NODES};
use vstd::prelude::*;

verus! {

// ---- test cases -------------------------------------------------------------

/// A test case whose bytes or whose number of choices are used up overruns. Else what is forced is
/// drawn; what is played back is drawn where it fits, and the simplest choice where it does not;
/// and where there is nothing to play back, chance decides. Without a limit there is room for
/// 8192 bytes.
pub proof fn draws_come_from_somewhere(
    case: Case,
    k: Constraints,
    observe: bool,
    forced: Option<ChoiceModel>,
    limit: Option<u64>,
)
    ensures
        case.length >= case.max_length ==> case.plan(k, observe, forced) is Overrun,
        case.max_choices is Some && case.max_choices->0 == case.nodes@.len() ==> case.plan(
            k,
            observe,
            forced,
        ) is Overrun,
        case.length < case.max_length && (case.max_choices is None || case.max_choices->0
            != case.nodes@.len()) ==> {
            let played = observe && case.replay.prefix is Some && case.replay.index
                < case.replay.prefix->0@.len();
            let next = case.replay.prefix->0@[case.replay.index as int];
            &&& !played && forced is Some ==> case.plan(k, observe, forced) == Plan::Take(forced->0)
            &&& !played && forced is None ==> case.plan(k, observe, forced) is Sample
            &&& played && next is Value && forced is None && k.fits_kind(next->Value_0@)
                && k.permits(next->Value_0@) ==> case.plan(k, observe, forced) == Plan::Take(
                next->Value_0@,
            )
            &&& played && next is Value && forced is None && !(k.fits_kind(next->Value_0@)
                && k.permits(next->Value_0@)) && simplest_of(k) is Ok ==> case.plan(
                k,
                observe,
                forced,
            ) == Plan::Take(simplest_of(k)->Ok_0)
            &&& played && next == (PrefixEntry::Simplest { count: None }) && forced is None
                && simplest_of(k) is Ok ==> case.plan(k, observe, forced) == Plan::Take(
                simplest_of(k)->Ok_0,
            )
            &&& played && forced is Some && simplest_of(k) is Ok && !(next is Simplest
                && next->Simplest_count is Some) ==> case.plan(k, observe, forced) == Plan::Take(
                forced->0,
            )
        },
        room(None) == 8192,
        limit is Some ==> room(limit) == limit->0,
{
    assert(case.nodes@.len() == case.nodes.len());
}

/// As many choices are played back as there are values, if there are only values; and there is no
/// end to them where the simplest ones go on for ever.
pub proof fn what_is_played_back_is_counted(p: Seq<PrefixEntry>)
    ensures
        (forall|i: int| 0 <= i < p.len() ==> (#[trigger] p[i]) is Value) ==> prefix_count(p)
            == Some(p.len()),
        prefix_count(p) is None <==> exists|i: int|
            0 <= i < p.len() && (#[trigger] p[i]) == (PrefixEntry::Simplest { count: None }),
    decreases p.len(),
{
    if p.len() > 0 {
        let rest = p.drop_last();
        let n = p.len() - 1;
        what_is_played_back_is_counted(rest);
        assert forall|i: int| 0 <= i < n implies #[trigger] rest[i] == p[i] by {}
        if prefix_count(rest) is None {
            let i = choose|i: int|
                0 <= i < rest.len() && (#[trigger] rest[i]) == (PrefixEntry::Simplest {
                    count: None,
                });
            assert(p[i] == (PrefixEntry::Simplest { count: None }));
        }
        if exists|i: int|
            0 <= i < p.len() && (#[trigger] p[i]) == (PrefixEntry::Simplest { count: None }) {
            let i = choose|i: int|
                0 <= i < p.len() && (#[trigger] p[i]) == (PrefixEntry::Simplest { count: None });
            if i < n {
                assert(rest[i] == p[i]);
            }
        }
        assert(p[n] == p.last());
    }
}

/// A choice has few values where it is a truth value, or an integer between bounds at most 256
/// apart; they are counted exactly. Examples of more than 256 choices are not remembered, nor any
/// once there are more than 500000 choices in all.
pub proof fn few_values_are_counted(k: Constraints)
    ensures
        match k {
            Constraints::Boolean { .. } => few_values(k) == Some(2u64),
            Constraints::Integer { min_value, max_value, .. } => {
                &&& min_value is None || max_value is None ==> few_values(k) is None
                &&& few_values(k) is Some ==> few_values(k)->0 == max_value->0@ - min_value->0@ + 1
                    && few_values(k)->0 <= 256
                &&& min_value is Some && max_value is Some && -1_000_000 <= min_value->0@
                    <= max_value->0@ <= 1_000_000 && max_value->0@ - min_value->0@ < 256
                    ==> few_values(k) is Some
            },
            _ => few_values(k) is None,
        },
        MAX_TRACKED_NODES == 256,
        MAX_TOTAL_TRACKED_NODES == 500_000,
{
    assert(vstd::arithmetic::power::pow(2, 127) > 1_000_000) by {
        vstd::arithmetic::power::lemma_pow_increases(2, 20, 127);
        reveal_with_fuel(vstd::arithmetic::power::pow, 21);
    }
}

// ---- failures ---------------------------------------------------------------

/// A failure is told by the last line of its traceback that could be read.
pub proof fn failures_are_told_by_their_last_line(lines: Seq<Option<i64>>, k: int)
    requires
        0 <= k < lines.len(),
        lines[k] is Some,
        forall|j: int| k < j < lines.len() ==> (#[trigger] lines[j]) is None,
    ensures
        deepest_line(lines) == lines[k]->0,
        deepest_line(Seq::empty()) == -1,
    decreases lines.len(),
{
    if k < lines.len() - 1 {
        assert(lines[lines.len() - 1] is None);
        let rest = lines.drop_last();
        assert forall|j: int| k < j < rest.len() implies (#[trigger] rest[j]) is None by {
            assert(lines[j] is None);
        }
        failures_are_told_by_their_last_line(rest, k);
    }
}

/// Replaying tells a failure where the test failed, nothing where it did not, and what went
/// through is handed on.
pub proof fn replays_tell_failures(f: Failure, o: Outcome, e: Raised)
    ensures
        failure_in(Ok(Outcome::Interesting(f))) == Ok::<Option<Failure>, Raised>(Some(f)),
        !(o is Interesting) ==> failure_in(Ok(o)) == Ok::<Option<Failure>, Raised>(None),
        failure_in(Err(e)) == Err::<Option<Failure>, Raised>(e),
{
}

/// A draw is noted with its number, its label and its value.
pub proof fn draws_are_noted(count: u64, label: Seq<char>, shown: Seq<char>)
    ensures
        draw_note(count, None, shown) =~= "Draw "@ + decimal(count as int) + ": "@ + shown,
        draw_note(count, Some(label), shown) =~= "Draw "@ + decimal(count as int) + " ("@ + label
            + "): "@ + shown,
{
    reveal_strlit("");
    reveal_strlit(")");
    reveal_strlit(": ");
    reveal_strlit("): ");
}

/// Shrinking ends where nothing simpler fails, where it shrank as often as allowed, where the
/// failure was lost, or after so many rounds.
pub proof fn shrinking_ends_for_a_reason<S: Subject>(
    r: Shrunk,
    now: Trials,
    then: Trials,
    start: Seq<ChoiceModel>,
    failure: Failure,
    shrink_cap: u64,
)
    requires
        shrunk_from::<S>(r, now, then, start, failure, shrink_cap),
    ensures
        r.report.total_shrinks <= shrink_cap,
        r.choices@.len() <= start.len(),
        r.failure.origin@ == failure.origin@,
        !r.settled && !r.lost && r.report.total_shrinks < shrink_cap ==> r.report.total_shrinks
            >= 149,
{
}

// ---- what comes up more often -----------------------------------------------

/// Zeros, infinities, the bounds and their neighbours, and the smallest numbers are among the
/// floats that come up more often.
pub proof fn peculiar_floats_come_up(b: FloatBounds, above: u64, below: u64)
    ensures
        ({
            let s = peculiar(b, above, below);
            &&& s.contains(0) && s.contains(0x8000_0000_0000_0000)
            &&& s.contains(0x7FF0_0000_0000_0000) && s.contains(0xFFF0_0000_0000_0000)
            &&& s.contains(0x7FF8_0000_0000_0000) && s.contains(0xFFF8_0000_0000_0000)
            &&& s.contains(0x7FF8_0000_0000_0001)
            &&& s.contains(b.min_value) && s.contains(b.max_value)
            &&& s.contains(next_up_of(b.min_value)) && s.contains(above) && s.contains(below)
            &&& s.contains(negated_bits(next_up_of(negated_bits(b.max_value))))
            &&& s.contains(1) && s.contains(0x8000_0000_0000_0001)
            &&& s.contains(0x0008_0000_0000_0000) && s.contains(0x8008_0000_0000_0000)
            &&& s.len() == 18
        }),
{
    let s = peculiar(b, above, below);
    assert(s[0] == 0);
    assert(s[1] == 0x8000_0000_0000_0000);
    assert(s[2] == 0x7FF0_0000_0000_0000);
    assert(s[3] == 0xFFF0_0000_0000_0000);
    assert(s[4] == 0x7FF8_0000_0000_0000);
    assert(s[5] == 0xFFF8_0000_0000_0000);
    assert(s[6] == 0x7FF8_0000_0000_0001);
    assert(s[8] == b.min_value);
    assert(s[9] == next_up_of(b.min_value));
    assert(s[10] == above);
    assert(s[11] == below);
    assert(s[12] == negated_bits(next_up_of(negated_bits(b.max_value))));
    assert(s[13] == b.max_value);
    assert(s[14] == 1);
    assert(s[15] == 0x8000_0000_0000_0001);
    assert(s[16] == 0x0008_0000_0000_0000);
    assert(s[17] == 0x8008_0000_0000_0000);
}

/// In a range of more than 127 the ends come up with a chance of 1/64, and their neighbours with
/// one of 1/128; in a smaller one nothing comes up more often.
pub proof fn ends_of_ranges_come_up(min: Option<int>, max: Option<int>, weights: Seq<(Int, u64)>)
    requires
        weighs(min, max, weights),
    ensures
        min is None || max is None ==> weights.len() == 0,
        min is Some && max is Some && max->0 - min->0 <= 127 ==> weights.len() == 0,
        min is Some && max is Some && max->0 - min->0 > 127 ==> {
            &&& weights.len() == 4
            &&& (weights[0].0)@ == min->0 && weights[0].1 == 0x3F90_0000_0000_0000
            &&& (weights[1].0)@ == min->0 + 1 && weights[1].1 == 0x3F80_0000_0000_0000
            &&& (weights[2].0)@ == max->0 - 1 && weights[2].1 == 0x3F80_0000_0000_0000
            &&& (weights[3].0)@ == max->0 && weights[3].1 == 0x3F90_0000_0000_0000
        },
{
}

/// A day is a peculiar one of a year: the first, the last, or the leap day.
pub open spec fn is_peculiar(o: int, y: int) -> bool {
    ||| o == date_ordinal(y, 1, 1)
    ||| o == date_ordinal(y, 12, 31)
    ||| o == date_ordinal(y, 2, 29) && leap_year(y)
}

proof fn lemma_peculiar_days(from: int, until: int, low: int, high: int, o: int)
    ensures
        peculiar_days(from, until, low, high).contains(o) <==> low <= o <= high && exists|y: int|
            from <= y < until && #[trigger] is_peculiar(o, y),
    decreases until - from,
{
    broadcast use vstd::seq_lib::group_filter_ensures;

    if from < until {
        let y = until - 1;
        let rest = peculiar_days(from, y, low, high);
        let f = |o: int| low <= o <= high;
        let own = year_days(y).filter(f);
        lemma_peculiar_days(from, y, low, high, o);
        assert(peculiar_days(from, until, low, high) == rest + own);
        assert(own.contains(o) <==> low <= o <= high && is_peculiar(o, y)) by {
            let days = year_days(y);
            if own.contains(o) {
                days.lemma_filter_contains_rev(f, o);
                assert(f(own[own.index_of(o)]));
            }
            if low <= o <= high && is_peculiar(o, y) {
                if leap_year(y) {
                    assert(days[0] == date_ordinal(y, 2, 29));
                    assert(days[1] == date_ordinal(y, 1, 1));
                    assert(days[2] == date_ordinal(y, 12, 31));
                } else {
                    assert(days[0] == date_ordinal(y, 1, 1));
                    assert(days[1] == date_ordinal(y, 12, 31));
                }
                assert(days.contains(o));
            }
        }
        let all = rest + own;
        if rest.contains(o) {
            assert(all[rest.index_of(o)] == o);
        }
        if own.contains(o) {
            assert(all[rest.len() + own.index_of(o)] == o);
        }
        if all.contains(o) {
            let k = all.index_of(o);
            if k < rest.len() {
                assert(rest[k] == o);
            } else {
                assert(own[k - rest.len()] == o);
            }
        }
        if exists|z: int| from <= z < until && #[trigger] is_peculiar(o, z) {
            let z = choose|z: int| from <= z < until && #[trigger] is_peculiar(o, z);
            assert(z < y || z == y);
        }
    }
}

/// The days that come up more often are the ends of the range, the first day of the year 2000
/// between them, and, where the range spans at most fifty years, the first and the last day of
/// each year and the leap days that lie in it.
pub proof fn peculiar_days_come_up(low: int, high: int, first_year: int, last_year: int, o: int)
    requires
        low <= high,
    ensures
        date_candidates(low, high, first_year, last_year).contains(o) <==> {
            ||| o == low
            ||| o == high
            ||| o == 730_120 && low < o < high
            ||| last_year - first_year <= 50 && low <= o <= high && exists|y: int|
                first_year <= y < last_year + 1 && #[trigger] is_peculiar(o, y)
        },
        date_ordinal(2000, 1, 1) == 730_120,
{
    let s = date_candidates(low, high, first_year, last_year);
    let days = peculiar_days(first_year, last_year + 1, low, high);
    lemma_peculiar_days(first_year, last_year + 1, low, high, o);
    let ends = seq![low, high];
    let middle = if low < 730_120 < high {
        ends.push(730_120)
    } else {
        ends
    };
    assert(s == (if last_year - first_year <= 50 {
        middle + days
    } else {
        middle
    }));
    assert(s[0] == low);
    assert(s[1] == high);
    if low < 730_120 < high {
        assert(s[2] == 730_120);
    }
    if last_year - first_year <= 50 && days.contains(o) {
        assert(s[middle.len() + days.index_of(o)] == o);
    }
    if s.contains(o) {
        let k = s.index_of(o);
        if k >= middle.len() {
            assert(days[k - middle.len()] == o);
        } else {
            assert(middle[k] == o);
        }
    }
    reveal_with_fuel(crate::calendar::days_before_month, 3);
}

} // verus!
