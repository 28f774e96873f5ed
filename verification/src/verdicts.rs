//! When a run ends, and what it ends with.
use crate::choice::ChoiceModel;
use crate::codec::decoded_all;
use crate::data::{Case, PrefixEntry};
use crate::engine::{
    at_the_start, counted_next, counted_on, deleted_from, ended, everything_tried, example_of,
    example_run, example_shown, failed_in, failed_so, fails_alike, goes_further, invalid_count,
    kind_of, lemma_example_played_back, made_along, made_at, made_next, one_kind, overrun_count,
    random_shown, replay_next, replayed_along, replayed_from, reported, result_fits, seed_at,
    shown_from, some_failed, tallied, valid_count, went_on, Counters, Example, Harness,
    OutcomeModel, Run, Settings,
};
use crate::runner::{comes_out, failed_with, played_back, OriginModel, Outcome};
use vstd::prelude::*;

verus! {

/// The example at a place failed in a way that none before it did.
#[verifier::opaque]
pub open spec fn new_at(made: Seq<Example>, i: int) -> bool {
    &&& 0 <= i < made.len()
    &&& made[i].outcome is Failed
    &&& forall|k: int|
        0 <= k < i ==> (#[trigger] made[k]).outcome != made[i].outcome
}

/// The search for more bugs is over: at least ten examples were made, and a thousand behind the
/// first bug, or as many behind the last new one as up to it.
pub open spec fn search_is_over(made: Seq<Example>) -> bool {
    made.len() >= 10 && exists|first: int, last: int|
        {
            &&& #[trigger] new_at(made, first) && #[trigger] new_at(made, last)
            &&& forall|i: int| #[trigger] new_at(made, i) ==> first <= i <= last
            &&& made.len() >= first + 1 + 1000 || made.len() >= 2 * (last + 1)
        }
}

/// Enough examples were rejected, and none was valid.
pub open spec fn gives_up(made: Seq<Example>, settings: Settings) -> bool {
    valid_count(made) == 0 && 0 < settings.invalid_cap <= invalid_count(made)
}

/// What the counters of a run say of its examples, of which `all` tells whether there are no
/// others.
spec fn counters_tell(c: Counters, made: Seq<Example>, settings: Settings, all: bool) -> bool {
    &&& c.call_count == made.len() && c.iters == made.len() - 1
    &&& c.valid == valid_count(made) && c.invalid == invalid_count(made)
    &&& bugs_told(c, made)
    &&& !c.keep_going ==> {
        ||| some_failed(made) && !settings.report_multiple_bugs
        ||| all
        ||| settings.report_multiple_bugs && search_is_over(made)
        ||| gives_up(made, settings)
    }
    &&& c.keep_going ==> {
        &&& !(some_failed(made) && !settings.report_multiple_bugs)
        &&& made.len() > 1 ==> !(settings.report_multiple_bugs && search_is_over(made))
            && !gives_up(made, settings)
    }
}

/// What the counters of a run say of the bugs.
spec fn bugs_told(c: Counters, made: Seq<Example>) -> bool {
    &&& some_failed(made) <==> c.first_bug_at is Some
    &&& c.first_bug_at is None ==> forall|i: int| !#[trigger] new_at(made, i)
    &&& c.first_bug_at is Some ==> spans_bugs(made, c.first_bug_at->0 - 1, c.last_bug_at - 1)
}

/// The first and the last failure of a new kind.
spec fn spans_bugs(made: Seq<Example>, first: int, last: int) -> bool {
    &&& new_at(made, first) && new_at(made, last)
    &&& forall|i: int| #[trigger] new_at(made, i) ==> first <= i <= last
}

proof fn lemma_over(made: Seq<Example>, first: int, last: int)
    requires
        spans_bugs(made, first, last),
    ensures
        search_is_over(made) <==> made.len() >= 10 && (made.len() >= first + 1 + 1000 || made.len()
            >= 2 * (last + 1)),
{
    if search_is_over(made) {
        let (f, l) = choose|f: int, l: int|
            {
                &&& #[trigger] new_at(made, f) && #[trigger] new_at(made, l)
                &&& forall|i: int| #[trigger] new_at(made, i) ==> f <= i <= l
                &&& made.len() >= f + 1 + 1000 || made.len() >= 2 * (l + 1)
            };
        assert(f == first && l == last);
    }
}

proof fn lemma_new_before(made: Seq<Example>, i: int)
    requires
        made.len() > 0,
        i < made.len() - 1,
    ensures
        new_at(made, i) <==> new_at(made.drop_last(), i),
{
    reveal(new_at);
    let front = made.drop_last();
    if new_at(made, i) {
        assert forall|k: int| 0 <= k < i implies (#[trigger] front[k]).outcome
            != front[i].outcome by {
            assert(made[k].outcome != made[i].outcome);
        }
    }
    if new_at(front, i) {
        assert forall|k: int| 0 <= k < i implies (#[trigger] made[k]).outcome
            != made[i].outcome by {
            assert(front[k].outcome != front[i].outcome);
        }
    }
}

proof fn lemma_new_last(made: Seq<Example>)
    requires
        made.len() > 0,
    ensures
        forall|i: int| #[trigger] new_at(made, i) ==> 0 <= i < made.len(),
        new_at(made, made.len() - 1) <==> kind_of(made.last(), made.drop_last()) is NewBug,
        some_failed(made) <==> some_failed(made.drop_last()) || made.last().outcome is Failed,
        kind_of(made.last(), made.drop_last()) is KnownBug ==> some_failed(made.drop_last()),
{
    reveal(new_at);
    let front = made.drop_last();
    let e = made.last();
    if e.outcome is Failed {
        let o = e.outcome->Failed_0;
        if failed_so(front, o) {
            let k = choose|k: int|
                0 <= k < front.len() && (#[trigger] front[k]).outcome == OutcomeModel::Failed(o);
            assert(made[k].outcome == made[made.len() - 1].outcome);
            assert(front[k].outcome is Failed);
        } else {
            assert forall|k: int| 0 <= k < made.len() - 1 implies (#[trigger] made[k]).outcome
                != made[made.len() - 1].outcome by {
                assert(front[k].outcome != OutcomeModel::Failed(o));
            }
        }
        assert(made[made.len() - 1].outcome is Failed);
    }
    if some_failed(front) {
        let k = choose|k: int| 0 <= k < front.len() && (#[trigger] front[k]).outcome is Failed;
        assert(made[k].outcome is Failed);
    }
    if some_failed(made) {
        let k = choose|k: int| 0 <= k < made.len() && (#[trigger] made[k]).outcome is Failed;
        if k < made.len() - 1 {
            assert(front[k].outcome is Failed);
        }
    }
}

proof fn lemma_counts_small(made: Seq<Example>)
    ensures
        valid_count(made) <= made.len(),
        invalid_count(made) <= made.len(),
    decreases made.len(),
{
    if made.len() > 0 {
        lemma_counts_small(made.drop_last());
    }
}

proof fn lemma_bugs_told(p: Counters, c: Counters, made: Seq<Example>)
    requires
        made.len() > 1,
        bugs_told(p, made.drop_last()),
        p.call_count == made.len() - 1,
        made.len() < 0x1000_0000_0000,
        c.call_count == made.len(),
        c.first_bug_at == tallied(p, kind_of(made.last(), made.drop_last())).first_bug_at,
        c.last_bug_at == tallied(p, kind_of(made.last(), made.drop_last())).last_bug_at,
    ensures
        bugs_told(c, made),
{
    let front = made.drop_last();
    let kind = kind_of(made.last(), front);
    let end = made.len() - 1;
    lemma_new_last(made);
    assert forall|i: int| #[trigger] new_at(made, i) implies (if i < end {
        new_at(front, i)
    } else {
        i == end && kind is NewBug
    }) by {
        if i < end {
            lemma_new_before(made, i);
        }
    }
    if p.first_bug_at is Some {
        let (f, l) = (p.first_bug_at->0 - 1, p.last_bug_at - 1);
        lemma_new_last(front);
        lemma_new_before(made, f);
        lemma_new_before(made, l);
        if kind is NewBug {
            assert(spans_bugs(made, f, end));
        } else {
            assert(spans_bugs(made, f, l));
        }
    } else if kind is NewBug {
        assert(spans_bugs(made, end, end));
    }
}

proof fn lemma_step(
    p: Counters,
    c: Counters,
    made: Seq<Example>,
    settings: Settings,
    before: bool,
    all: bool,
)
    requires
        1 < made.len() < 0x1000_0000_0000,
        counters_tell(p, made.drop_last(), settings, before),
        goes_further(p, settings),
        c == counted_on(
            p,
            kind_of(made.last(), made.drop_last()),
            settings,
            all,
            some_failed(made),
        ),
    ensures
        counters_tell(c, made, settings, all),
{
    let front = made.drop_last();
    lemma_new_last(made);
    lemma_counts_small(front);
    lemma_bugs_told(p, c, made);
    if c.first_bug_at is Some {
        lemma_over(made, c.first_bug_at->0 - 1, c.last_bug_at - 1);
    } else if search_is_over(made) {
        let f = choose|f: int, l: int|
            {
                &&& #[trigger] new_at(made, f) && #[trigger] new_at(made, l)
                &&& forall|i: int| #[trigger] new_at(made, i) ==> f <= i <= l
                &&& made.len() >= f + 1 + 1000 || made.len() >= 2 * (l + 1)
            };
        assert(false);
    }
    lemma_counts_small(made);
}

proof fn lemma_first(made: Seq<Example>, settings: Settings, c: Counters)
    requires
        made.len() == 1,
        c == (Counters {
            keep_going: !(made[0].outcome is Failed) || settings.report_multiple_bugs,
            ..tallied(at_the_start(), kind_of(made[0], Seq::empty()))
        }),
    ensures
        counters_tell(c, made, settings, false),
{
    let front = made.drop_last();
    assert(front =~= Seq::<Example>::empty());
    lemma_new_last(made);
    assert(valid_count(front) == 0 && invalid_count(front) == 0);
    assert(made.last() == made[0]);
    if c.first_bug_at is Some {
        assert(spans_bugs(made, 0, 0));
    } else {
        assert forall|i: int| !#[trigger] new_at(made, i) by {
            if new_at(made, i) {
                assert(i == 0);
            }
        }
    }
}

proof fn lemma_counted(p: Counters, made: Seq<Example>, settings: Settings, c: Counters) -> (all:
    bool)
    requires
        counted_next(p, made, settings, c),
    ensures
        c == counted_on(
            p,
            kind_of(made.last(), made.drop_last()),
            settings,
            all,
            some_failed(made),
        ),
        all ==> everything_tried(made),
{
    let later = choose|later: crate::tree::Tracker| #[trigger]
        crate::engine::remembers(later, made) && c == counted_on(
            p,
            kind_of(made.last(), made.drop_last()),
            settings,
            later.on && later.tree.all_seen(),
            some_failed(made),
        );
    let all = later.on && later.tree.all_seen();
    if all {
        let tree = later.tree;
        assert(tree.all_seen());
    }
    all
}

proof fn lemma_along<H: Harness>(
    fut: spec_fn(&mut H) -> H,
    made: Seq<Example>,
    settings: Settings,
    start: H,
    end: H,
    c: Counters,
) -> (r: (bool, Counters))
    requires
        made_along(fut, made, settings, start, end, c),
        0 < made.len() < 0x1000_0000_0000,
    ensures
        counters_tell(c, made, settings, r.0),
        r.0 ==> everything_tried(made),
        made.len() > 1 ==> goes_further(r.1, settings) && counters_tell(
            r.1,
            made.drop_last(),
            settings,
            false,
        ),
    decreases made.len(),
{
    if made.len() == 1 {
        lemma_first(made, settings, c);
        (false, c)
    } else {
        let (a, p) = choose|a: H, p: Counters| #[trigger]
            made_next(fut, made, settings, a, end, p, c, false) && made_along(
                fut,
                made.drop_last(),
                settings,
                start,
                a,
                p,
            );
        let (before, _) = lemma_along::<H>(fut, made.drop_last(), settings, start, a, p);
        let all = lemma_counted(p, made, settings, c);
        lemma_step(p, c, made, settings, before, all);
        (all, p)
    }
}

/// A run in which nothing saved failed ends for a reason: there are as many valid examples as
/// wanted, or ten times as many examples and a hundred more, or there are no others; or enough
/// bugs were found, or too much was rejected.
pub proof fn runs_end_for_a_reason<H: Harness>(
    fut: spec_fn(&mut H) -> H,
    run: Run,
    settings: Settings,
    before: H,
    left: H,
)
    requires
        result_fits(fut, run, settings, before, left),
        !some_failed(run.history.replayed@),
        run.result is Err ==> !(run.result->Err_0 is Raised) && !(run.result->Err_0 is TooSlow),
    ensures
        ({
            let made = run.history.made@;
            &&& made.len() > 0
            &&& {
                ||| valid_count(made) >= settings.max_examples
                ||| made.len() >= 10 * settings.max_examples + 101
                ||| everything_tried(made)
                ||| some_failed(made) && !settings.report_multiple_bugs
                ||| settings.report_multiple_bugs && search_is_over(made)
                ||| gives_up(made, settings)
            }
        }),
{
    let made = run.history.made@;
    let (d, c) = lemma_made::<H>(fut, run, settings, before, left);
    let _ = lemma_along::<H>(fut, made, settings, d.0, d.1, c);
}

proof fn lemma_made<H: Harness>(
    fut: spec_fn(&mut H) -> H,
    run: Run,
    settings: Settings,
    before: H,
    left: H,
) -> (r: ((H, H), Counters))
    requires
        result_fits(fut, run, settings, before, left),
        !some_failed(run.history.replayed@),
        run.result is Err ==> !(run.result->Err_0 is Raised) && !(run.result->Err_0 is TooSlow),
    ensures
        made_along(fut, run.history.made@, settings, r.0.0, r.0.1, r.1),
        !goes_further(r.1, settings),
        0 < run.history.made@.len() < 0x1000_0000_0000,
{
    let b = choose|b: H| #[trigger]
        replayed_from(
            fut,
            run.history.fetched@,
            run.history.replayed@,
            settings.buffer_limit,
            before,
            b,
        ) && went_on(fut, run, settings, b, left);
    let (d, c) = choose|d: H, c: Counters| #[trigger]
        made_along(fut, run.history.made@, settings, b, d, c) && ended(
            fut,
            run,
            settings,
            d,
            left,
            c,
        );
    ((b, d), c)
}

/// A run makes no example that it has no reason to make: none behind as many valid ones as
/// wanted, or behind ten times as many and a hundred more; none behind a failure where one is
/// enough, or where the search for others is over; and none behind as many rejected ones as it
/// puts up with.
pub proof fn runs_do_not_go_on_without_reason<H: Harness>(
    fut: spec_fn(&mut H) -> H,
    run: Run,
    settings: Settings,
    before: H,
    left: H,
)
    requires
        result_fits(fut, run, settings, before, left),
        !some_failed(run.history.replayed@),
        run.result is Err ==> !(run.result->Err_0 is Raised) && !(run.result->Err_0 is TooSlow),
    ensures
        ({
            let made = run.history.made@;
            let front = made.drop_last();
            &&& made.len() <= 10 * settings.max_examples + 101
            &&& made.len() > 1 ==> valid_count(front) < settings.max_examples && !(some_failed(
                front,
            ) && !settings.report_multiple_bugs)
            &&& made.len() > 2 ==> !(settings.report_multiple_bugs && search_is_over(front))
                && !gives_up(front, settings)
        }),
{
    let made = run.history.made@;
    let (d, c) = lemma_made::<H>(fut, run, settings, before, left);
    let _ = lemma_along::<H>(fut, made, settings, d.0, d.1, c);
}

/// A test that passes was called often enough: on as many valid examples as wanted, unless ten
/// times as many examples and a hundred more were made, or there are no others. Where no
/// example was rejected or skipped, and there are others, it was called on exactly as many as
/// wanted, and once at least.
pub proof fn passing_tests_were_called_often<H: Harness>(
    fut: spec_fn(&mut H) -> H,
    run: Run,
    settings: Settings,
    before: H,
    left: H,
)
    requires
        result_fits(fut, run, settings, before, left),
        run.result is Ok,
        run.result->Ok_0.reports@.len() == 0,
        !everything_tried(run.history.made@),
    ensures
        valid_count(run.history.made@) >= settings.max_examples || run.history.made@.len() >= 10
            * settings.max_examples + 100,
        (forall|i: int|
            0 <= i < run.history.made@.len() ==> (
            #[trigger] run.history.made@[i]).outcome is Valid) ==> run.history.made@.len() == (
        if settings.max_examples > 0 {
            settings.max_examples as int
        } else {
            1
        }),
{
    let made = run.history.made@;
    runs_end_for_a_reason::<H>(fut, run, settings, before, left);
    runs_do_not_go_on_without_reason::<H>(fut, run, settings, before, left);
    if forall|i: int| 0 <= i < made.len() ==> (#[trigger] made[i]).outcome is Valid {
        lemma_all_valid(made);
        lemma_all_valid(made.drop_last());
    }
}

proof fn lemma_all_valid(made: Seq<Example>)
    requires
        forall|i: int| 0 <= i < made.len() ==> (#[trigger] made[i]).outcome is Valid,
    ensures
        valid_count(made) == made.len(),
    decreases made.len(),
{
    if made.len() > 0 {
        let front = made.drop_last();
        assert forall|i: int| 0 <= i < front.len() implies (
        #[trigger] front[i]).outcome is Valid by {
            assert(made[i].outcome is Valid);
        }
        lemma_all_valid(front);
        assert(made[made.len() - 1].outcome is Valid);
    }
}

/// Whether a run complains depends on its examples: it does where examples were rejected and
/// none was valid, and only there; and that they were too large is said where each of them
/// ran out of room, and only there.
pub proof fn complaints_are_about_rejected_examples<H: Harness>(
    fut: spec_fn(&mut H) -> H,
    run: Run,
    settings: Settings,
    before: H,
    left: H,
)
    requires
        result_fits(fut, run, settings, before, left),
        !some_failed(run.history.replayed@) && !some_failed(run.history.made@),
        run.result is Err ==> !(run.result->Err_0 is Raised) && !(run.result->Err_0 is TooSlow),
    ensures
        ({
            let made = run.history.made@;
            let rejected = invalid_count(made) > 0 && valid_count(made) == 0;
            &&& run.result is Err <==> rejected
            &&& rejected ==> (run.result->Err_0 is TooLarge <==> overrun_count(made)
                == invalid_count(made))
        }),
{
}

/// The seeds of the examples follow each other, from the seed of the run on, and no two of the
/// first 2^64 are the same.
pub proof fn seeds_follow_each_other(seed: u64, n: int, m: int)
    requires
        0 <= n < m < 0x1_0000_0000_0000_0000,
    ensures
        seed_at(seed, 0) == seed,
        seed_at(seed, n) != seed_at(seed, m),
        seed_at(seed, n) == (if seed + n <= u64::MAX {
            seed + n
        } else {
            seed + n - u64::MAX - 1
        }),
{
}

/// A test whose choices fail in another way whenever they are played back is flaky: where its
/// failures are of one kind and it is to be shrunk, no failure is reported, but that it is
/// flaky, or what was raised.
pub proof fn changing_failures_are_flaky<H: Harness>(
    fut: spec_fn(&mut H) -> H,
    run: Run,
    settings: Settings,
    before: H,
    left: H,
)
    requires
        result_fits(fut, run, settings, before, left),
        some_failed(run.history.made@),
        one_kind(run.history.made@),
        settings.max_shrinks > 0,
        forall|choices: Seq<ChoiceModel>, origin: OriginModel, outcome: Outcome|
            #[trigger] failed_in(run.history.made@, origin, choices) && #[trigger] comes_out::<H>(
                choices,
                settings.buffer_limit,
                outcome,
            ) ==> outcome is Interesting && !failed_with(outcome, origin),
    ensures
        run.result is Err,
        run.result->Err_0 is Flaky || run.result->Err_0 is Raised,
{
    let made = run.history.made@;
    if !(run.result is Err && (run.result->Err_0 is Flaky || run.result->Err_0 is Raised)) {
        let (origin, choices) = choose|origin: OriginModel, choices: Seq<ChoiceModel>| #[trigger]
            failed_in(made, origin, choices) && fails_alike::<H>(
                choices,
                settings.buffer_limit,
                origin,
            );
        let outcome = choose|outcome: Outcome| #[trigger]
            comes_out::<H>(choices, settings.buffer_limit, outcome) && (outcome is Interesting
                ==> failed_with(outcome, origin));
        assert(false);
    }
}

// ---- what is saved ----------------------------------------------------------

/// How many of the first saved examples can be read.
pub open spec fn readable(fetched: Seq<Vec<u8>>, n: int) -> int
    decreases n,
{
    if n <= 0 {
        0
    } else {
        readable(fetched, n - 1) + (if decoded_all(fetched[n - 1]@) is Ok {
            1int
        } else {
            0int
        })
    }
}

/// A saved example was forgotten.
pub open spec fn forgotten<H: Harness>(value: Vec<u8>) -> bool {
    exists|h: &mut H| #[trigger] call_ensures(H::delete, (h, &value), ())
}

/// Every saved example that can be read is played back, in its turn, with the choices that were
/// saved; what cannot be read, or does not fail any more, is forgotten.
pub proof fn saved_examples_are_played_back_or_forgotten<H: Harness>(
    fut: spec_fn(&mut H) -> H,
    fetched: Seq<Vec<u8>>,
    replayed: Seq<Example>,
    buffer_limit: Option<u64>,
    start: H,
    end: H,
)
    requires
        replayed_along(fut, fetched, replayed, buffer_limit, start, end),
    ensures
        replayed.len() == readable(fetched, fetched.len() as int),
        forall|i: int|
            0 <= i < fetched.len() && decoded_all((#[trigger] fetched[i])@) is Err
                ==> forgotten::<H>(fetched[i]),
        forall|i: int|
            0 <= i < fetched.len() && decoded_all((#[trigger] fetched[i])@) is Ok ==> replayed_as::<
                H,
            >(fetched[i], replayed, readable(fetched, i), buffer_limit),
    decreases fetched.len(),
{
    if fetched.len() > 0 {
        let n = fetched.len() - 1;
        let front = fetched.drop_last();
        assert(fetched[n] == fetched.last());
        match decoded_all(fetched.last()@) {
            Err(_) => {
                let a = choose|a: H| #[trigger]
                    deleted_from(fut, a, end, fetched.last()) && replayed_along(
                        fut,
                        front,
                        replayed,
                        buffer_limit,
                        start,
                        a,
                    );
                saved_examples_are_played_back_or_forgotten::<H>(
                    fut,
                    front,
                    replayed,
                    buffer_limit,
                    start,
                    a,
                );
                assert(deleted_from(fut, a, end, fetched.last()));
                assert forall|i: int|
                    0 <= i < fetched.len() && decoded_all(
                        (#[trigger] fetched[i])@,
                    ) is Err implies forgotten::<H>(fetched[i]) by {
                    if i < n {
                        assert(front[i] == fetched[i]);
                    }
                }
                assert forall|i: int|
                    0 <= i < fetched.len() && decoded_all(
                        (#[trigger] fetched[i])@,
                    ) is Ok implies replayed_as::<H>(
                    fetched[i],
                    replayed,
                    readable(fetched, i),
                    buffer_limit,
                ) by {
                    assert(front[i] == fetched[i]);
                    lemma_readable(fetched, front, i);
                }
                lemma_readable(fetched, front, n);
            },
            Ok(choices) => {
                let a = choose|a: H| #[trigger]
                    replay_next(
                        fut,
                        fetched.last(),
                        choices,
                        replayed.last(),
                        buffer_limit,
                        a,
                        end,
                    ) && replayed_along(
                        fut,
                        front,
                        replayed.drop_last(),
                        buffer_limit,
                        start,
                        a,
                    );
                saved_examples_are_played_back_or_forgotten::<H>(
                    fut,
                    front,
                    replayed.drop_last(),
                    buffer_limit,
                    start,
                    a,
                );
                lemma_readable(fetched, front, n);
                assert(replay_next(
                    fut,
                    fetched.last(),
                    choices,
                    replayed.last(),
                    buffer_limit,
                    a,
                    end,
                ));
                lemma_replayed::<H>(
                    fut,
                    fetched.last(),
                    choices,
                    replayed.last(),
                    buffer_limit,
                    a,
                    end,
                );
                assert forall|i: int|
                    0 <= i < fetched.len() && decoded_all(
                        (#[trigger] fetched[i])@,
                    ) is Err implies forgotten::<H>(fetched[i]) by {
                    assert(front[i] == fetched[i]);
                }
                assert forall|i: int|
                    0 <= i < fetched.len() && decoded_all(
                        (#[trigger] fetched[i])@,
                    ) is Ok implies replayed_as::<H>(
                    fetched[i],
                    replayed,
                    readable(fetched, i),
                    buffer_limit,
                ) by {
                    if i < n {
                        assert(front[i] == fetched[i]);
                        lemma_readable(fetched, front, i);
                        let k = readable(fetched, i);
                        assert(replayed_as::<H>(
                            fetched[i],
                            replayed.drop_last(),
                            k,
                            buffer_limit,
                        ));
                        assert(replayed.drop_last()[k] == replayed[k]);
                    } else {
                        assert(replayed[replayed.len() - 1] == replayed.last());
                    }
                }
            },
        }
    }
}

/// A saved example is the one that was played back at a place, and was forgotten if it did not
/// fail.
pub open spec fn replayed_as<H: Harness>(
    value: Vec<u8>,
    replayed: Seq<Example>,
    k: int,
    buffer_limit: Option<u64>,
) -> bool {
    &&& 0 <= k < replayed.len()
    &&& ran_back::<H>(decoded_all(value@)->Ok_0, replayed[k], buffer_limit)
    &&& !(replayed[k].outcome is Failed) ==> forgotten::<H>(value)
}

/// An example came out of playing back choices.
pub open spec fn ran_back<H: Harness>(
    choices: Seq<ChoiceModel>,
    e: Example,
    buffer_limit: Option<u64>,
) -> bool {
    exists|after: Case, o: Outcome|
        #[trigger] played_back::<H>(choices, buffer_limit, after, Ok(o)) && e == example_of(
            o,
            after,
        )
}

proof fn lemma_replayed<H: Harness>(
    fut: spec_fn(&mut H) -> H,
    value: Vec<u8>,
    choices: Seq<ChoiceModel>,
    e: Example,
    buffer_limit: Option<u64>,
    before: H,
    left: H,
)
    requires
        replay_next(fut, value, choices, e, buffer_limit, before, left),
    ensures
        ran_back::<H>(choices, e, buffer_limit),
        !(e.outcome is Failed) ==> forgotten::<H>(value),
{
    let (case, a) = choose|case: Case, a: H|
        {
            &&& case.only_replays(choices, buffer_limit)
            &&& #[trigger] shown_from(fut, before, a, e, None, case)
            &&& if e.outcome is Failed {
                a == left
            } else {
                deleted_from(fut, a, left, value)
            }
        };
    let (after, o) = choose|after: Case, o: Outcome|
        #[trigger] example_run(fut, before, a, None, case, after, Ok(o)) && e == example_of(
            o,
            after,
        );
    lemma_example_played_back::<H>(fut, before, a, case, choices, buffer_limit, after, Ok(o));
    if !(e.outcome is Failed) {
        assert(deleted_from(fut, a, left, value));
    }
}

proof fn lemma_readable(fetched: Seq<Vec<u8>>, front: Seq<Vec<u8>>, n: int)
    requires
        front == fetched.drop_last(),
        fetched.len() > 0,
        n <= front.len(),
    ensures
        readable(fetched, n) == readable(front, n),
    decreases n,
{
    if n > 0 {
        lemma_readable(fetched, front, n - 1);
        assert(front[n - 1] == fetched[n - 1]);
    }
}

// ---- what is reported -------------------------------------------------------

/// Where all bugs are wanted, every failure of an example is reported, once; where one is
/// enough, and nothing saved failed, one is reported. There is a report if, and only if, an
/// example failed.
pub proof fn failures_are_reported<H: Harness>(
    fut: spec_fn(&mut H) -> H,
    run: Run,
    settings: Settings,
    before: H,
    left: H,
)
    requires
        result_fits(fut, run, settings, before, left),
        run.result is Ok,
    ensures
        ({
            let reports = run.result->Ok_0.reports@;
            let all = run.history.replayed@ + run.history.made@;
            &&& reports.len() > 0 <==> exists|i: int|
                0 <= i < all.len() && (#[trigger] all[i]).outcome is Failed
            &&& settings.report_multiple_bugs ==> forall|i: int|
                0 <= i < all.len() && (#[trigger] all[i]).outcome is Failed ==> exists|k: int|
                    0 <= k < reports.len() && (#[trigger] reports[k]).failure.origin@
                        == all[i].outcome->Failed_0
            &&& forall|i: int, j: int|
                0 <= i < j < reports.len() ==> (#[trigger] reports[i]).failure.origin@ != (
                #[trigger] reports[j]).failure.origin@
            &&& !settings.report_multiple_bugs && !some_failed(run.history.replayed@)
                ==> reports.len() <= 1
        }),
{
    let (replayed, made) = (run.history.replayed@, run.history.made@);
    let reports = run.result->Ok_0.reports@;
    let all = replayed + made;
    if some_failed(replayed) {
        let i = choose|i: int| 0 <= i < replayed.len() && (#[trigger] replayed[i]).outcome is Failed;
        assert(all[i].outcome is Failed);
    }
    if some_failed(made) {
        let i = choose|i: int| 0 <= i < made.len() && (#[trigger] made[i]).outcome is Failed;
        assert(all[replayed.len() + i].outcome is Failed);
    }
    if exists|i: int| 0 <= i < all.len() && (#[trigger] all[i]).outcome is Failed {
        let i = choose|i: int| 0 <= i < all.len() && (#[trigger] all[i]).outcome is Failed;
        if i < replayed.len() {
            assert(replayed[i].outcome is Failed);
        } else {
            assert(made[i - replayed.len()].outcome is Failed);
        }
    }
    if settings.report_multiple_bugs {
        assert forall|i: int| 0 <= i < all.len() && (
        #[trigger] all[i]).outcome is Failed implies exists|k: int|
            0 <= k < reports.len() && (#[trigger] reports[k]).failure.origin@
                == all[i].outcome->Failed_0 by {
            if i < replayed.len() {
                assert(reported(reports, replayed[i].outcome->Failed_0));
            } else {
                assert(reported(reports, made[i - replayed.len()].outcome->Failed_0));
            }
        }
    }
}

/// The first example that is made is the simplest one, and nothing is made where something
/// saved failed.
pub proof fn the_simplest_example_is_made_first<H: Harness>(
    fut: spec_fn(&mut H) -> H,
    run: Run,
    settings: Settings,
    before: H,
    left: H,
)
    requires
        result_fits(fut, run, settings, before, left),
    ensures
        run.history.made@.len() > 0 ==> exists|case: Case|
            {
                &&& #[trigger] example_shown::<H>(run.history.made@[0], None, case)
                &&& case.replay.prefix is Some && case.replay.prefix->0@ == seq![
                    PrefixEntry::Simplest { count: None },
                ]
                &&& settings.buffer_limit is None ==> case.max_length == 8192
                &&& settings.buffer_limit is Some ==> case.max_length == settings.buffer_limit->0
            },
        some_failed(run.history.replayed@) ==> run.history.made@.len() == 0,
        forall|i: int|
            0 < i < run.history.made@.len() ==> #[trigger] random_shown::<H>(
                run.history.made@[i],
                seed_at(settings.seed, i - 1),
                settings.buffer_limit,
                run.history.made@.take(i),
            ),
{
    let made = run.history.made@;
    if made.len() > 0 {
        assert(made_at::<H>(made, 0, settings));
    }
    assert forall|i: int| 0 < i < made.len() implies #[trigger] random_shown::<H>(
        made[i],
        seed_at(settings.seed, i - 1),
        settings.buffer_limit,
        made.take(i),
    ) by {
        assert(made_at::<H>(made, i, settings));
    }
}

} // verus!
