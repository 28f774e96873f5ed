//! Making a failing choice sequence simpler.
//!
//! A candidate is tried by playing it back; it counts only if the test fails again
//! with the same origin. Everything that was tried is kept in a log that exists for
//! proofs only, so that a pass can say what it tried and what it learned.
use crate::choice::{
    choice_at, choice_from_index, choice_index_of, choice_permitted, choice_to_index,
    float_at_index, models, Choice, ChoiceError, ChoiceModel, Constraints,
};
use crate::data::{node_wf, nodes_wf, recorded, Case, Node};
use crate::integer::Int;
use crate::intervalset::IntervalSet;
use crate::provider::fresh_seed;
use crate::runner::{
    failed_with, goes_through, played_back, run_one, Failure, Origin, OriginModel, Outcome, Raised,
    Subject,
};
use vstd::prelude::*;

verus! {

/// A candidate that was tried, and whether the test failed as before.
pub struct Trial {
    pub choices: Seq<ChoiceModel>,
    pub fails: bool,
}

/// A failure and the choices that lead to it.
#[derive(Debug)]
pub struct Bug {
    pub failure: Failure,
    pub choices: Vec<Choice>,
}

/// What has been tried so far.
pub struct Trials {
    pub calls: u64,
    /// Whether failures of other origins are kept.
    pub slip_enabled: bool,
    /// The failures of other origins that came up while shrinking.
    pub slipped: Vec<Bug>,
    /// How many bytes of choices a trial may make, if not the usual number.
    pub buffer_limit: Option<u64>,
    pub log: Ghost<Seq<Trial>>,
    /// The candidate whose trial was begun last, whether or not it came to an end.
    pub last: Ghost<Seq<ChoiceModel>>,
}

/// What stops the shrinking for good.
#[derive(Debug)]
pub enum Halt {
    Raised(Raised),
    Choice(ChoiceError),
}

/// `b` is `a` with something added.
pub open spec fn extends(a: Seq<Trial>, b: Seq<Trial>) -> bool {
    a.len() <= b.len() && forall|i: int| 0 <= i < a.len() ==> #[trigger] b[i] == a[i]
}

/// From place `from` of the log on, these choices were tried with this answer.
pub open spec fn tried(
    log: Seq<Trial>,
    from: int,
    choices: Seq<ChoiceModel>,
    fails: bool,
) -> bool {
    exists|i: int| from <= i < log.len() && #[trigger] log[i] == (Trial { choices, fails })
}

proof fn lemma_tried_stays(
    a: Seq<Trial>,
    b: Seq<Trial>,
    from: int,
    choices: Seq<ChoiceModel>,
    fails: bool,
)
    requires
        extends(a, b),
        0 <= from,
        tried(a, from, choices, fails),
    ensures
        tried(b, from, choices, fails),
{
    let i = choose|i: int| from <= i < a.len() && #[trigger] a[i] == (Trial { choices, fails });
    assert(b[i] == a[i]);
}

/// Some bug of this origin is kept.
pub open spec fn slipped_has(s: Seq<Bug>, origin: OriginModel) -> bool {
    exists|i: int| 0 <= i < s.len() && (#[trigger] s[i]).failure.origin@ == origin
}

/// No origin is kept twice.
pub open spec fn slipped_distinct(s: Seq<Bug>) -> bool {
    forall|i: int, j: int|
        0 <= i < j < s.len() ==> (#[trigger] s[i]).failure.origin@ != (
        #[trigger] s[j]).failure.origin@
}

/// How a counter that stays at its greatest value shows `n`.
pub open spec fn counted(n: nat) -> u64 {
    if n <= u64::MAX {
        n as u64
    } else {
        u64::MAX
    }
}

/// A trial tells how a run of its choices came out: whether it failed with the origin.
pub open spec fn shows<S: Subject>(
    t: Trial,
    buffer_limit: Option<u64>,
    origin: OriginModel,
) -> bool {
    exists|after: Case, outcome: Outcome|
        #[trigger] played_back::<S>(t.choices, buffer_limit, after, Ok(outcome)) && t.fails
            == failed_with(outcome, origin)
}

/// Every trial from place `from` on tells how a run came out.
pub open spec fn witnessed<S: Subject>(
    log: Seq<Trial>,
    from: int,
    buffer_limit: Option<u64>,
    origin: OriginModel,
) -> bool {
    forall|i: int| from <= i < log.len() ==> #[trigger] shows::<S>(log[i], buffer_limit, origin)
}

/// Choices and the failure that they lead to: a run of the choices failed like this.
pub open spec fn leads_to<S: Subject>(
    choices: Seq<ChoiceModel>,
    buffer_limit: Option<u64>,
    failure: Failure,
) -> bool {
    exists|after: Case| #[trigger]
        played_back::<S>(choices, buffer_limit, after, Ok(Outcome::Interesting(failure)))
}

/// The choices of each of the bugs lead to its failure.
pub open spec fn all_lead<S: Subject>(bugs: Seq<Bug>, buffer_limit: Option<u64>) -> bool {
    forall|i: int|
        0 <= i < bugs.len() ==> #[trigger] leads_to::<S>(
            models(bugs[i].choices@),
            buffer_limit,
            bugs[i].failure,
        )
}

/// The choices of each of the bugs were tried, and did not fail as was asked for.
pub open spec fn all_tried(bugs: Seq<Bug>, log: Seq<Trial>) -> bool {
    forall|i: int|
        0 <= i < bugs.len() ==> #[trigger] tried(log, 0, models(bugs[i].choices@), false)
}

proof fn lemma_one_more_trial(bugs: Seq<Bug>, more: Seq<Bug>, log: Seq<Trial>, t: Trial)
    requires
        all_tried(bugs, log),
        more == bugs || (more.len() == bugs.len() + 1 && more.drop_last() == bugs && !t.fails
            && models(more.last().choices@) == t.choices),
    ensures
        all_tried(more, log.push(t)),
{
    assert(log.push(t)[log.len() as int] == t);
    assert forall|i: int| 0 <= i < more.len() implies #[trigger] tried(
        log.push(t),
        0,
        models(more[i].choices@),
        false,
    ) by {
        if i < bugs.len() {
            assert(more[i] == bugs[i]) by {
                if more != bugs {
                    assert(more.drop_last()[i] == bugs[i]);
                }
            }
            assert(tried(log, 0, models(bugs[i].choices@), false));
            lemma_tried_stays(log, log.push(t), 0, models(bugs[i].choices@), false);
        } else {
            assert(log.push(t)[log.len() as int] == Trial {
                choices: models(more[i].choices@),
                fails: false,
            });
        }
    }
}

impl Trials {
    pub open spec fn wf(&self) -> bool {
        &&& self.calls == counted(self.log@.len())
        &&& slipped_distinct(self.slipped@)
    }

    /// `self` has what `other` has and perhaps more, and then the trial of `candidate`
    /// was begun and raised this error: it is counted, and has no answer in the log.
    pub open spec fn broke_off<S: Subject>(
        &self,
        other: Trials,
        origin: OriginModel,
        halt: Halt,
        candidate: Seq<ChoiceModel>,
    ) -> bool {
        &&& self.last@ == candidate
        &&& self.calls == counted(self.log@.len() + 1)
        &&& slipped_distinct(self.slipped@)
        &&& extends(other.log@, self.log@)
        &&& self.slip_enabled == other.slip_enabled
        &&& self.buffer_limit == other.buffer_limit
        &&& !self.slip_enabled ==> self.slipped == other.slipped
        &&& witnessed::<S>(self.log@, other.log@.len() as int, self.buffer_limit, origin)
        &&& all_lead::<S>(other.slipped@, self.buffer_limit) ==> all_lead::<S>(
            self.slipped@,
            self.buffer_limit,
        )
        &&& all_tried(other.slipped@, other.log@) ==> all_tried(self.slipped@, self.log@)
        &&& halt is Raised && exists|after: Case| #[trigger]
            played_back::<S>(candidate, self.buffer_limit, after, Err(halt->Raised_0))
    }

    /// `self` has what `other` has and perhaps more, all of it from runs.
    pub open spec fn follows<S: Subject>(&self, other: Trials, origin: OriginModel) -> bool {
        &&& self.wf()
        &&& extends(other.log@, self.log@)
        &&& self.slip_enabled == other.slip_enabled
        &&& self.buffer_limit == other.buffer_limit
        &&& !self.slip_enabled ==> self.slipped == other.slipped
        &&& witnessed::<S>(self.log@, other.log@.len() as int, self.buffer_limit, origin)
        &&& all_lead::<S>(other.slipped@, self.buffer_limit) ==> all_lead::<S>(
            self.slipped@,
            self.buffer_limit,
        )
        &&& all_tried(other.slipped@, other.log@) ==> all_tried(self.slipped@, self.log@)
    }

    pub fn new(slip_enabled: bool, buffer_limit: Option<u64>) -> (r: Trials)
        ensures
            r.wf(),
            r.calls == 0,
            r.log@.len() == 0,
            r.slip_enabled == slip_enabled,
            r.buffer_limit == buffer_limit,
            r.slipped@.len() == 0,
    {
        Trials {
            calls: 0,
            slip_enabled,
            slipped: Vec::new(),
            buffer_limit,
            log: Ghost(Seq::empty()),
            last: Ghost(Seq::empty()),
        }
    }

    /// Keeps a failure of another origin, the first one of each.
    pub fn record_slip(&mut self, failure: Failure, choices: &Vec<Choice>)
        requires
            old(self).wf(),
        ensures
            final(self).wf(),
            final(self).log == old(self).log,
            final(self).last == old(self).last,
            final(self).calls == old(self).calls,
            final(self).slip_enabled == old(self).slip_enabled,
            final(self).buffer_limit == old(self).buffer_limit,
            slipped_has(old(self).slipped@, failure.origin@) ==> final(self).slipped
                == old(self).slipped,
            !slipped_has(old(self).slipped@, failure.origin@) ==> {
                &&& final(self).slipped@.len() == old(self).slipped@.len() + 1
                &&& final(self).slipped@.drop_last() == old(self).slipped@
                &&& final(self).slipped@.last().failure == failure
                &&& models(final(self).slipped@.last().choices@) == models(choices@)
            },
    {
        let mut i: usize = 0;
        while i < self.slipped.len()
            invariant
                i <= self.slipped.len(),
                *self == *old(self),
                old(self).wf(),
                forall|k: int|
                    0 <= k < i ==> (#[trigger] self.slipped@[k]).failure.origin@ != failure.origin@,
            decreases self.slipped.len() - i,
        {
            if self.slipped[i].failure.origin.same(&failure.origin) {
                return ;
            }
            i = i + 1;
        }
        let ghost before = self.slipped@;
        self.slipped.push(Bug { failure, choices: crate::choice::copy_choices(choices) });
        proof {
            assert(self.slipped@.drop_last() =~= before);
            assert forall|a: int, b: int| 0 <= a < b < self.slipped@.len() implies (
            #[trigger] self.slipped@[a]).failure.origin@ != (
            #[trigger] self.slipped@[b]).failure.origin@ by {
                assert(self.slipped@[a] == before[a]);
                if b < before.len() {
                    assert(self.slipped@[b] == before[b]);
                }
            }
        }
    }
}

/// Tries a candidate: whether the test fails on it with the given origin.
pub fn trial_fails<S: Subject>(
    subject: &mut S,
    trials: &mut Trials,
    choices: &Vec<Choice>,
    origin: &Origin,
) -> (r: Result<bool, Halt>)
    requires
        old(trials).wf(),
    ensures
        r is Ok ==> final(trials).follows::<S>(*old(trials), origin@),
        r is Ok ==> final(trials).log@ == old(trials).log@.push(
            Trial { choices: models(choices@), fails: r->Ok_0 },
        ),
        r is Ok ==> exists|after: Case, outcome: Outcome|
            {
                &&& #[trigger] played_back::<S>(
                    models(choices@),
                    old(trials).buffer_limit,
                    after,
                    Ok(outcome),
                )
                &&& r->Ok_0 == failed_with(outcome, origin@)
                &&& old(trials).slip_enabled && outcome is Interesting && !r->Ok_0
                    && !slipped_has(
                    old(trials).slipped@,
                    outcome->Interesting_0.origin@,
                ) ==> {
                    &&& final(trials).slipped@.len() == old(trials).slipped@.len() + 1
                    &&& final(trials).slipped@.drop_last() == old(trials).slipped@
                    &&& final(trials).slipped@.last().failure == outcome->Interesting_0
                    &&& models(final(trials).slipped@.last().choices@) == models(choices@)
                }
            },
        r is Err ==> r->Err_0 is Raised && goes_through::<S>(r->Err_0->Raised_0),
        r is Err ==> final(trials).broke_off::<S>(*old(trials), origin@, r->Err_0, models(choices@)),
        r is Err ==> final(trials).log == old(trials).log,
{
    if trials.calls < u64::MAX {
        trials.calls = trials.calls + 1;
    }
    proof {
        trials.last@ = models(choices@);
    }
    let case = Case::new_for_choices(choices, fresh_seed(), trials.buffer_limit);
    let (_case, outcome) = run_one(subject, case, None);
    proof {
        assert(played_back::<S>(models(choices@), trials.buffer_limit, _case, outcome));
        if outcome is Ok {
            let t = Trial {
                choices: models(choices@),
                fails: failed_with(outcome->Ok_0, origin@),
            };
            assert(played_back::<S>(t.choices, trials.buffer_limit, _case, Ok(outcome->Ok_0)));
            assert(shows::<S>(t, trials.buffer_limit, origin@));
        }
    }
    let fails = match outcome {
        Err(raised) => {
            return Err(Halt::Raised(raised));
        },
        Ok(Outcome::Interesting(failure)) => {
            if failure.origin.same(origin) {
                true
            } else {
                proof {
                    let t = Trial { choices: models(choices@), fails: false };
                    trials.log@ = trials.log@.push(t);
                }
                let ghost kept = trials.slipped@;
                if trials.slip_enabled {
                    trials.record_slip(failure, choices);
                }
                proof {
                    if all_tried(kept, old(trials).log@) {
                        lemma_one_more_trial(
                            kept,
                            trials.slipped@,
                            old(trials).log@,
                            Trial { choices: models(choices@), fails: false },
                        );
                    }
                    assert(leads_to::<S>(models(choices@), trials.buffer_limit, failure));
                    if all_lead::<S>(kept, trials.buffer_limit) {
                        assert forall|i: int| 0 <= i < trials.slipped@.len() implies
                            #[trigger] leads_to::<S>(
                            models(trials.slipped@[i].choices@),
                            trials.buffer_limit,
                            trials.slipped@[i].failure,
                        ) by {
                            if i < kept.len() {
                                assert(trials.slipped@[i] == kept[i]) by {
                                    if trials.slipped@.len() > kept.len() {
                                        assert(trials.slipped@.drop_last()[i] == kept[i]);
                                    }
                                }
                                assert(leads_to::<S>(
                                    models(kept[i].choices@),
                                    trials.buffer_limit,
                                    kept[i].failure,
                                ));
                            }
                        }
                    }
                }
                return Ok(false);
            }
        },
        Ok(_) => false,
    };
    proof {
        let t = Trial { choices: models(choices@), fails };
        if all_tried(trials.slipped@, trials.log@) {
            lemma_one_more_trial(trials.slipped@, trials.slipped@, trials.log@, t);
        }
        trials.log@ = trials.log@.push(t);
    }
    Ok(fails)
}

// ---- deleting ---------------------------------------------------------------

/// `s` without the `size` elements from `start` on.
pub open spec fn without<A>(s: Seq<A>, start: int, size: int) -> Seq<A> {
    s.take(start) + s.skip(start + size)
}

/// The size of a block that is deleted.
pub open spec fn is_block_size(size: int) -> bool {
    size == 8 || size == 4 || size == 3 || size == 2 || size == 1
}

/// The sizes of the blocks that are deleted, in turn.
pub open spec fn block_size(round: int) -> int {
    if round == 0 {
        8
    } else if round == 1 {
        4
    } else if round == 2 {
        3
    } else if round == 3 {
        2
    } else {
        1
    }
}

/// What deleting leaves, given everything that was tried and learned on the way:
/// in every round the blocks are tried from left to right, a block that the failure
/// does not need goes, and one that it needs is stepped over.
pub open spec fn deleted(
    current: Seq<ChoiceModel>,
    round: int,
    start: int,
    log: Seq<Trial>,
) -> Option<Seq<ChoiceModel>>
    decreases 5 - round, log.len(), current.len() - start,
{
    if round >= 5 {
        if log.len() == 0 {
            Some(current)
        } else {
            None
        }
    } else if start < 0 || start + block_size(round) > current.len() {
        deleted(current, round + 1, 0, log)
    } else if log.len() == 0 || log[0].choices != without(current, start, block_size(round)) {
        None
    } else if log[0].fails {
        deleted(log[0].choices, round, start, log.drop_first())
    } else {
        deleted(current, round, start + 1, log.drop_first())
    }
}

fn without_block(choices: &Vec<Choice>, start: usize, size: usize) -> (r: Vec<Choice>)
    requires
        start + size <= choices@.len(),
    ensures
        models(r@) == without(models(choices@), start as int, size as int),
{
    let mut out: Vec<Choice> = Vec::new();
    let mut j: usize = 0;
    let ghost all = models(choices@);
    proof {
        assert(models(out@) =~= Seq::<ChoiceModel>::empty());
    }
    while j < choices.len()
        invariant
            j <= choices.len(),
            start + size <= choices.len(),
            all == models(choices@),
            models(out@) =~= (if j < start {
                all.take(j as int)
            } else if j < start + size {
                all.take(start as int)
            } else {
                all.take(start as int) + all.subrange(start + size, j as int)
            }),
        decreases choices.len() - j,
    {
        if j < start || j >= start + size {
            let ghost before = models(out@);
            out.push(choices[j].clone());
            proof {
                assert(models(out@) =~= before.push(all[j as int]));
            }
        }
        j = j + 1;
    }
    proof {
        assert(models(out@) =~= without(all, start as int, size as int));
    }
    out
}

/// The new part of a log.
pub open spec fn since(now: Trials, then: Trials) -> Seq<Trial> {
    now.log@.skip(then.log@.len() as int)
}

/// Some trial failed as before.
pub open spec fn any_fails(log: Seq<Trial>) -> bool {
    exists|i: int| 0 <= i < log.len() && (#[trigger] log[i]).fails
}

/// A log is consumed step by step: what is left of the whole is determined by what
/// is left of the log.
proof fn lemma_deleted_step(
    first: Seq<ChoiceModel>,
    current: Seq<ChoiceModel>,
    round: int,
    start: int,
    done: Seq<Trial>,
    t: Trial,
)
    requires
        forall|rest: Seq<Trial>| #[trigger]
            deleted(first, 0, 0, done + rest) == deleted(current, round, start, rest),
        0 <= round < 5,
        0 <= start,
        start + block_size(round) <= current.len(),
        t.choices == without(current, start, block_size(round)),
    ensures
        forall|rest: Seq<Trial>| #[trigger]
            deleted(first, 0, 0, done.push(t) + rest) == (if t.fails {
                deleted(t.choices, round, start, rest)
            } else {
                deleted(current, round, start + 1, rest)
            }),
{
    assert forall|rest: Seq<Trial>| #[trigger]
        deleted(first, 0, 0, done.push(t) + rest) == (if t.fails {
            deleted(t.choices, round, start, rest)
        } else {
            deleted(current, round, start + 1, rest)
        }) by {
        let more = seq![t] + rest;
        assert(done.push(t) + rest =~= done + more);
        assert(deleted(first, 0, 0, done + more) == deleted(current, round, start, more));
        assert(more[0] == t);
        assert(more.drop_first() =~= rest);
    }
}

/// Deletes blocks of choices that the failure does not need.
pub fn delete_pass<S: Subject>(
    subject: &mut S,
    trials: &mut Trials,
    choices: Vec<Choice>,
    origin: &Origin,
) -> (r: Result<(Vec<Choice>, bool), Halt>)
    requires
        old(trials).wf(),
    ensures
        r is Ok ==> final(trials).follows::<S>(*old(trials), origin@),
        r is Ok ==> deleted(models(choices@), 0, 0, since(*final(trials), *old(trials))) == Some(
            models(r->Ok_0.0@),
        ),
        r is Ok ==> r->Ok_0.1 == any_fails(since(*final(trials), *old(trials))),
        r is Ok && !r->Ok_0.1 ==> models(r->Ok_0.0@) == models(choices@),
        r is Ok && !r->Ok_0.1 ==> forall|x: int, size: int|
            is_block_size(size) && 0 <= x && x + size <= choices@.len() ==> tried(
                final(trials).log@,
                old(trials).log@.len() as int,
                #[trigger] without(models(choices@), x, size),
                false,
            ),
        r is Ok && r->Ok_0.1 ==> r->Ok_0.0@.len() < choices@.len() && tried(
            final(trials).log@,
            old(trials).log@.len() as int,
            models(r->Ok_0.0@),
            true,
        ),
        r is Err ==> r->Err_0 is Raised && goes_through::<S>(r->Err_0->Raised_0),
        r is Err ==> final(trials).broke_off::<S>(*old(trials), origin@, r->Err_0, final(trials).last@),
{
    let ghost first = models(choices@);
    let ghost log0 = trials.log@;
    let ghost n0 = log0.len() as int;
    let mut current = choices;
    let mut improved = false;
    let mut round: usize = 0;
    let ghost mut done: Seq<Trial> = Seq::empty();
    proof {
        assert forall|rest: Seq<Trial>| #[trigger]
            deleted(first, 0, 0, done + rest) == deleted(first, 0, 0, rest) by {
            assert(done + rest =~= rest);
        }
        assert(trials.log@ =~= log0 + done);
    }
    while round < 5
        invariant
            round <= 5,
            trials.follows::<S>(*old(trials), origin@),
            log0 == old(trials).log@,
            n0 == log0.len(),
            trials.log@ == log0 + done,
            first == models(choices@),
            improved == any_fails(done),
            !improved ==> models(current@) == first,
            !improved ==> forall|x: int, k: int|
                0 <= k < round && 0 <= x && x + block_size(k) <= choices@.len() ==> tried(
                    trials.log@,
                    n0,
                    #[trigger] without(first, x, block_size(k)),
                    false,
                ),
            improved ==> current@.len() < choices@.len() && tried(
                trials.log@,
                n0,
                models(current@),
                true,
            ),
            forall|rest: Seq<Trial>| #[trigger]
                deleted(first, 0, 0, done + rest) == deleted(
                    models(current@),
                    round as int,
                    0,
                    rest,
                ),
        decreases 5 - round,
    {
        let size: usize = if round == 0 {
            8
        } else if round == 1 {
            4
        } else if round == 2 {
            3
        } else if round == 3 {
            2
        } else {
            1
        };
        let mut start: usize = 0;
        while size <= current.len() && start <= current.len() - size
            invariant
                round < 5,
                size == block_size(round as int),
                start <= current.len(),
                trials.follows::<S>(*old(trials), origin@),
                log0 == old(trials).log@,
                n0 == log0.len(),
                trials.log@ == log0 + done,
                first == models(choices@),
                improved == any_fails(done),
                !improved ==> models(current@) == first,
                !improved ==> forall|x: int, k: int|
                    0 <= k <= round && 0 <= x && x + block_size(k) <= choices@.len() && (k < round
                        || x < start) ==> tried(
                        trials.log@,
                        n0,
                        #[trigger] without(first, x, block_size(k)),
                        false,
                    ),
                improved ==> current@.len() < choices@.len() && tried(
                    trials.log@,
                    n0,
                    models(current@),
                    true,
                ),
                forall|rest: Seq<Trial>| #[trigger]
                    deleted(first, 0, 0, done + rest) == deleted(
                        models(current@),
                        round as int,
                        start as int,
                        rest,
                    ),
            decreases current.len() - start,
        {
            let ghost before_log = trials.log@;
            let ghost before = models(current@);
            let trial = without_block(&current, start, size);
            let fails = match trial_fails(subject, trials, &trial, origin) {
                Ok(f) => f,
                Err(e) => {
                    return Err(e);
                },
            };
            proof {
                let t = Trial { choices: models(trial@), fails };
                assert(before.len() == current@.len());
                lemma_deleted_step(first, before, round as int, start as int, done, t);
                let next = done.push(t);
                assert(trials.log@ =~= log0 + next);
                if improved {
                    let i = choose|i: int| 0 <= i < done.len() && (#[trigger] done[i]).fails;
                    assert(next[i].fails);
                    lemma_tried_stays(before_log, trials.log@, n0, before, true);
                }
                if fails {
                    assert(next[done.len() as int].fails);
                    assert(trials.log@[before_log.len() as int] == t);
                    assert(models(trial@).len() == trial@.len());
                } else if any_fails(next) {
                    let i = choose|i: int| 0 <= i < next.len() && (#[trigger] next[i]).fails;
                    assert(done[i].fails);
                }
                if !improved && !fails {
                    assert(trials.log@[before_log.len() as int] == t);
                    assert forall|x: int, k: int|
                        0 <= k <= round && 0 <= x && x + block_size(k) <= choices@.len() && (k
                            < round || x < start + 1) implies tried(
                        trials.log@,
                        n0,
                        #[trigger] without(first, x, block_size(k)),
                        false,
                    ) by {
                        if k < round || x < start {
                            lemma_tried_stays(
                                before_log,
                                trials.log@,
                                n0,
                                without(first, x, block_size(k)),
                                false,
                            );
                        }
                    }
                }
                done = next;
            }
            if fails {
                current = trial;
                improved = true;
            } else {
                start = start + 1;
            }
        }
        proof {
            assert(models(current@).len() == current@.len());
            assert(first.len() == choices@.len());
        }
        round = round + 1;
    }
    proof {
        if !improved {
            assert forall|x: int, size: int|
                is_block_size(size) && 0 <= x && x + size <= choices@.len() implies tried(
                trials.log@,
                n0,
                #[trigger] without(first, x, size),
                false,
            ) by {
                let k: int = if size == 8 {
                    0
                } else if size == 4 {
                    1
                } else if size == 3 {
                    2
                } else if size == 2 {
                    3
                } else {
                    4
                };
                assert(tried(trials.log@, n0, without(first, x, block_size(k)), false));
            }
        }
        assert(trials.log@.skip(n0) =~= done);
        assert(done + Seq::<Trial>::empty() =~= done);
        assert(deleted(first, 0, 0, done + Seq::<Trial>::empty()) == deleted(
            models(current@),
            5,
            0,
            Seq::<Trial>::empty(),
        ));
    }
    Ok((current, improved))
}

// ---- lowering ---------------------------------------------------------------

/// `s` with the element at every place of the group replaced by `c`.
pub open spec fn with_group(s: Seq<ChoiceModel>, group: Seq<usize>, c: ChoiceModel) -> Seq<
    ChoiceModel,
> {
    Seq::new(
        s.len(),
        |j: int|
            if in_group(group, j) {
                c
            } else {
                s[j]
            },
    )
}

/// `j` is one of the places.
pub open spec fn in_group(group: Seq<usize>, j: int) -> bool {
    exists|g: int| 0 <= g < group.len() && #[trigger] group[g] == j
}

fn group_has(group: &Vec<usize>, j: usize) -> (r: bool)
    ensures
        r == in_group(group@, j as int),
{
    let mut g: usize = 0;
    while g < group.len()
        invariant
            g <= group.len(),
            forall|k: int| 0 <= k < g ==> #[trigger] group@[k] != j,
        decreases group.len() - g,
    {
        if group[g] == j {
            return true;
        }
        g = g + 1;
    }
    false
}

/// `t` is the sequence with the group set to a choice of index `n`.
pub open spec fn lowered<S: Subject>(
    s: Seq<ChoiceModel>,
    group: Seq<usize>,
    k: Constraints,
    n: int,
    t: Seq<ChoiceModel>,
) -> bool {
    exists|c: ChoiceModel, mixed: u64|
        choice_at(n, k, mixed, Ok(c)) && t == #[trigger] with_group(s, group, c)
            && #[trigger] mixed_for::<S>(k, n, mixed)
}

/// The float that stands in for one out of bounds, by the subject's word; nothing of the
/// kind is needed for other choices.
pub open spec fn mixed_for<S: Subject>(k: Constraints, n: int, mixed: u64) -> bool {
    match k {
        Constraints::Float(bounds) => exists|s: &mut S| #[trigger]
            call_ensures(S::mix, (s, float_at_index(n), &bounds), mixed),
        _ => mixed == 0,
    }
}

/// The group was set to a choice of index `n` and tried with this answer.
pub open spec fn tried_at<S: Subject>(
    log: Seq<Trial>,
    from: int,
    s: Seq<ChoiceModel>,
    group: Seq<usize>,
    k: Constraints,
    n: int,
    fails: bool,
) -> bool {
    exists|t: Seq<ChoiceModel>| #[trigger]
        lowered::<S>(s, group, k, n, t) && tried(log, from, t, fails)
}

proof fn lemma_tried_at_stays<S: Subject>(
    a: Seq<Trial>,
    b: Seq<Trial>,
    from: int,
    s: Seq<ChoiceModel>,
    group: Seq<usize>,
    k: Constraints,
    n: int,
    fails: bool,
)
    requires
        extends(a, b),
        0 <= from,
        tried_at::<S>(a, from, s, group, k, n, fails),
    ensures
        tried_at::<S>(b, from, s, group, k, n, fails),
{
    let t = choose|t: Seq<ChoiceModel>| #[trigger]
        lowered::<S>(s, group, k, n, t) && tried(a, from, t, fails);
    lemma_tried_stays(a, b, from, t, fails);
}

/// Sets every place of the group to `value` and tries that.
fn try_value<S: Subject>(
    subject: &mut S,
    trials: &mut Trials,
    canonical: &Vec<Choice>,
    group: &Vec<usize>,
    value: &Choice,
    origin: &Origin,
) -> (r: Result<Option<Vec<Choice>>, Halt>)
    requires
        old(trials).wf(),
    ensures
        r is Ok ==> final(trials).follows::<S>(*old(trials), origin@),
        r is Ok ==> final(trials).log@ == old(trials).log@.push(
            Trial {
                choices: with_group(models(canonical@), group@, value@),
                fails: r->Ok_0 is Some,
            },
        ),
        r is Ok && r->Ok_0 is Some ==> models(r->Ok_0->0@) == with_group(
            models(canonical@),
            group@,
            value@,
        ),
        r is Err ==> r->Err_0 is Raised && goes_through::<S>(r->Err_0->Raised_0),
        r is Err ==> final(trials).broke_off::<S>(
            *old(trials),
            origin@,
            r->Err_0,
            with_group(models(canonical@), group@, value@),
        ),
        r is Err ==> final(trials).log == old(trials).log,
{
    let mut trial: Vec<Choice> = Vec::new();
    let mut j: usize = 0;
    let ghost target = with_group(models(canonical@), group@, value@);
    while j < canonical.len()
        invariant
            j <= canonical.len(),
            trial@.len() == j,
            target == with_group(models(canonical@), group@, value@),
            forall|x: int| 0 <= x < j ==> (#[trigger] trial@[x])@ == target[x],
        decreases canonical.len() - j,
    {
        if group_has(group, j) {
            trial.push(value.clone());
        } else {
            trial.push(canonical[j].clone());
        }
        j = j + 1;
    }
    proof {
        assert(models(trial@) =~= target);
    }
    match trial_fails(subject, trials, &trial, origin) {
        Ok(true) => Ok(Some(trial)),
        Ok(false) => Ok(None),
        Err(e) => Err(e),
    }
}

/// No choice has this index: the sequence would be too long.
pub open spec fn missing(k: Constraints, n: int) -> bool {
    choice_at(n, k, 0, Err(ChoiceError::TooLarge))
}

/// Sets every place of the group to the choice of index `index` and tries that.
fn try_index<S: Subject>(
    subject: &mut S,
    trials: &mut Trials,
    canonical: &Vec<Choice>,
    group: &Vec<usize>,
    index: &Int,
    k: &Constraints,
    origin: &Origin,
) -> (r: Result<Option<Vec<Choice>>, Halt>)
    requires
        old(trials).wf(),
        k.wf(),
        k is Text ==> crate::choice::holds_codepoints(k->Text_intervals),
    ensures
        r is Ok ==> final(trials).follows::<S>(*old(trials), origin@),
        r is Ok ==> final(trials).log@.len() == old(trials).log@.len() + 1,
        r is Ok ==> lowered::<S>(
            models(canonical@),
            group@,
            *k,
            index@,
            final(trials).log@.last().choices,
        ),
        r is Ok ==> final(trials).log@.last().fails == (r->Ok_0 is Some),
        r is Ok && r->Ok_0 is Some ==> models(r->Ok_0->0@) == final(trials).log@.last().choices,
        r is Ok ==> tried_at::<S>(
            final(trials).log@,
            old(trials).log@.len() as int,
            models(canonical@),
            group@,
            *k,
            index@,
            r->Ok_0 is Some,
        ),
        (r is Err && r->Err_0 is Choice) <==> missing(*k, index@),
        r is Err && r->Err_0 is Choice ==> r->Err_0->Choice_0 == ChoiceError::TooLarge
            && *final(trials) == *old(trials),
        r is Err && r->Err_0 is Raised ==> {
            &&& goes_through::<S>(r->Err_0->Raised_0)
            &&& final(trials).broke_off::<S>(*old(trials), origin@, r->Err_0, final(trials).last@)
            &&& final(trials).log == old(trials).log
            &&& lowered::<S>(models(canonical@), group@, *k, index@, final(trials).last@)
        },
{
    let mixed: u64 = match k {
        Constraints::Float(bounds) => {
            let f: u64 = crate::choice::float_from_index(index);
            subject.mix(f, bounds)
        },
        _ => 0,
    };
    let value = match choice_from_index(index, k, mixed) {
        Ok(v) => v,
        Err(e) => {
            return Err(Halt::Choice(e));
        },
    };
    let ghost log0 = trials.log@;
    let r = try_value(subject, trials, canonical, group, &value, origin);
    proof {
        if r is Ok {
            let t = with_group(models(canonical@), group@, value@);
            assert(mixed_for::<S>(*k, index@, mixed));
            assert(choice_at(index@, *k, mixed, Ok(value@)));
            assert(lowered::<S>(models(canonical@), group@, *k, index@, t));
            assert(trials.log@[log0.len() as int] == (Trial {
                choices: t,
                fails: r->Ok_0 is Some,
            }));
        } else {
            assert(mixed_for::<S>(*k, index@, mixed));
            assert(choice_at(index@, *k, mixed, Ok(value@)));
            assert(lowered::<S>(models(canonical@), group@, *k, index@, trials.last@));
        }
    }
    r
}

/// Looks for a smaller index that the whole group can take: the smallest one first,
/// then by halving the range.
///
/// Where nothing is found, index zero was refused, and so was the index just below
/// the present one, unless the test answered differently to the same choices.
fn lower_group<S: Subject>(
    subject: &mut S,
    trials: &mut Trials,
    canonical: &Vec<Choice>,
    group: &Vec<usize>,
    index: &Int,
    k: &Constraints,
    origin: &Origin,
) -> (r: Result<Option<Vec<Choice>>, Halt>)
    requires
        old(trials).wf(),
        k.wf(),
        k is Text ==> crate::choice::holds_codepoints(k->Text_intervals),
        index@ > 0,
    ensures
        r is Ok ==> final(trials).follows::<S>(*old(trials), origin@),
        r is Ok && r->Ok_0 is Some ==> {
            &&& tried(
                final(trials).log@,
                old(trials).log@.len() as int,
                models(r->Ok_0->0@),
                true,
            )
            &&& exists|n: int|
                0 <= n < index@ && #[trigger] lowered::<S>(
                    models(canonical@),
                    group@,
                    *k,
                    n,
                    models(r->Ok_0->0@),
                )
        },
        r is Ok && r->Ok_0 is None ==> refused::<S>(
            final(trials).log@,
            old(trials).log@.len() as int,
            models(canonical@),
            group@,
            *k,
            index@,
        ),
        r is Err && r->Err_0 is Choice ==> {
            &&& r->Err_0->Choice_0 == ChoiceError::TooLarge
            &&& final(trials).follows::<S>(*old(trials), origin@)
            &&& exists|n: int| 0 <= n < index@ && #[trigger] missing(*k, n)
        },
        missing(*k, 0) ==> r is Err && r->Err_0 is Choice,
        r is Err && r->Err_0 is Raised ==> {
            &&& goes_through::<S>(r->Err_0->Raised_0)
            &&& final(trials).broke_off::<S>(*old(trials), origin@, r->Err_0, final(trials).last@)
            &&& exists|n: int|
                0 <= n < index@ && #[trigger] lowered::<S>(
                    models(canonical@),
                    group@,
                    *k,
                    n,
                    final(trials).last@,
                )
        },
{
    let ghost n0 = trials.log@.len() as int;
    let ghost s = models(canonical@);
    let zero = Int::of(0);
    match try_index(subject, trials, canonical, group, &zero, k, origin) {
        Ok(Some(t)) => {
            proof {
                assert(lowered::<S>(s, group@, *k, 0, models(t@)));
                assert(trials.log@[n0] == (Trial { choices: models(t@), fails: true }));
            }
            return Ok(Some(t));
        },
        Ok(None) => {},
        Err(e) => {
            return Err(e);
        },
    }
    let one = Int::of(1);
    let two = Int::of(2);
    let mut lo = Int::of(0);
    let mut hi = index.clone();
    while one.less(&hi.minus(&lo))
        invariant
            trials.follows::<S>(*old(trials), origin@),
            n0 == old(trials).log@.len(),
            s == models(canonical@),
            k.wf(),
            k is Text ==> crate::choice::holds_codepoints(k->Text_intervals),
            one@ == 1,
            two@ == 2,
            0 <= lo@ < hi@ <= index@,
            tried_at::<S>(trials.log@, n0, s, group@, *k, 0, false),
            tried_at::<S>(trials.log@, n0, s, group@, *k, lo@, false),
            hi@ < index@ ==> tried_at::<S>(trials.log@, n0, s, group@, *k, hi@, true),
        decreases hi@ - lo@,
    {
        let ghost before = trials.log@;
        let mid = lo.plus(&hi).over(&two);
        proof {
            assert(lo@ < mid@ < hi@);
        }
        match try_index(subject, trials, canonical, group, &mid, k, origin) {
            Ok(found) => {
                proof {
                    let fails = found is Some;
                    lemma_tried_at_from::<S>(
                        trials.log@,
                        before.len() as int,
                        n0,
                        s,
                        group@,
                        *k,
                        mid@,
                        fails,
                    );
                    lemma_tried_at_stays::<S>(before, trials.log@, n0, s, group@, *k, 0, false);
                    lemma_tried_at_stays::<S>(before, trials.log@, n0, s, group@, *k, lo@, false);
                    if hi@ < index@ {
                        lemma_tried_at_stays::<S>(before, trials.log@, n0, s, group@, *k, hi@, true);
                    }
                }
                if found.is_some() {
                    hi = mid;
                } else {
                    lo = mid;
                }
            },
            Err(e) => {
                return Err(e);
            },
        }
    }
    if hi.less(index) {
        let ghost before = trials.log@;
        match try_index(subject, trials, canonical, group, &hi, k, origin) {
            Ok(Some(t)) => {
                proof {
                    assert(lowered::<S>(s, group@, *k, hi@, models(t@)));
                    assert(trials.log@[before.len() as int] == (Trial {
                        choices: models(t@),
                        fails: true,
                    }));
                }
                return Ok(Some(t));
            },
            Ok(None) => {
                proof {
                    lemma_tried_at_from::<S>(
                        trials.log@,
                        before.len() as int,
                        n0,
                        s,
                        group@,
                        *k,
                        hi@,
                        false,
                    );
                    lemma_tried_at_stays::<S>(before, trials.log@, n0, s, group@, *k, 0, false);
                    lemma_tried_at_stays::<S>(before, trials.log@, n0, s, group@, *k, hi@, true);
                }
            },
            Err(e) => {
                return Err(e);
            },
        }
    }
    Ok(None)
}

/// Index zero was refused, and so was the index below `index`, unless the test
/// contradicted itself on the way.
pub open spec fn refused<S: Subject>(
    log: Seq<Trial>,
    from: int,
    s: Seq<ChoiceModel>,
    group: Seq<usize>,
    k: Constraints,
    index: int,
) -> bool {
    &&& tried_at::<S>(log, from, s, group, k, 0, false)
    &&& tried_at::<S>(log, from, s, group, k, index - 1, false) || exists|n: int|
        0 < n < index && #[trigger] tried_at::<S>(log, from, s, group, k, n, true) && tried_at::<S>(
            log,
            from,
            s,
            group,
            k,
            n,
            false,
        )
}

proof fn lemma_refused_stays<S: Subject>(
    a: Seq<Trial>,
    b: Seq<Trial>,
    from: int,
    s: Seq<ChoiceModel>,
    group: Seq<usize>,
    k: Constraints,
    index: int,
)
    requires
        extends(a, b),
        0 <= from,
        refused::<S>(a, from, s, group, k, index),
    ensures
        refused::<S>(b, from, s, group, k, index),
{
    lemma_tried_at_stays::<S>(a, b, from, s, group, k, 0, false);
    if tried_at::<S>(a, from, s, group, k, index - 1, false) {
        lemma_tried_at_stays::<S>(a, b, from, s, group, k, index - 1, false);
    } else {
        let n = choose|n: int|
            0 < n < index && #[trigger] tried_at::<S>(a, from, s, group, k, n, true) && tried_at::<S>(
                a,
                from,
                s,
                group,
                k,
                n,
                false,
            );
        lemma_tried_at_stays::<S>(a, b, from, s, group, k, n, true);
        lemma_tried_at_stays::<S>(a, b, from, s, group, k, n, false);
    }
}

proof fn lemma_refused_from<S: Subject>(
    log: Seq<Trial>,
    late: int,
    from: int,
    s: Seq<ChoiceModel>,
    group: Seq<usize>,
    k: Constraints,
    index: int,
)
    requires
        0 <= from <= late,
        refused::<S>(log, late, s, group, k, index),
    ensures
        refused::<S>(log, from, s, group, k, index),
{
    lemma_tried_at_from::<S>(log, late, from, s, group, k, 0, false);
    if tried_at::<S>(log, late, s, group, k, index - 1, false) {
        lemma_tried_at_from::<S>(log, late, from, s, group, k, index - 1, false);
    } else {
        let n = choose|n: int|
            0 < n < index && #[trigger] tried_at::<S>(log, late, s, group, k, n, true) && tried_at::<S>(
                log,
                late,
                s,
                group,
                k,
                n,
                false,
            );
        lemma_tried_at_from::<S>(log, late, from, s, group, k, n, true);
        lemma_tried_at_from::<S>(log, late, from, s, group, k, n, false);
    }
}

proof fn lemma_tried_from(
    log: Seq<Trial>,
    late: int,
    from: int,
    choices: Seq<ChoiceModel>,
    fails: bool,
)
    requires
        0 <= from <= late,
        tried(log, late, choices, fails),
    ensures
        tried(log, from, choices, fails),
{
    let i = choose|i: int| late <= i < log.len() && #[trigger] log[i] == (Trial {
        choices,
        fails,
    });
    assert(from <= i < log.len() && log[i] == (Trial { choices, fails }));
}

proof fn lemma_tried_at_from<S: Subject>(
    log: Seq<Trial>,
    late: int,
    from: int,
    s: Seq<ChoiceModel>,
    group: Seq<usize>,
    k: Constraints,
    n: int,
    fails: bool,
)
    requires
        0 <= from <= late,
        tried_at::<S>(log, late, s, group, k, n, fails),
    ensures
        tried_at::<S>(log, from, s, group, k, n, fails),
{
    let t = choose|t: Seq<ChoiceModel>| #[trigger]
        lowered::<S>(s, group, k, n, t) && tried(log, late, t, fails);
    lemma_tried_from(log, late, from, t, fails);
}

// ---- strings ----------------------------------------------------------------

/// So many places at the start of shrink order are tried one by one.
pub const LINEAR_CAP: i64 = 24;

/// The string without its character at `j`.
pub open spec fn dropped(t: Seq<u32>, j: int) -> Seq<u32> {
    without(t, j, 1)
}

/// The string with its character at `j` replaced by the one at place `n` of shrink
/// order.
pub open spec fn recast(t: Seq<u32>, j: int, set: IntervalSet, n: int) -> Seq<u32> {
    t.update(
        j,
        crate::intervalset::nth(
            set.intervals@,
            crate::intervalset::from_shrink_order(n, set.idx_of_zero as int, set.idx_of_z as int),
        ) as u32,
    )
}

/// The place of a string's character in shrink order.
pub open spec fn place_of(t: Seq<u32>, j: int, set: IntervalSet) -> int {
    crate::intervalset::to_shrink_order(
        crate::intervalset::ordinal(set.intervals@, t[j] as int)->0,
        set.idx_of_zero as int,
        set.idx_of_z as int,
    )
}

fn dropped_text(t: &Vec<u32>, j: usize) -> (r: Vec<u32>)
    requires
        j < t@.len(),
    ensures
        r@ == dropped(t@, j as int),
{
    let mut out: Vec<u32> = Vec::new();
    let mut x: usize = 0;
    while x < t.len()
        invariant
            x <= t.len(),
            j < t@.len(),
            out@ =~= (if x <= j {
                t@.take(x as int)
            } else {
                t@.take(j as int) + t@.subrange(j + 1, x as int)
            }),
        decreases t.len() - x,
    {
        if x != j {
            out.push(t[x]);
        }
        x = x + 1;
    }
    proof {
        assert(out@ =~= dropped(t@, j as int));
    }
    out
}

/// Tries the string with one character at another place of shrink order.
fn try_character<S: Subject>(
    subject: &mut S,
    trials: &mut Trials,
    canonical: &Vec<Choice>,
    group: &Vec<usize>,
    t: &Vec<u32>,
    j: usize,
    set: &IntervalSet,
    n: i64,
    origin: &Origin,
) -> (r: Result<Option<Vec<Choice>>, Halt>)
    requires
        old(trials).wf(),
        set.wf(),
        set.normal(),
        j < t@.len(),
        0 <= n < set.size,
    ensures
        r is Ok ==> final(trials).follows::<S>(*old(trials), origin@),
        r is Ok ==> final(trials).log@ == old(trials).log@.push(
            Trial {
                choices: with_group(
                    models(canonical@),
                    group@,
                    ChoiceModel::Text(recast(t@, j as int, *set, n as int)),
                ),
                fails: r->Ok_0 is Some,
            },
        ),
        r is Ok && r->Ok_0 is Some ==> models(r->Ok_0->0@) == with_group(
            models(canonical@),
            group@,
            ChoiceModel::Text(recast(t@, j as int, *set, n as int)),
        ),
        r is Err ==> r->Err_0 is Raised && goes_through::<S>(r->Err_0->Raised_0),
        r is Err ==> final(trials).broke_off::<S>(
            *old(trials),
            origin@,
            r->Err_0,
            with_group(
                models(canonical@),
                group@,
                ChoiceModel::Text(recast(t@, j as int, *set, n as int)),
            ),
        ),
        r is Err ==> final(trials).log == old(trials).log,
{
    proof {
        crate::intervalset::shrink_order_marks_are_ordered(*set);
        crate::intervalset::shrink_order_is_a_bijection(
            n as int,
            set.idx_of_zero as int,
            set.idx_of_z as int,
            set.size as int,
        );
    }
    let cp: i64 = match set.cp_in_shrink_order(n) {
        Ok(cp) => cp,
        Err(_) => 0,
    };
    let mut u = crate::choice::copy_text(t);
    u.set(j, cp as u32);
    proof {
        assert(u@ =~= recast(t@, j as int, *set, n as int));
    }
    try_value(subject, trials, canonical, group, &Choice::Text(u), origin)
}

/// The sequence with a simpler string at the group: one character less, or one
/// character earlier in shrink order.
pub open spec fn text_simplified(
    s: Seq<ChoiceModel>,
    group: Seq<usize>,
    t: Seq<u32>,
    set: IntervalSet,
    result: Seq<ChoiceModel>,
) -> bool {
    ||| exists|j: int|
        0 <= j < t.len() && result == with_group(
            s,
            group,
            ChoiceModel::Text(#[trigger] dropped(t, j)),
        )
    ||| exists|j: int, n: int|
        0 <= j < t.len() && 0 <= n < place_of(t, j, set) && result == with_group(
            s,
            group,
            ChoiceModel::Text(#[trigger] recast(t, j, set, n)),
        )
}

/// Every string with one character less was refused.
pub open spec fn text_refused(
    log: Seq<Trial>,
    from: int,
    s: Seq<ChoiceModel>,
    group: Seq<usize>,
    t: Seq<u32>,
) -> bool {
    forall|j: int|
        0 <= j < t.len() ==> tried(
            log,
            from,
            with_group(s, group, ChoiceModel::Text(#[trigger] dropped(t, j))),
            false,
        )
}

/// The string with its character at `j` at place `n` of shrink order was tried with this
/// answer.
pub open spec fn recast_tried(
    log: Seq<Trial>,
    from: int,
    s: Seq<ChoiceModel>,
    group: Seq<usize>,
    t: Seq<u32>,
    j: int,
    set: IntervalSet,
    n: int,
    fails: bool,
) -> bool {
    tried(log, from, with_group(s, group, ChoiceModel::Text(recast(t, j, set, n))), fails)
}

/// Every earlier place in shrink order was refused for the character at `j`: each one of the
/// first places, and behind them the place right before its own, unless the test contradicted
/// itself on the way.
pub open spec fn recasts_refused(
    log: Seq<Trial>,
    from: int,
    s: Seq<ChoiceModel>,
    group: Seq<usize>,
    t: Seq<u32>,
    j: int,
    set: IntervalSet,
) -> bool {
    let place = place_of(t, j, set);
    &&& forall|n: int|
        0 <= n < place && n < LINEAR_CAP ==> #[trigger] recast_tried(
            log,
            from,
            s,
            group,
            t,
            j,
            set,
            n,
            false,
        )
    &&& place > LINEAR_CAP ==> recast_tried(log, from, s, group, t, j, set, place - 1, false)
        || exists|n: int|
        LINEAR_CAP <= n < place && #[trigger] recast_tried(log, from, s, group, t, j, set, n, true)
            && recast_tried(log, from, s, group, t, j, set, n, false)
}

/// For every character every earlier place in shrink order was refused.
pub open spec fn characters_refused(
    log: Seq<Trial>,
    from: int,
    s: Seq<ChoiceModel>,
    group: Seq<usize>,
    t: Seq<u32>,
    set: IntervalSet,
) -> bool {
    forall|j: int|
        0 <= j < t.len() ==> #[trigger] recasts_refused(log, from, s, group, t, j, set)
}

/// What was refused in a log was refused in one that goes on behind it, and from an earlier
/// place on.
proof fn lemma_recasts_carry(
    a: Seq<Trial>,
    b: Seq<Trial>,
    late: int,
    from: int,
    s: Seq<ChoiceModel>,
    group: Seq<usize>,
    t: Seq<u32>,
    j: int,
    set: IntervalSet,
)
    requires
        extends(a, b),
        0 <= from <= late,
        recasts_refused(a, late, s, group, t, j, set),
    ensures
        recasts_refused(b, from, s, group, t, j, set),
{
    let place = place_of(t, j, set);
    assert forall|n: int, fails: bool| #[trigger]
        recast_tried(a, late, s, group, t, j, set, n, fails) implies recast_tried(
        b,
        from,
        s,
        group,
        t,
        j,
        set,
        n,
        fails,
    ) by {
        let c = with_group(s, group, ChoiceModel::Text(recast(t, j, set, n)));
        lemma_tried_from(a, late, from, c, fails);
        lemma_tried_stays(a, b, from, c, fails);
    }
    assert forall|n: int| 0 <= n < place && n < LINEAR_CAP implies #[trigger] recast_tried(
        b,
        from,
        s,
        group,
        t,
        j,
        set,
        n,
        false,
    ) by {
        assert(recast_tried(a, late, s, group, t, j, set, n, false));
    }
    if place > LINEAR_CAP && !recast_tried(a, late, s, group, t, j, set, place - 1, false) {
        let n = choose|n: int|
            LINEAR_CAP <= n < place && #[trigger] recast_tried(
                a,
                late,
                s,
                group,
                t,
                j,
                set,
                n,
                true,
            ) && recast_tried(a, late, s, group, t, j, set, n, false);
        assert(recast_tried(b, from, s, group, t, j, set, n, true));
    }
}

proof fn lemma_characters_carry(
    a: Seq<Trial>,
    b: Seq<Trial>,
    late: int,
    from: int,
    s: Seq<ChoiceModel>,
    group: Seq<usize>,
    t: Seq<u32>,
    set: IntervalSet,
)
    requires
        extends(a, b),
        0 <= from <= late,
        characters_refused(a, late, s, group, t, set),
    ensures
        characters_refused(b, from, s, group, t, set),
{
    assert forall|j: int| 0 <= j < t.len() implies #[trigger] recasts_refused(
        b,
        from,
        s,
        group,
        t,
        j,
        set,
    ) by {
        assert(recasts_refused(a, late, s, group, t, j, set));
        lemma_recasts_carry(a, b, late, from, s, group, t, j, set);
    }
}

/// The character at place `j` is not in the alphabet, and the error names it.
pub open spec fn stranger(t: Seq<u32>, j: int, set: IntervalSet, h: Halt) -> bool {
    &&& crate::intervalset::ordinal(set.intervals@, t[j] as int) is None
    &&& h == Halt::Choice(
        ChoiceError::Interval(
            crate::intervalset::IntervalError::NotInList { value: t[j] as i64 },
        ),
    )
}

/// Looks for a simpler string at one place: every string with one character less,
/// then for each character the places before its own in shrink order, the first
/// ones one by one and the others by halving the range.
fn minimize_string_node<S: Subject>(
    subject: &mut S,
    trials: &mut Trials,
    canonical: &Vec<Choice>,
    group: &Vec<usize>,
    t: &Vec<u32>,
    set: &IntervalSet,
    origin: &Origin,
) -> (r: Result<Option<Vec<Choice>>, Halt>)
    requires
        old(trials).wf(),
        set.wf(),
        set.normal(),
    ensures
        r is Ok ==> final(trials).follows::<S>(*old(trials), origin@),
        r is Ok && r->Ok_0 is Some ==> tried(
            final(trials).log@,
            old(trials).log@.len() as int,
            models(r->Ok_0->0@),
            true,
        ) && text_simplified(
            models(canonical@),
            group@,
            t@,
            *set,
            models(r->Ok_0->0@),
        ),
        r is Ok && r->Ok_0 is None ==> text_refused(
            final(trials).log@,
            old(trials).log@.len() as int,
            models(canonical@),
            group@,
            t@,
        ),
        r is Ok && r->Ok_0 is None ==> characters_refused(
            final(trials).log@,
            old(trials).log@.len() as int,
            models(canonical@),
            group@,
            t@,
            *set,
        ),
        r is Err && r->Err_0 is Choice ==> {
            &&& final(trials).follows::<S>(*old(trials), origin@)
            &&& text_refused(
                final(trials).log@,
                old(trials).log@.len() as int,
                models(canonical@),
                group@,
                t@,
            )
            &&& exists|j: int| 0 <= j < t@.len() && #[trigger] stranger(t@, j, *set, r->Err_0)
        },
        r is Err && r->Err_0 is Raised ==> {
            &&& goes_through::<S>(r->Err_0->Raised_0)
            &&& final(trials).broke_off::<S>(*old(trials), origin@, r->Err_0, final(trials).last@)
            &&& text_simplified(models(canonical@), group@, t@, *set, final(trials).last@)
        },
{
    let ghost n0 = trials.log@.len() as int;
    let ghost s = models(canonical@);
    let mut j: usize = 0;
    while j < t.len()
        invariant
            j <= t.len(),
            trials.follows::<S>(*old(trials), origin@),
            n0 == old(trials).log@.len(),
            s == models(canonical@),
            forall|x: int|
                0 <= x < j ==> tried(
                    trials.log@,
                    n0,
                    with_group(s, group@, ChoiceModel::Text(#[trigger] dropped(t@, x))),
                    false,
                ),
        decreases t.len() - j,
    {
        let ghost before = trials.log@;
        let candidate = Choice::Text(dropped_text(t, j));
        match try_value(subject, trials, canonical, group, &candidate, origin) {
            Ok(Some(found)) => {
                proof {
                    assert(trials.log@[before.len() as int] == (Trial {
                        choices: models(found@),
                        fails: true,
                    }));
                    let u = dropped(t@, j as int);
                    assert(models(found@) == with_group(s, group@, ChoiceModel::Text(u)));
                }
                return Ok(Some(found));
            },
            Ok(None) => {
                proof {
                    let u = with_group(s, group@, ChoiceModel::Text(dropped(t@, j as int)));
                    assert(trials.log@[before.len() as int] == (Trial {
                        choices: u,
                        fails: false,
                    }));
                    assert forall|x: int| 0 <= x < j + 1 implies tried(
                        trials.log@,
                        n0,
                        with_group(s, group@, ChoiceModel::Text(#[trigger] dropped(t@, x))),
                        false,
                    ) by {
                        if x < j {
                            lemma_tried_stays(
                                before,
                                trials.log@,
                                n0,
                                with_group(s, group@, ChoiceModel::Text(dropped(t@, x))),
                                false,
                            );
                        }
                    }
                }
            },
            Err(e) => {
                return Err(e);
            },
        }
        j = j + 1;
    }
    let mut c: usize = 0;
    while c < t.len()
        invariant
            c <= t.len(),
            set.wf(),
            set.normal(),
            trials.follows::<S>(*old(trials), origin@),
            n0 == old(trials).log@.len(),
            s == models(canonical@),
            text_refused(trials.log@, n0, s, group@, t@),
            forall|x: int|
                0 <= x < c ==> #[trigger] recasts_refused(
                    trials.log@,
                    n0,
                    s,
                    group@,
                    t@,
                    x,
                    *set,
                ),
        decreases t.len() - c,
    {
        let ghost before = trials.log@;
        match minimize_character(subject, trials, canonical, group, t, c, set, origin) {
            Ok(Some(found)) => {
                proof {
                    lemma_tried_from(
                        trials.log@,
                        before.len() as int,
                        n0,
                        models(found@),
                        true,
                    );
                }
                return Ok(Some(found));
            },
            Ok(None) => {
                proof {
                    assert forall|x: int| 0 <= x < t@.len() implies tried(
                        trials.log@,
                        n0,
                        with_group(s, group@, ChoiceModel::Text(#[trigger] dropped(t@, x))),
                        false,
                    ) by {
                        lemma_tried_stays(
                            before,
                            trials.log@,
                            n0,
                            with_group(s, group@, ChoiceModel::Text(dropped(t@, x))),
                            false,
                        );
                    }
                    let here = before.len() as int;
                    assert forall|x: int| 0 <= x < c + 1 implies #[trigger] recasts_refused(
                        trials.log@,
                        n0,
                        s,
                        group@,
                        t@,
                        x,
                        *set,
                    ) by {
                        if x < c {
                            lemma_recasts_carry(before, trials.log@, n0, n0, s, group@, t@, x, *set);
                        } else {
                            lemma_recasts_carry(
                                trials.log@,
                                trials.log@,
                                here,
                                n0,
                                s,
                                group@,
                                t@,
                                x,
                                *set,
                            );
                        }
                    }
                }
            },
            Err(e) => {
                return Err(e);
            },
        }
        c = c + 1;
    }
    Ok(None)
}

/// Looks for an earlier place in shrink order for one character.
fn minimize_character<S: Subject>(
    subject: &mut S,
    trials: &mut Trials,
    canonical: &Vec<Choice>,
    group: &Vec<usize>,
    t: &Vec<u32>,
    j: usize,
    set: &IntervalSet,
    origin: &Origin,
) -> (r: Result<Option<Vec<Choice>>, Halt>)
    requires
        old(trials).wf(),
        set.wf(),
        set.normal(),
        j < t@.len(),
    ensures
        r is Ok ==> final(trials).follows::<S>(*old(trials), origin@),
        r is Ok && r->Ok_0 is Some ==> {
            &&& tried(
                final(trials).log@,
                old(trials).log@.len() as int,
                models(r->Ok_0->0@),
                true,
            )
            &&& exists|n: int|
                0 <= n < place_of(t@, j as int, *set) && models(r->Ok_0->0@) == with_group(
                    models(canonical@),
                    group@,
                    ChoiceModel::Text(#[trigger] recast(t@, j as int, *set, n)),
                )
        },
        r is Ok && r->Ok_0 is None ==> forall|n: int|
            0 <= n < place_of(t@, j as int, *set) && n < LINEAR_CAP ==> tried(
                final(trials).log@,
                old(trials).log@.len() as int,
                with_group(
                    models(canonical@),
                    group@,
                    ChoiceModel::Text(#[trigger] recast(t@, j as int, *set, n)),
                ),
                false,
            ),
        r is Ok && r->Ok_0 is None ==> recasts_refused(
            final(trials).log@,
            old(trials).log@.len() as int,
            models(canonical@),
            group@,
            t@,
            j as int,
            *set,
        ),
        (r is Err && r->Err_0 is Choice) <==> crate::intervalset::ordinal(
            set.intervals@,
            t@[j as int] as int,
        ) is None,
        r is Err && r->Err_0 is Choice ==> *final(trials) == *old(trials) && stranger(
            t@,
            j as int,
            *set,
            r->Err_0,
        ),
        r is Err && r->Err_0 is Raised ==> {
            &&& goes_through::<S>(r->Err_0->Raised_0)
            &&& final(trials).broke_off::<S>(*old(trials), origin@, r->Err_0, final(trials).last@)
            &&& exists|n: int|
                0 <= n < place_of(t@, j as int, *set) && final(trials).last@ == with_group(
                    models(canonical@),
                    group@,
                    ChoiceModel::Text(#[trigger] recast(t@, j as int, *set, n)),
                )
        },
{
    let ghost n0 = trials.log@.len() as int;
    let ghost s = models(canonical@);
    let place: i64 = match set.shrink_order_index_of_cp(t[j] as i64) {
        Ok(n) => n,
        Err(e) => {
            return Err(Halt::Choice(ChoiceError::Interval(e)));
        },
    };
    proof {
        crate::intervalset::member_survives_its_position(set.intervals@, t@[j as int] as int);
        crate::intervalset::shrink_order_marks_are_ordered(*set);
        crate::intervalset::shrink_order_is_a_bijection(
            crate::intervalset::ordinal(set.intervals@, t@[j as int] as int)->0,
            set.idx_of_zero as int,
            set.idx_of_z as int,
            set.size as int,
        );
    }
    let window: i64 = if place < LINEAR_CAP {
        place
    } else {
        LINEAR_CAP
    };
    let mut n: i64 = 0;
    while n < window
        invariant
            0 <= n <= window <= place < set.size,
            place == place_of(t@, j as int, *set),
            crate::intervalset::ordinal(set.intervals@, t@[j as int] as int) is Some,
            j < t@.len(),
            set.wf(),
            set.normal(),
            trials.follows::<S>(*old(trials), origin@),
            n0 == old(trials).log@.len(),
            s == models(canonical@),
            forall|x: int|
                0 <= x < n ==> tried(
                    trials.log@,
                    n0,
                    with_group(
                        s,
                        group@,
                        ChoiceModel::Text(#[trigger] recast(t@, j as int, *set, x)),
                    ),
                    false,
                ),
        decreases window - n,
    {
        let ghost before = trials.log@;
        match try_character(subject, trials, canonical, group, t, j, set, n, origin) {
            Ok(Some(found)) => {
                proof {
                    let u = recast(t@, j as int, *set, n as int);
                    assert(models(found@) == with_group(s, group@, ChoiceModel::Text(u)));
                    assert(trials.log@[before.len() as int] == (Trial {
                        choices: models(found@),
                        fails: true,
                    }));
                }
                return Ok(Some(found));
            },
            Ok(None) => {
                proof {
                    let u = with_group(
                        s,
                        group@,
                        ChoiceModel::Text(recast(t@, j as int, *set, n as int)),
                    );
                    assert(trials.log@[before.len() as int] == (Trial {
                        choices: u,
                        fails: false,
                    }));
                    assert forall|x: int| 0 <= x < n + 1 implies tried(
                        trials.log@,
                        n0,
                        with_group(
                            s,
                            group@,
                            ChoiceModel::Text(#[trigger] recast(t@, j as int, *set, x)),
                        ),
                        false,
                    ) by {
                        if x < n {
                            lemma_tried_stays(
                                before,
                                trials.log@,
                                n0,
                                with_group(
                                    s,
                                    group@,
                                    ChoiceModel::Text(recast(t@, j as int, *set, x)),
                                ),
                                false,
                            );
                        }
                    }
                }
            },
            Err(e) => {
                return Err(e);
            },
        }
        n = n + 1;
    }
    if place > LINEAR_CAP {
        let mut lo: i64 = LINEAR_CAP - 1;
        let mut hi: i64 = place;
        proof {
            let u = recast(t@, j as int, *set, lo as int);
            assert(tried(trials.log@, n0, with_group(s, group@, ChoiceModel::Text(u)), false));
        }
        while hi - lo > 1
            invariant
                LINEAR_CAP - 1 <= lo < hi <= place < set.size,
                place == place_of(t@, j as int, *set),
                crate::intervalset::ordinal(set.intervals@, t@[j as int] as int) is Some,
                j < t@.len(),
                set.wf(),
                set.normal(),
                trials.follows::<S>(*old(trials), origin@),
                n0 == old(trials).log@.len(),
                s == models(canonical@),
                forall|x: int|
                    0 <= x < LINEAR_CAP ==> tried(
                        trials.log@,
                        n0,
                        with_group(
                            s,
                            group@,
                            ChoiceModel::Text(#[trigger] recast(t@, j as int, *set, x)),
                        ),
                        false,
                    ),
                recast_tried(
                    trials.log@,
                    n0,
                    s,
                    group@,
                    t@,
                    j as int,
                    *set,
                    lo as int,
                    false,
                ),
                hi < place ==> recast_tried(
                    trials.log@,
                    n0,
                    s,
                    group@,
                    t@,
                    j as int,
                    *set,
                    hi as int,
                    true,
                ),
            decreases hi - lo,
        {
            let ghost before = trials.log@;
            let mid: i64 = lo + (hi - lo) / 2;
            match try_character(subject, trials, canonical, group, t, j, set, mid, origin) {
                Ok(found) => {
                    proof {
                        lemma_recasts_stay(before, trials.log@, n0, s, group@, t@, j as int, *set);
                        let at = |n: int|
                            with_group(
                                s,
                                group@,
                                ChoiceModel::Text(recast(t@, j as int, *set, n)),
                            );
                        lemma_tried_stays(before, trials.log@, n0, at(lo as int), false);
                        if hi < place {
                            lemma_tried_stays(before, trials.log@, n0, at(hi as int), true);
                        }
                        assert(trials.log@[before.len() as int] == (Trial {
                            choices: at(mid as int),
                            fails: found is Some,
                        }));
                    }
                    if found.is_some() {
                        hi = mid;
                    } else {
                        lo = mid;
                    }
                },
                Err(e) => {
                    return Err(e);
                },
            }
        }
        if hi < place {
            let ghost before = trials.log@;
            match try_character(subject, trials, canonical, group, t, j, set, hi, origin) {
                Ok(Some(found)) => {
                    proof {
                        let u = recast(t@, j as int, *set, hi as int);
                        assert(models(found@) == with_group(s, group@, ChoiceModel::Text(u)));
                        assert(trials.log@[before.len() as int] == (Trial {
                            choices: models(found@),
                            fails: true,
                        }));
                    }
                    return Ok(Some(found));
                },
                Ok(None) => {
                    proof {
                        lemma_recasts_stay(before, trials.log@, n0, s, group@, t@, j as int, *set);
                        let u = with_group(
                            s,
                            group@,
                            ChoiceModel::Text(recast(t@, j as int, *set, hi as int)),
                        );
                        lemma_tried_stays(before, trials.log@, n0, u, true);
                        assert(trials.log@[before.len() as int] == (Trial {
                            choices: u,
                            fails: false,
                        }));
                        assert(recast_tried(
                            trials.log@,
                            n0,
                            s,
                            group@,
                            t@,
                            j as int,
                            *set,
                            hi as int,
                            true,
                        ));
                    }
                },
                Err(e) => {
                    return Err(e);
                },
            }
        }
    }
    proof {
        assert forall|x: int| 0 <= x < place && x < LINEAR_CAP implies #[trigger] recast_tried(
            trials.log@,
            n0,
            s,
            group@,
            t@,
            j as int,
            *set,
            x,
            false,
        ) by {
            let u = recast(t@, j as int, *set, x);
            assert(tried(trials.log@, n0, with_group(s, group@, ChoiceModel::Text(u)), false));
        }
    }
    Ok(None)
}

proof fn lemma_recasts_stay(
    a: Seq<Trial>,
    b: Seq<Trial>,
    from: int,
    s: Seq<ChoiceModel>,
    group: Seq<usize>,
    t: Seq<u32>,
    j: int,
    set: IntervalSet,
)
    requires
        extends(a, b),
        0 <= from,
        forall|x: int|
            0 <= x < LINEAR_CAP ==> tried(
                a,
                from,
                with_group(s, group, ChoiceModel::Text(#[trigger] recast(t, j, set, x))),
                false,
            ),
    ensures
        forall|x: int|
            0 <= x < LINEAR_CAP ==> tried(
                b,
                from,
                with_group(s, group, ChoiceModel::Text(#[trigger] recast(t, j, set, x))),
                false,
            ),
{
    assert forall|x: int| 0 <= x < LINEAR_CAP implies tried(
        b,
        from,
        with_group(s, group, ChoiceModel::Text(#[trigger] recast(t, j, set, x))),
        false,
    ) by {
        lemma_tried_stays(
            a,
            b,
            from,
            with_group(s, group, ChoiceModel::Text(recast(t, j, set, x))),
            false,
        );
    }
}

// ---- the passes over nodes --------------------------------------------------

/// The floats that are tried by name.
pub open spec fn plain_floats() -> Seq<u64> {
    seq![0, crate::floats::SIGN, crate::floats::ONE, (crate::floats::SIGN + crate::floats::ONE) as u64]
}

/// The index of a node's value, where it has one that can be counted.
fn node_index(node: &Node) -> (r: Option<Int>)
    requires
        node_wf(*node),
    ensures
        r is Some ==> r->0@ == choice_index_of(node.value@, node.constraints),
        r is None ==> node.value is Text || node.value is Bytes,
        countable(*node) <==> r is Some,
{
    match &node.value {
        Choice::Text(_) => {
            return None;
        },
        Choice::Bytes(b) => {
            if b.len() > u32::MAX as usize {
                return None;
            }
        },
        _ => {},
    }
    match choice_to_index(&node.value, &node.constraints) {
        Ok(n) => Some(n),
        Err(_) => None,
    }
}

/// The node's value has an index by which it is lowered; strings are lowered
/// character by character instead.
pub open spec fn countable(n: Node) -> bool {
    !(n.value is Text) && (n.value is Bytes ==> n.value->Bytes_0@.len() <= u32::MAX)
}

/// The index of a node's value.
pub open spec fn index_of_node(n: Node) -> int {
    choice_index_of(n.value@, n.constraints)
}

/// `t` is `s` with a simpler choice at one node: lowered, one of the plain floats
/// with a smaller index, or a simpler string.
pub open spec fn node_simplified<S: Subject>(
    s: Seq<ChoiceModel>,
    i: int,
    node: Node,
    t: Seq<ChoiceModel>,
) -> bool {
    let group = seq![i as usize];
    ||| exists|n: int|
        0 <= n < index_of_node(node) && #[trigger] lowered::<S>(s, group, node.constraints, n, t)
    ||| exists|f: u64|
        t == #[trigger] with_group(s, group, ChoiceModel::Float(f)) && choice_index_of(
            ChoiceModel::Float(f),
            node.constraints,
        ) < index_of_node(node)
    ||| node.value is Text && node.constraints is Text && text_simplified(
        s,
        group,
        node.value->Text_0@,
        node.constraints->Text_intervals,
        t,
    )
}

/// Nothing simpler was accepted at a node: it was forced, or is the simplest, or
/// what was tried was refused.
pub open spec fn node_settled<S: Subject>(
    log: Seq<Trial>,
    from: int,
    s: Seq<ChoiceModel>,
    i: int,
    node: Node,
) -> bool {
    let group = seq![i as usize];
    ||| node.was_forced
    ||| node.value is Text && text_refused(log, from, s, group, node.value->Text_0@)
        && characters_refused(
        log,
        from,
        s,
        group,
        node.value->Text_0@,
        node.constraints->Text_intervals,
    )
    ||| !(node.value is Text) && (node.constraints is Float ==> floats_refused(
        log,
        from,
        s,
        group,
        node,
    )) && (!countable(node) || index_of_node(node) <= 0 || refused::<S>(
        log,
        from,
        s,
        group,
        node.constraints,
        index_of_node(node),
    ))
}

/// The plain floats that are permitted and simpler than the present one were refused.
pub open spec fn floats_refused(
    log: Seq<Trial>,
    from: int,
    s: Seq<ChoiceModel>,
    group: Seq<usize>,
    node: Node,
) -> bool {
    forall|f: u64| #[trigger]
        plain_floats().contains(f) && node.constraints.permits(ChoiceModel::Float(f))
            && choice_index_of(ChoiceModel::Float(f), node.constraints) < index_of_node(node)
            ==> tried(log, from, with_group(s, group, ChoiceModel::Float(f)), false)
}

proof fn lemma_floats_carry(
    a: Seq<Trial>,
    b: Seq<Trial>,
    late: int,
    from: int,
    s: Seq<ChoiceModel>,
    group: Seq<usize>,
    node: Node,
)
    requires
        extends(a, b),
        0 <= from <= late,
        floats_refused(a, late, s, group, node),
    ensures
        floats_refused(b, from, s, group, node),
{
    assert forall|f: u64| #[trigger]
        plain_floats().contains(f) && node.constraints.permits(ChoiceModel::Float(f))
            && choice_index_of(ChoiceModel::Float(f), node.constraints) < index_of_node(
            node,
        ) implies tried(b, from, with_group(s, group, ChoiceModel::Float(f)), false) by {
        let c = with_group(s, group, ChoiceModel::Float(f));
        lemma_tried_from(a, late, from, c, false);
        lemma_tried_stays(a, b, from, c, false);
    }
}

proof fn lemma_settled_stays<S: Subject>(
    a: Seq<Trial>,
    b: Seq<Trial>,
    from: int,
    s: Seq<ChoiceModel>,
    i: int,
    node: Node,
)
    requires
        extends(a, b),
        0 <= from,
        node_settled::<S>(a, from, s, i, node),
    ensures
        node_settled::<S>(b, from, s, i, node),
{
    let group = seq![i as usize];
    if node.was_forced {
    } else if node.value is Text {
        let t = node.value->Text_0@;
        assert forall|j: int| 0 <= j < t.len() implies tried(
            b,
            from,
            with_group(s, group, ChoiceModel::Text(#[trigger] dropped(t, j))),
            false,
        ) by {
            lemma_tried_stays(
                a,
                b,
                from,
                with_group(s, group, ChoiceModel::Text(dropped(t, j))),
                false,
            );
        }
        lemma_characters_carry(
            a,
            b,
            from,
            from,
            s,
            group,
            t,
            node.constraints->Text_intervals,
        );
    } else {
        if node.constraints is Float {
            lemma_floats_carry(a, b, from, from, s, group, node);
        }
        if countable(node) && index_of_node(node) > 0 {
            lemma_refused_stays::<S>(a, b, from, s, group, node.constraints, index_of_node(node));
        }
    }
}

/// Tries the plain floats that are permitted and simpler than the present one.
fn try_plain_floats<S: Subject>(
    subject: &mut S,
    trials: &mut Trials,
    canonical: &Vec<Choice>,
    group: &Vec<usize>,
    index: &Int,
    k: &Constraints,
    origin: &Origin,
) -> (r: Result<Option<Vec<Choice>>, Halt>)
    requires
        old(trials).wf(),
        k.wf(),
        k is Float,
    ensures
        r is Ok ==> final(trials).follows::<S>(*old(trials), origin@),
        r is Ok && r->Ok_0 is Some ==> {
            &&& tried(
                final(trials).log@,
                old(trials).log@.len() as int,
                models(r->Ok_0->0@),
                true,
            )
            &&& exists|f: u64|
                models(r->Ok_0->0@) == #[trigger] with_group(
                    models(canonical@),
                    group@,
                    ChoiceModel::Float(f),
                ) && choice_index_of(ChoiceModel::Float(f), *k) < index@
        },
        r is Ok && r->Ok_0 is None ==> forall|f: u64| #[trigger]
            plain_floats().contains(f) && k.permits(ChoiceModel::Float(f)) && choice_index_of(
                ChoiceModel::Float(f),
                *k,
            ) < index@ ==> tried(
                final(trials).log@,
                old(trials).log@.len() as int,
                with_group(models(canonical@), group@, ChoiceModel::Float(f)),
                false,
            ),
        r is Err ==> {
            &&& r->Err_0 is Raised
            &&& goes_through::<S>(r->Err_0->Raised_0)
            &&& final(trials).broke_off::<S>(*old(trials), origin@, r->Err_0, final(trials).last@)
            &&& exists|f: u64|
                final(trials).last@ == #[trigger] with_group(
                    models(canonical@),
                    group@,
                    ChoiceModel::Float(f),
                ) && plain_floats().contains(f) && k.permits(ChoiceModel::Float(f))
                    && choice_index_of(ChoiceModel::Float(f), *k) < index@
        },
{
    let ghost n0 = trials.log@.len() as int;
    let ghost s = models(canonical@);
    let plain: Vec<u64> = vec![0, crate::floats::SIGN, crate::floats::ONE, crate::floats::SIGN
        + crate::floats::ONE];
    proof {
        assert(plain@ =~= plain_floats());
    }
    let mut i: usize = 0;
    while i < plain.len()
        invariant
            i <= plain.len(),
            k.wf(),
            k is Float,
            plain@ == plain_floats(),
            trials.follows::<S>(*old(trials), origin@),
            n0 == old(trials).log@.len(),
            s == models(canonical@),
            forall|x: int|
                0 <= x < i ==> {
                    let f = #[trigger] plain@[x];
                    k.permits(ChoiceModel::Float(f)) && choice_index_of(ChoiceModel::Float(f), *k)
                        < index@ ==> tried(
                        trials.log@,
                        n0,
                        with_group(s, group@, ChoiceModel::Float(f)),
                        false,
                    )
                },
        decreases plain.len() - i,
    {
        let ghost before = trials.log@;
        let candidate = Choice::Float(plain[i]);
        let permitted = match choice_permitted(&candidate, k) {
            Ok(b) => b,
            Err(e) => {
                return Err(Halt::Choice(e));
            },
        };
        let smaller = match choice_to_index(&candidate, k) {
            Ok(n) => n.less(index),
            Err(e) => {
                return Err(Halt::Choice(e));
            },
        };
        if permitted && smaller {
            match try_value(subject, trials, canonical, group, &candidate, origin) {
                Ok(Some(found)) => {
                    proof {
                        let f = plain@[i as int];
                        assert(models(found@) == with_group(s, group@, ChoiceModel::Float(f)));
                        assert(trials.log@[before.len() as int] == (Trial {
                            choices: models(found@),
                            fails: true,
                        }));
                    }
                    return Ok(Some(found));
                },
                Ok(None) => {},
                Err(e) => {
                    return Err(e);
                },
            }
        }
        proof {
            assert forall|x: int| 0 <= x < i + 1 implies {
                let f = #[trigger] plain@[x];
                k.permits(ChoiceModel::Float(f)) && choice_index_of(ChoiceModel::Float(f), *k)
                    < index@ ==> tried(
                    trials.log@,
                    n0,
                    with_group(s, group@, ChoiceModel::Float(f)),
                    false,
                )
            } by {
                let f = plain@[x];
                if k.permits(ChoiceModel::Float(f)) && choice_index_of(ChoiceModel::Float(f), *k)
                    < index@ {
                    if x < i {
                        lemma_tried_stays(
                            before,
                            trials.log@,
                            n0,
                            with_group(s, group@, ChoiceModel::Float(f)),
                            false,
                        );
                    } else {
                        assert(trials.log@[before.len() as int] == (Trial {
                            choices: with_group(s, group@, ChoiceModel::Float(f)),
                            fails: false,
                        }));
                    }
                }
            }
        }
        i = i + 1;
    }
    proof {
        assert forall|f: u64| #[trigger] plain_floats().contains(f) && k.permits(
            ChoiceModel::Float(f),
        ) && choice_index_of(ChoiceModel::Float(f), *k) < index@ implies tried(
            trials.log@,
            n0,
            with_group(s, group@, ChoiceModel::Float(f)),
            false,
        ) by {
            let x = choose|x: int| 0 <= x < plain_floats().len() && plain_floats()[x] == f;
            assert(plain@[x] == f);
        }
    }
    Ok(None)
}

/// Why a simpler choice at a node could not be worked out: a choice of smaller index
/// is missing, or a character of a string is not in the alphabet.
pub open spec fn node_halts(node: Node, h: Halt) -> bool {
    ||| countable(node) && h == Halt::Choice(ChoiceError::TooLarge) && exists|n: int|
        0 <= n < index_of_node(node) && #[trigger] missing(node.constraints, n)
    ||| node.value is Text && node.constraints is Text && exists|j: int|
        0 <= j < node.value->Text_0@.len() && #[trigger] stranger(
            node.value->Text_0@,
            j,
            node.constraints->Text_intervals,
            h,
        )
}

/// Looks for a simpler choice at one node.
fn minimize_node<S: Subject>(
    subject: &mut S,
    trials: &mut Trials,
    canonical: &Vec<Choice>,
    i: usize,
    node: &Node,
    origin: &Origin,
) -> (r: Result<Option<Vec<Choice>>, Halt>)
    requires
        old(trials).wf(),
        node_wf(*node),
    ensures
        r is Ok ==> final(trials).follows::<S>(*old(trials), origin@),
        r is Ok && r->Ok_0 is Some ==> tried(
            final(trials).log@,
            old(trials).log@.len() as int,
            models(r->Ok_0->0@),
            true,
        ) && node_simplified::<S>(models(canonical@), i as int, *node, models(r->Ok_0->0@)),
        r is Ok && r->Ok_0 is None ==> node_settled::<S>(
            final(trials).log@,
            old(trials).log@.len() as int,
            models(canonical@),
            i as int,
            *node,
        ),
        r is Err ==> !node.was_forced,
        r is Err && r->Err_0 is Choice ==> final(trials).follows::<S>(*old(trials), origin@) && node_halts(
            *node,
            r->Err_0,
        ),
        r is Err && r->Err_0 is Raised ==> {
            &&& goes_through::<S>(r->Err_0->Raised_0)
            &&& final(trials).broke_off::<S>(*old(trials), origin@, r->Err_0, final(trials).last@)
            &&& node_simplified::<S>(models(canonical@), i as int, *node, final(trials).last@)
        },
{
    if node.was_forced {
        return Ok(None);
    }
    let ghost n0 = trials.log@.len() as int;
    let ghost s = models(canonical@);
    let group: Vec<usize> = vec![i];
    proof {
        assert(group@ =~= seq![i]);
        assert(group@ == seq![(i as int) as usize]);
    }
    if let Choice::Text(t) = &node.value {
        if let Constraints::Text { intervals, .. } = &node.constraints {
            return minimize_string_node(subject, trials, canonical, &group, t, intervals, origin);
        }
        return Ok(None);
    }
    let index = match node_index(node) {
        Some(n) => n,
        None => {
            return Ok(None);
        },
    };
    if let Constraints::Float(_) = &node.constraints {
        match try_plain_floats(
            subject,
            trials,
            canonical,
            &group,
            &index,
            &node.constraints,
            origin,
        ) {
            Ok(Some(found)) => {
                return Ok(Some(found));
            },
            Ok(None) => {},
            Err(e) => {
                return Err(e);
            },
        }
    }
    if !Int::of(0).less(&index) {
        return Ok(None);
    }
    let ghost before = trials.log@;
    let r = lower_group(
        subject,
        trials,
        canonical,
        &group,
        &index,
        &node.constraints,
        origin,
    );
    proof {
        if r is Ok && r->Ok_0 is Some {
            lemma_tried_from(trials.log@, before.len() as int, n0, models(r->Ok_0->0@), true);
        }
        if r is Ok && r->Ok_0 is None {
            lemma_refused_from::<S>(
                trials.log@,
                before.len() as int,
                n0,
                s,
                group@,
                node.constraints,
                index@,
            );
            if node.constraints is Float {
                lemma_floats_carry(before, trials.log@, n0, n0, s, group@, *node);
            }
        }
    }
    r
}

/// Looks for a simpler choice at any single node, from the first on.
pub fn minimize_individual_choices<S: Subject>(
    subject: &mut S,
    trials: &mut Trials,
    canonical: &Vec<Choice>,
    nodes: &Vec<Node>,
    origin: &Origin,
) -> (r: Result<Option<Vec<Choice>>, Halt>)
    requires
        old(trials).wf(),
        nodes_wf(nodes@),
    ensures
        r is Ok ==> final(trials).follows::<S>(*old(trials), origin@),
        r is Ok && r->Ok_0 is Some ==> {
            &&& tried(
                final(trials).log@,
                old(trials).log@.len() as int,
                models(r->Ok_0->0@),
                true,
            )
            &&& exists|i: int|
                0 <= i < nodes@.len() && #[trigger] node_simplified::<S>(
                    models(canonical@),
                    i,
                    nodes@[i],
                    models(r->Ok_0->0@),
                )
        },
        r is Ok && r->Ok_0 is None ==> forall|i: int|
            0 <= i < nodes@.len() ==> node_settled::<S>(
                final(trials).log@,
                old(trials).log@.len() as int,
                models(canonical@),
                i,
                #[trigger] nodes@[i],
            ),
        r is Err && r->Err_0 is Choice ==> final(trials).follows::<S>(*old(trials), origin@) && exists|i: int|
            0 <= i < nodes@.len() && !nodes@[i].was_forced && #[trigger] node_halts(
                nodes@[i],
                r->Err_0,
            ),
        r is Err && r->Err_0 is Raised ==> {
            &&& goes_through::<S>(r->Err_0->Raised_0)
            &&& final(trials).broke_off::<S>(*old(trials), origin@, r->Err_0, final(trials).last@)
            &&& exists|i: int|
                0 <= i < nodes@.len() && !nodes@[i].was_forced && #[trigger] node_simplified::<S>(
                    models(canonical@),
                    i,
                    nodes@[i],
                    final(trials).last@,
                )
        },
{
    let ghost n0 = trials.log@.len() as int;
    let ghost s = models(canonical@);
    let mut i: usize = 0;
    while i < nodes.len()
        invariant
            i <= nodes.len(),
            nodes_wf(nodes@),
            trials.follows::<S>(*old(trials), origin@),
            n0 == old(trials).log@.len(),
            s == models(canonical@),
            forall|x: int|
                0 <= x < i ==> node_settled::<S>(trials.log@, n0, s, x, #[trigger] nodes@[x]),
        decreases nodes.len() - i,
    {
        let ghost before = trials.log@;
        assert(node_wf(nodes@[i as int]));
        match minimize_node(subject, trials, canonical, i, &nodes[i], origin) {
            Ok(Some(found)) => {
                proof {
                    lemma_tried_from(trials.log@, before.len() as int, n0, models(found@), true);
                    assert(node_simplified::<S>(s, i as int, nodes@[i as int], models(found@)));
                }
                return Ok(Some(found));
            },
            Ok(None) => {
                proof {
                    assert forall|x: int| 0 <= x < i + 1 implies node_settled::<S>(
                        trials.log@,
                        n0,
                        s,
                        x,
                        #[trigger] nodes@[x],
                    ) by {
                        if x < i {
                            lemma_settled_stays::<S>(before, trials.log@, n0, s, x, nodes@[x]);
                        } else {
                            lemma_settled_from::<S>(
                                trials.log@,
                                before.len() as int,
                                n0,
                                s,
                                x,
                                nodes@[x],
                            );
                        }
                    }
                }
            },
            Err(e) => {
                return Err(e);
            },
        }
        i = i + 1;
    }
    Ok(None)
}

proof fn lemma_settled_from<S: Subject>(
    log: Seq<Trial>,
    late: int,
    from: int,
    s: Seq<ChoiceModel>,
    i: int,
    node: Node,
)
    requires
        0 <= from <= late,
        node_settled::<S>(log, late, s, i, node),
    ensures
        node_settled::<S>(log, from, s, i, node),
{
    let group = seq![i as usize];
    if node.was_forced {
    } else if node.value is Text {
        let t = node.value->Text_0@;
        assert forall|j: int| 0 <= j < t.len() implies tried(
            log,
            from,
            with_group(s, group, ChoiceModel::Text(#[trigger] dropped(t, j))),
            false,
        ) by {
            lemma_tried_from(
                log,
                late,
                from,
                with_group(s, group, ChoiceModel::Text(dropped(t, j))),
                false,
            );
        }
        lemma_characters_carry(
            log,
            log,
            late,
            from,
            s,
            group,
            t,
            node.constraints->Text_intervals,
        );
    } else {
        if node.constraints is Float {
            lemma_floats_carry(log, log, late, from, s, group, node);
        }
        if countable(node) && index_of_node(node) > 0 {
            lemma_refused_from::<S>(
                log,
                late,
                from,
                s,
                group,
                node.constraints,
                index_of_node(node),
            );
        }
    }
}

// ---- several nodes at once --------------------------------------------------

/// Longer sequences are not searched for nodes that belong together.
pub const MAX_COUPLED_NODES: usize = 256;

/// How far apart two nodes may be that are lowered together.
pub const PAIR_WINDOW: usize = 8;

/// The nodes of a group all have the value of node `a`.
pub open spec fn group_alike(group: Seq<usize>, nodes: Seq<Node>, a: int) -> bool {
    forall|g: int|
        0 <= g < group.len() ==> (#[trigger] group[g]) < nodes.len() && nodes[group[g] as int].value@
            == nodes[a].value@
}

/// From the first node of a group on, every node with the value of node `a` is in the group.
pub open spec fn group_whole(group: Seq<usize>, nodes: Seq<Node>, a: int) -> bool {
    &&& forall|g: int| 0 <= g < group.len() ==> group[0] <= #[trigger] group[g]
    &&& group[0] <= a
    &&& forall|b: int|
        group[0] <= b < nodes.len() && (#[trigger] nodes[b]).value@ == nodes[a].value@ ==> in_group(
            group,
            b,
        )
}

/// Node `a` was lowered together with the others of its value, and that was refused.
pub open spec fn alike_refused<S: Subject>(
    log: Seq<Trial>,
    from: int,
    s: Seq<ChoiceModel>,
    nodes: Seq<Node>,
    a: int,
) -> bool {
    exists|group: Seq<usize>|
        group.len() >= 2 && in_group(group, a) && group_alike(group, nodes, a) && group_whole(
            group,
            nodes,
            a,
        ) && #[trigger] refused::<S>(
            log,
            from,
            s,
            group,
            nodes[group[0] as int].constraints,
            index_of_node(nodes[group[0] as int]),
        )
}

proof fn lemma_alike_stays<S: Subject>(
    a: Seq<Trial>,
    b: Seq<Trial>,
    from: int,
    s: Seq<ChoiceModel>,
    nodes: Seq<Node>,
    x: int,
)
    requires
        extends(a, b),
        0 <= from,
        alike_refused::<S>(a, from, s, nodes, x),
    ensures
        alike_refused::<S>(b, from, s, nodes, x),
{
    let group = choose|group: Seq<usize>|
        group.len() >= 2 && in_group(group, x) && group_alike(group, nodes, x) && group_whole(
            group,
            nodes,
            x,
        ) && #[trigger] refused::<S>(
            a,
            from,
            s,
            group,
            nodes[group[0] as int].constraints,
            index_of_node(nodes[group[0] as int]),
        );
    lemma_refused_stays::<S>(
        a,
        b,
        from,
        s,
        group,
        nodes[group[0] as int].constraints,
        index_of_node(nodes[group[0] as int]),
    );
}

proof fn lemma_alike_from<S: Subject>(
    log: Seq<Trial>,
    late: int,
    from: int,
    s: Seq<ChoiceModel>,
    nodes: Seq<Node>,
    x: int,
)
    requires
        0 <= from <= late,
        alike_refused::<S>(log, late, s, nodes, x),
    ensures
        alike_refused::<S>(log, from, s, nodes, x),
{
    let group = choose|group: Seq<usize>|
        group.len() >= 2 && in_group(group, x) && group_alike(group, nodes, x) && group_whole(
            group,
            nodes,
            x,
        ) && #[trigger] refused::<S>(
            log,
            late,
            s,
            group,
            nodes[group[0] as int].constraints,
            index_of_node(nodes[group[0] as int]),
        );
    lemma_refused_from::<S>(
        log,
        late,
        from,
        s,
        group,
        nodes[group[0] as int].constraints,
        index_of_node(nodes[group[0] as int]),
    );
}

/// The nodes from `a` on that have its value and are not handled yet.
fn gather_group(nodes: &Vec<Node>, handled: &Vec<bool>, a: usize) -> (r: Vec<usize>)
    requires
        a < nodes@.len(),
        handled@.len() == nodes@.len(),
    ensures
        r@.len() >= 1,
        r@[0] == a,
        group_alike(r@, nodes@, a as int),
        forall|b: int|
            a < b < nodes@.len() && !handled@[b] && (#[trigger] nodes@[b]).value@
                == nodes@[a as int].value@ ==> in_group(r@, b),
        forall|g: int| 0 <= g < r@.len() ==> a <= #[trigger] r@[g],
{
    let count: usize = nodes.len();
    assert(a < count);
    let mut group: Vec<usize> = vec![a];
    let mut b: usize = a + 1;
    while b < nodes.len()
        invariant
            a < b <= nodes.len(),
            handled@.len() == nodes@.len(),
            group@.len() >= 1,
            group@[0] == a,
            group_alike(group@, nodes@, a as int),
            forall|x: int|
                a < x < b && !handled@[x] && (#[trigger] nodes@[x]).value@
                    == nodes@[a as int].value@ ==> in_group(group@, x),
            forall|g: int| 0 <= g < group@.len() ==> a <= #[trigger] group@[g],
        decreases nodes.len() - b,
    {
        let ghost before = group@;
        if !handled[b] && crate::choice::choice_equal(&nodes[a].value, &nodes[b].value) {
            group.push(b);
            proof {
                assert forall|g: int| 0 <= g < group@.len() implies (#[trigger] group@[g])
                    < nodes@.len() && nodes@[group@[g] as int].value@
                    == nodes@[a as int].value@ by {
                    if g < before.len() {
                        assert(group@[g] == before[g]);
                    }
                }
                assert(group@[before.len() as int] == b);
            }
        }
        proof {
            assert forall|x: int| a < x < b + 1 && !handled@[x] && (#[trigger] nodes@[x]).value@
                == nodes@[a as int].value@ implies in_group(group@, x) by {
                if x < b {
                    assert(in_group(before, x));
                    let g = choose|g: int| 0 <= g < before.len() && #[trigger] before[g] == x;
                    assert(group@[g] == x);
                }
            }
        }
        b = b + 1;
    }
    group
}

fn mark_handled(handled: &mut Vec<bool>, group: &Vec<usize>)
    requires
        forall|g: int| 0 <= g < group@.len() ==> (#[trigger] group@[g]) < old(handled)@.len(),
    ensures
        final(handled)@.len() == old(handled)@.len(),
        forall|x: int|
            0 <= x < final(handled)@.len() ==> (#[trigger] final(handled)@[x] <==> old(handled)@[x]
                || in_group(group@, x)),
{
    let mut g: usize = 0;
    while g < group.len()
        invariant
            g <= group.len(),
            handled@.len() == old(handled)@.len(),
            forall|y: int| 0 <= y < group@.len() ==> (#[trigger] group@[y]) < handled@.len(),
            forall|x: int|
                0 <= x < handled@.len() ==> (#[trigger] handled@[x] <==> old(handled)@[x]
                    || in_group(group@.take(g as int), x)),
        decreases group.len() - g,
    {
        let ghost before = handled@;
        let at: usize = group[g];
        handled.set(at, true);
        proof {
            let now = group@.take(g + 1);
            assert forall|x: int| 0 <= x < handled@.len() implies (#[trigger] handled@[x]
                <==> old(handled)@[x] || in_group(now, x)) by {
                assert(before[x] <==> old(handled)@[x] || in_group(group@.take(g as int), x));
                if in_group(group@.take(g as int), x) {
                    let y = choose|y: int|
                        0 <= y < group@.take(g as int).len() && #[trigger] group@.take(g as int)[y]
                            == x;
                    assert(now[y] == x);
                }
                if in_group(now, x) {
                    let y = choose|y: int| 0 <= y < now.len() && #[trigger] now[y] == x;
                    if y < g {
                        assert(group@.take(g as int)[y] == x);
                    }
                }
                if x == at {
                    assert(now[g as int] == x);
                }
            }
        }
        g = g + 1;
    }
    proof {
        assert(group@.take(g as int) =~= group@);
    }
}

/// Lowers the choices that have the same value together.
///
/// Where nothing is found, every node that could be lowered and has a later equal
/// was refused together with its equals.
pub fn minimize_duplicated_choices<S: Subject>(
    subject: &mut S,
    trials: &mut Trials,
    canonical: &Vec<Choice>,
    nodes: &Vec<Node>,
    origin: &Origin,
) -> (r: Result<Option<Vec<Choice>>, Halt>)
    requires
        old(trials).wf(),
        nodes_wf(nodes@),
    ensures
        r is Ok ==> final(trials).follows::<S>(*old(trials), origin@),
        r is Ok && r->Ok_0 is Some ==> tried(
            final(trials).log@,
            old(trials).log@.len() as int,
            models(r->Ok_0->0@),
            true,
        ) && exists|group: Seq<usize>, n: int|
            group.len() >= 2 && group_alike(group, nodes@, group[0] as int) && 0 <= n
                < index_of_node(nodes@[group[0] as int]) && #[trigger] lowered::<S>(
                models(canonical@),
                group,
                nodes@[group[0] as int].constraints,
                n,
                models(r->Ok_0->0@),
            ),
        r is Ok && r->Ok_0 is None && nodes@.len() <= MAX_COUPLED_NODES ==> forall|a: int, b: int|
            0 <= a < b < nodes@.len() && (#[trigger] nodes@[a]).value@ == (
            #[trigger] nodes@[b]).value@ && countable(nodes@[a]) && index_of_node(nodes@[a]) > 0
                ==> alike_refused::<S>(
                final(trials).log@,
                old(trials).log@.len() as int,
                models(canonical@),
                nodes@,
                a,
            ),
        nodes@.len() > MAX_COUPLED_NODES ==> r is Ok && r->Ok_0 is None,
        r is Err && r->Err_0 is Choice ==> final(trials).follows::<S>(*old(trials), origin@) && exists|a: int|
            0 <= a < nodes@.len() && #[trigger] node_halts(nodes@[a], r->Err_0),
        r is Err && r->Err_0 is Raised ==> {
            &&& goes_through::<S>(r->Err_0->Raised_0)
            &&& final(trials).broke_off::<S>(*old(trials), origin@, r->Err_0, final(trials).last@)
            &&& exists|group: Seq<usize>, n: int|
                group.len() >= 2 && group_alike(group, nodes@, group[0] as int) && 0 <= n
                    < index_of_node(nodes@[group[0] as int]) && #[trigger] lowered::<S>(
                    models(canonical@),
                    group,
                    nodes@[group[0] as int].constraints,
                    n,
                    final(trials).last@,
                )
        },
{
    let ghost n0 = trials.log@.len() as int;
    let ghost s = models(canonical@);
    if nodes.len() > MAX_COUPLED_NODES {
        return Ok(None);
    }
    let mut handled: Vec<bool> = Vec::new();
    while handled.len() < nodes.len()
        invariant
            handled@.len() <= nodes@.len(),
            forall|x: int| 0 <= x < handled@.len() ==> !#[trigger] handled@[x],
        decreases nodes.len() - handled.len(),
    {
        handled.push(false);
    }
    let mut a: usize = 0;
    while a < nodes.len()
        invariant
            a <= nodes.len(),
            nodes@.len() <= MAX_COUPLED_NODES,
            handled@.len() == nodes@.len(),
            nodes_wf(nodes@),
            trials.follows::<S>(*old(trials), origin@),
            n0 == old(trials).log@.len(),
            s == models(canonical@),
            forall|x: int|
                0 <= x < nodes@.len() && #[trigger] handled@[x] ==> alike_refused::<S>(
                    trials.log@,
                    n0,
                    s,
                    nodes@,
                    x,
                ),
            forall|x: int, y: int|
                a <= x < nodes@.len() && 0 <= y < nodes@.len() && #[trigger] handled@[y]
                    && nodes@[y].value@ == (#[trigger] nodes@[x]).value@ ==> handled@[x],
            forall|x: int, b: int|
                0 <= x < a && x < b < nodes@.len() && (#[trigger] nodes@[x]).value@ == (
                #[trigger] nodes@[b]).value@ && countable(nodes@[x]) && index_of_node(nodes@[x]) > 0
                    ==> alike_refused::<S>(trials.log@, n0, s, nodes@, x),
        decreases nodes.len() - a,
    {
        let ghost before = trials.log@;
        let ghost old_handled = handled@;
        assert(node_wf(nodes@[a as int]));
        let index = if handled[a] {
            None
        } else {
            node_index(&nodes[a])
        };
        if let Some(index) = index {
            if Int::of(0).less(&index) {
                let group = gather_group(nodes, &handled, a);
                if group.len() >= 2 {
                    match lower_group(
                        subject,
                        trials,
                        canonical,
                        &group,
                        &index,
                        &nodes[a].constraints,
                        origin,
                    ) {
                        Ok(Some(found)) => {
                            proof {
                                lemma_tried_from(
                                    trials.log@,
                                    before.len() as int,
                                    n0,
                                    models(found@),
                                    true,
                                );
                                let n = choose|n: int|
                                    0 <= n < index@ && #[trigger] lowered::<S>(
                                        s,
                                        group@,
                                        nodes@[a as int].constraints,
                                        n,
                                        models(found@),
                                    );
                                assert(lowered::<S>(
                                    s,
                                    group@,
                                    nodes@[group@[0] as int].constraints,
                                    n,
                                    models(found@),
                                ));
                            }
                            return Ok(Some(found));
                        },
                        Ok(None) => {},
                        Err(e) => {
                            proof {
                                if e is Choice {
                                    assert(node_halts(nodes@[a as int], e));
                                }
                            }
                            return Err(e);
                        },
                    }
                    mark_handled(&mut handled, &group);
                    proof {
                        lemma_refused_from::<S>(
                            trials.log@,
                            before.len() as int,
                            n0,
                            s,
                            group@,
                            nodes@[a as int].constraints,
                            index@,
                        );
                        assert forall|b: int|
                            a <= b < nodes@.len() && (#[trigger] nodes@[b]).value@
                                == nodes@[a as int].value@ implies in_group(group@, b) by {
                            if b == a {
                                assert(group@[0] == b);
                            } else if old_handled[b] {
                                assert(old_handled[a as int]);
                            }
                        }
                        assert forall|x: int|
                            0 <= x < nodes@.len() && #[trigger] handled@[x] implies alike_refused::<S>(
                            trials.log@,
                            n0,
                            s,
                            nodes@,
                            x,
                        ) by {
                            if old_handled[x] {
                                lemma_alike_stays::<S>(before, trials.log@, n0, s, nodes@, x);
                            } else {
                                assert(in_group(group@, x));
                                let g = choose|g: int|
                                    0 <= g < group@.len() && #[trigger] group@[g] == x;
                                assert(nodes@[group@[g] as int].value@ == nodes@[a as int].value@);
                                assert(group_alike(group@, nodes@, x));
                                assert(group_whole(group@, nodes@, x));
                            }
                        }
                        assert(group@[0] == a);
                        assert(in_group(group@, a as int));
                        assert(handled@[a as int]);
                        assert forall|x: int, y: int|
                            a + 1 <= x < nodes@.len() && 0 <= y < nodes@.len()
                                && #[trigger] handled@[y] && nodes@[y].value@ == (
                            #[trigger] nodes@[x]).value@ implies handled@[x] by {
                            if old_handled[y] {
                                assert(old_handled[x]);
                            } else {
                                assert(in_group(group@, y));
                                let g = choose|g: int|
                                    0 <= g < group@.len() && #[trigger] group@[g] == y;
                                assert(nodes@[group@[g] as int].value@ == nodes@[a as int].value@);
                                if !old_handled[x] {
                                    assert(in_group(group@, x));
                                }
                            }
                        }
                    }
                } else {
                    proof {
                        assert forall|b: int| a < b < nodes@.len() implies (
                        #[trigger] nodes@[b]).value@ != nodes@[a as int].value@ by {
                            if nodes@[b].value@ == nodes@[a as int].value@ {
                                if handled@[b] {
                                    assert(handled@[a as int]);
                                } else {
                                    assert(in_group(group@, b));
                                    let g = choose|g: int|
                                        0 <= g < group@.len() && #[trigger] group@[g] == b;
                                    assert(group@[0] == a);
                                }
                            }
                        }
                    }
                }
            }
        }
        proof {
            assert forall|x: int, b: int|
                0 <= x < a + 1 && x < b < nodes@.len() && (#[trigger] nodes@[x]).value@ == (
                #[trigger] nodes@[b]).value@ && countable(nodes@[x]) && index_of_node(nodes@[x])
                    > 0 implies alike_refused::<S>(trials.log@, n0, s, nodes@, x) by {
                if x < a {
                    assert(alike_refused::<S>(before, n0, s, nodes@, x));
                    lemma_alike_stays::<S>(before, trials.log@, n0, s, nodes@, x);
                } else {
                    assert(handled@[x]);
                }
            }
        }
        a = a + 1;
    }
    Ok(None)
}

/// The node's value is a number or a truth value.
pub open spec fn is_scalar(n: Node) -> bool {
    n.value is Integer || n.value is Float || n.value is Boolean
}

/// Both nodes can be lowered, and they are near enough to each other.
pub open spec fn pair_eligible(nodes: Seq<Node>, i: int, j: int) -> bool {
    &&& 0 <= i < j < nodes.len()
    &&& j <= i + PAIR_WINDOW
    &&& is_scalar(nodes[i]) && index_of_node(nodes[i]) != 0
    &&& is_scalar(nodes[j]) && index_of_node(nodes[j]) != 0
}

/// The sequence with both nodes set to their simplest values.
pub open spec fn pair_zeroed(s: Seq<ChoiceModel>, nodes: Seq<Node>, i: int, j: int) -> Seq<
    ChoiceModel,
> {
    s.update(i, crate::data::simplest_of(nodes[i].constraints)->Ok_0).update(
        j,
        crate::data::simplest_of(nodes[j].constraints)->Ok_0,
    )
}

/// The simplest value for a node that holds a number or a truth value and does not
/// have it yet.
fn zero_for(node: &Node) -> (r: Option<Choice>)
    requires
        node_wf(*node),
    ensures
        r is Some <==> is_scalar(*node) && index_of_node(*node) != 0,
        r is Some ==> crate::data::simplest_of(node.constraints) is Ok && r->0@
            == crate::data::simplest_of(node.constraints)->Ok_0,
{
    match &node.value {
        Choice::Text(_) => {
            return None;
        },
        Choice::Bytes(_) => {
            return None;
        },
        _ => {},
    }
    match choice_to_index(&node.value, &node.constraints) {
        Ok(n) => {
            if n.is_zero() {
                return None;
            }
        },
        Err(_) => {
            return None;
        },
    }
    match crate::data::simplest_choice(&node.constraints) {
        Ok(c) => Some(c),
        Err(_) => None,
    }
}

/// Lowers pairs of neighbouring numbers to their simplest values together.
pub fn minimize_pairs_to_zero<S: Subject>(
    subject: &mut S,
    trials: &mut Trials,
    canonical: &Vec<Choice>,
    nodes: &Vec<Node>,
    origin: &Origin,
) -> (r: Result<Option<Vec<Choice>>, Halt>)
    requires
        old(trials).wf(),
        nodes_wf(nodes@),
        canonical@.len() == nodes@.len(),
    ensures
        r is Ok ==> final(trials).follows::<S>(*old(trials), origin@),
        r is Ok && r->Ok_0 is Some ==> tried(
            final(trials).log@,
            old(trials).log@.len() as int,
            models(r->Ok_0->0@),
            true,
        ) && exists|i: int, j: int|
            pair_eligible(nodes@, i, j) && models(r->Ok_0->0@) == #[trigger] pair_zeroed(
                models(canonical@),
                nodes@,
                i,
                j,
            ),
        r is Ok && r->Ok_0 is None && nodes@.len() <= MAX_COUPLED_NODES ==> forall|i: int, j: int|
            pair_eligible(nodes@, i, j) ==> tried(
                final(trials).log@,
                old(trials).log@.len() as int,
                #[trigger] pair_zeroed(models(canonical@), nodes@, i, j),
                false,
            ),
        nodes@.len() > MAX_COUPLED_NODES ==> r is Ok && r->Ok_0 is None,
        r is Err ==> {
            &&& r->Err_0 is Raised
            &&& goes_through::<S>(r->Err_0->Raised_0)
            &&& final(trials).broke_off::<S>(*old(trials), origin@, r->Err_0, final(trials).last@)
            &&& exists|i: int, j: int|
                pair_eligible(nodes@, i, j) && final(trials).last@ == #[trigger] pair_zeroed(
                    models(canonical@),
                    nodes@,
                    i,
                    j,
                )
        },
{
    let ghost n0 = trials.log@.len() as int;
    let ghost s = models(canonical@);
    if nodes.len() > MAX_COUPLED_NODES {
        return Ok(None);
    }
    let mut i: usize = 0;
    while i < nodes.len()
        invariant
            i <= nodes.len(),
            nodes_wf(nodes@),
            nodes@.len() <= MAX_COUPLED_NODES,
            canonical@.len() == nodes@.len(),
            trials.follows::<S>(*old(trials), origin@),
            n0 == old(trials).log@.len(),
            s == models(canonical@),
            forall|x: int, y: int|
                x < i && pair_eligible(nodes@, x, y) ==> tried(
                    trials.log@,
                    n0,
                    #[trigger] pair_zeroed(s, nodes@, x, y),
                    false,
                ),
        decreases nodes.len() - i,
    {
        assert(node_wf(nodes@[i as int]));
        if let Some(zero_i) = zero_for(&nodes[i]) {
            let end: usize = if i + 1 + PAIR_WINDOW < nodes.len() {
                i + 1 + PAIR_WINDOW
            } else {
                nodes.len()
            };
            let mut j: usize = i + 1;
            while j < end
                invariant
                    i < j <= end <= nodes.len(),
                    end == i + 1 + PAIR_WINDOW || end == nodes.len(),
                    end <= i + 1 + PAIR_WINDOW,
                    nodes@.len() <= MAX_COUPLED_NODES,
                    nodes_wf(nodes@),
                    canonical@.len() == nodes@.len(),
                    trials.follows::<S>(*old(trials), origin@),
                    n0 == old(trials).log@.len(),
                    s == models(canonical@),
                    is_scalar(nodes@[i as int]) && index_of_node(nodes@[i as int]) != 0,
                    crate::data::simplest_of(nodes@[i as int].constraints) is Ok,
                    zero_i@ == crate::data::simplest_of(nodes@[i as int].constraints)->Ok_0,
                    forall|x: int, y: int|
                        (x < i || (x == i && y < j)) && pair_eligible(nodes@, x, y) ==> tried(
                            trials.log@,
                            n0,
                            #[trigger] pair_zeroed(s, nodes@, x, y),
                            false,
                        ),
                decreases end - j,
            {
                let ghost before = trials.log@;
                assert(node_wf(nodes@[j as int]));
                if let Some(zero_j) = zero_for(&nodes[j]) {
                    let mut trial = crate::choice::copy_choices(canonical);
                    proof {
                        assert(models(trial@).len() == trial@.len());
                        assert(models(canonical@).len() == canonical@.len());
                    }
                    let ghost plain = trial@;
                    trial.set(i, zero_i.clone());
                    trial.set(j, zero_j);
                    proof {
                        let target = pair_zeroed(s, nodes@, i as int, j as int);
                        assert forall|x: int| 0 <= x < target.len() implies models(trial@)[x]
                            == target[x] by {
                            assert(models(plain)[x] == s[x]);
                        }
                        assert(models(trial@) =~= target);
                    }
                    match trial_fails(subject, trials, &trial, origin) {
                        Ok(true) => {
                            proof {
                                assert(trials.log@[before.len() as int] == (Trial {
                                    choices: models(trial@),
                                    fails: true,
                                }));
                                assert(pair_eligible(nodes@, i as int, j as int));
                            }
                            return Ok(Some(trial));
                        },
                        Ok(false) => {
                            proof {
                                assert(trials.log@[before.len() as int] == (Trial {
                                    choices: pair_zeroed(s, nodes@, i as int, j as int),
                                    fails: false,
                                }));
                            }
                        },
                        Err(e) => {
                            return Err(e);
                        },
                    }
                }
                proof {
                    assert forall|x: int, y: int|
                        (x < i || (x == i && y < j + 1)) && pair_eligible(
                            nodes@,
                            x,
                            y,
                        ) implies tried(
                        trials.log@,
                        n0,
                        #[trigger] pair_zeroed(s, nodes@, x, y),
                        false,
                    ) by {
                        if x < i || y < j {
                            lemma_tried_stays(
                                before,
                                trials.log@,
                                n0,
                                pair_zeroed(s, nodes@, x, y),
                                false,
                            );
                        }
                    }
                }
                j = j + 1;
            }
        }
        i = i + 1;
    }
    Ok(None)
}

// ---- the whole --------------------------------------------------------------

/// The ways to simplify.
#[derive(Clone, Copy, Debug, PartialEq, Eq, Structural)]
pub enum Pass {
    AdaptiveExampleDeletion,
    MinimizeIndividualChoices,
    MinimizeDuplicatedChoices,
    RedistributeNumericPairs,
}

impl Pass {
    /// The name that reports use.
    pub fn name(&self) -> (r: &'static str)
        ensures
            r@ == (match self {
                Pass::AdaptiveExampleDeletion => "adaptive_example_deletion"@,
                Pass::MinimizeIndividualChoices => "minimize_individual_choices"@,
                Pass::MinimizeDuplicatedChoices => "minimize_duplicated_choices"@,
                Pass::RedistributeNumericPairs => "redistribute_numeric_pairs"@,
            }),
    {
        match self {
            Pass::AdaptiveExampleDeletion => "adaptive_example_deletion",
            Pass::MinimizeIndividualChoices => "minimize_individual_choices",
            Pass::MinimizeDuplicatedChoices => "minimize_duplicated_choices",
            Pass::RedistributeNumericPairs => "redistribute_numeric_pairs",
        }
    }
}

/// What one way to simplify has cost and brought.
#[derive(Clone, Copy, Debug, PartialEq, Eq, Structural)]
pub struct PassStats {
    pub pass: Pass,
    pub calls: u64,
    pub shrinks: u64,
}

/// An account of the shrinking.
#[derive(Debug)]
pub struct ShrinkReport {
    pub passes: Vec<PassStats>,
    pub total_shrinks: u64,
    /// It stopped because it had shrunk often enough.
    pub capped: bool,
}

/// A sum that stays at the largest machine number once it gets there.
pub open spec fn saturated(a: u64, b: int) -> u64 {
    if a + b <= u64::MAX {
        (a + b) as u64
    } else {
        u64::MAX
    }
}

/// Where the account of a pass is, or the number of accounts where there is none.
pub open spec fn pass_place(s: Seq<PassStats>, pass: Pass) -> int
    decreases s.len(),
{
    if s.len() == 0 {
        0
    } else {
        let r = pass_place(s.drop_last(), pass);
        if r == s.len() - 1 && s.last().pass != pass {
            s.len() as int
        } else {
            r
        }
    }
}

proof fn lemma_pass_place(s: Seq<PassStats>, pass: Pass, n: int)
    requires
        0 <= n <= s.len(),
        forall|i: int| 0 <= i < n ==> (#[trigger] s[i]).pass != pass,
        n < s.len() ==> s[n].pass == pass,
    ensures
        pass_place(s, pass) == n,
    decreases s.len(),
{
    if s.len() > 0 {
        let front = s.drop_last();
        assert forall|i: int| 0 <= i < n && i < front.len() implies (#[trigger] front[i]).pass
            != pass by {
            assert(front[i] == s[i]);
        }
        if n == s.len() {
            lemma_pass_place(front, pass, n - 1);
        } else {
            if n < front.len() {
                assert(front[n] == s[n]);
            }
            lemma_pass_place(front, pass, n);
        }
    }
}

impl ShrinkReport {
    pub fn new() -> (r: ShrinkReport)
        ensures
            r.passes@.len() == 0,
            r.total_shrinks == 0,
            !r.capped,
    {
        ShrinkReport { passes: Vec::new(), total_shrinks: 0, capped: false }
    }

    /// Adds what one run of a pass has cost and whether it brought anything.
    pub fn record_pass(&mut self, pass: Pass, calls: u64, shrank: bool)
        ensures
            final(self).capped == old(self).capped,
            final(self).total_shrinks == (if shrank {
                saturated(old(self).total_shrinks, 1)
            } else {
                old(self).total_shrinks
            }),
            ({
                let place = pass_place(old(self).passes@, pass);
                let gain: u64 = if shrank {
                    1
                } else {
                    0
                };
                if place < old(self).passes@.len() {
                    let e = old(self).passes@[place];
                    final(self).passes@ == old(self).passes@.update(
                        place,
                        PassStats {
                            pass,
                            calls: saturated(e.calls, calls as int),
                            shrinks: saturated(e.shrinks, gain as int),
                        },
                    )
                } else {
                    final(self).passes@ == old(self).passes@.push(
                        PassStats { pass, calls, shrinks: gain },
                    )
                }
            }),
    {
        let gain: u64 = if shrank {
            1
        } else {
            0
        };
        if shrank && self.total_shrinks < u64::MAX {
            self.total_shrinks = self.total_shrinks + 1;
        }
        let mut i: usize = 0;
        while i < self.passes.len()
            invariant
                i <= self.passes.len(),
                self.passes == old(self).passes,
                self.capped == old(self).capped,
                self.total_shrinks == (if shrank {
                    saturated(old(self).total_shrinks, 1)
                } else {
                    old(self).total_shrinks
                }),
                gain == (if shrank {
                    1u64
                } else {
                    0
                }),
                forall|x: int| 0 <= x < i ==> (#[trigger] self.passes@[x]).pass != pass,
            decreases self.passes.len() - i,
        {
            let e: PassStats = self.passes[i];
            if e.pass == pass {
                proof {
                    lemma_pass_place(self.passes@, pass, i as int);
                }
                let calls: u64 = if calls > u64::MAX - e.calls {
                    u64::MAX
                } else {
                    e.calls + calls
                };
                let shrinks: u64 = if gain > u64::MAX - e.shrinks {
                    u64::MAX
                } else {
                    e.shrinks + gain
                };
                self.passes.set(i, PassStats { pass, calls, shrinks });
                return ;
            }
            i = i + 1;
        }
        proof {
            lemma_pass_place(self.passes@, pass, i as int);
        }
        self.passes.push(PassStats { pass, calls, shrinks: gain });
    }

    /// All trials together.
    pub fn total_calls(&self) -> (r: u64)
        ensures
            r == sum_of_calls(self.passes@),
    {
        let mut total: u64 = 0;
        let mut i: usize = 0;
        proof {
            assert(self.passes@.take(0) =~= Seq::<PassStats>::empty());
        }
        while i < self.passes.len()
            invariant
                i <= self.passes.len(),
                total == sum_of_calls(self.passes@.take(i as int)),
            decreases self.passes.len() - i,
        {
            proof {
                let front = self.passes@.take(i + 1);
                assert(front.drop_last() =~= self.passes@.take(i as int));
                assert(front.last() == self.passes@[i as int]);
            }
            let calls: u64 = self.passes[i].calls;
            total = if calls > u64::MAX - total {
                u64::MAX
            } else {
                total + calls
            };
            i = i + 1;
        }
        proof {
            assert(self.passes@.take(i as int) =~= self.passes@);
        }
        total
    }
}

/// The trials of all passes together.
pub open spec fn sum_of_calls(s: Seq<PassStats>) -> u64
    decreases s.len(),
{
    if s.len() == 0 {
        0
    } else {
        saturated(sum_of_calls(s.drop_last()), s.last().calls as int)
    }
}

/// What shrinking comes to.
#[derive(Debug)]
pub struct Shrunk {
    /// The failure of the last replay that failed.
    pub failure: Failure,
    /// The choices of that replay.
    pub choices: Vec<Choice>,
    pub report: ShrinkReport,
    /// Every pass was tried on these choices, and none found anything.
    pub settled: bool,
    /// The last replay did not fail as before.
    pub lost: bool,
}

/// No pass finds anything at the nodes of a replay.
pub open spec fn nothing_left<S: Subject>(log: Seq<Trial>, from: int, nodes: Seq<Node>) -> bool {
    let s = recorded(nodes);
    &&& forall|i: int| 0 <= i < nodes.len() ==> node_settled::<S>(log, from, s, i, #[trigger] nodes[i])
    &&& nodes.len() <= MAX_COUPLED_NODES ==> forall|i: int, j: int|
        pair_eligible(nodes, i, j) ==> tried(
            log,
            from,
            #[trigger] pair_zeroed(s, nodes, i, j),
            false,
        )
    &&& nodes.len() <= MAX_COUPLED_NODES ==> forall|a: int, b: int|
        0 <= a < b < nodes.len() && (#[trigger] nodes[a]).value@ == (#[trigger] nodes[b]).value@
            && countable(nodes[a]) && index_of_node(nodes[a]) > 0 ==> alike_refused::<S>(
            log,
            from,
            s,
            nodes,
            a,
        )
    &&& forall|start: int, size: int|
        is_block_size(size) && 0 <= start && start + size <= s.len() ==> tried(
            log,
            from,
            #[trigger] without(s, start, size),
            false,
        )
}

/// These choices were played back and failed, and at a node of that replay a simpler choice
/// could not be worked out.
pub open spec fn halts_at<S: Subject>(
    choices: Seq<ChoiceModel>,
    buffer_limit: Option<u64>,
    origin: OriginModel,
    h: Halt,
) -> bool {
    exists|after: Case|
        fails_as::<S>(choices, buffer_limit, origin, after) && exists|i: int|
            0 <= i < after.nodes@.len() && #[trigger] node_halts(after.nodes@[i], h)
}

/// These choices were played back and failed with the origin, and `after` is the test case
/// behind that.
pub open spec fn fails_as<S: Subject>(
    choices: Seq<ChoiceModel>,
    buffer_limit: Option<u64>,
    origin: OriginModel,
    after: Case,
) -> bool {
    exists|f: Failure| #[trigger]
        played_back::<S>(choices, buffer_limit, after, Ok(Outcome::Interesting(f))) && f.origin@
            == origin
}

/// `d` is simpler than what nodes record: shorter, with a simpler choice at one node, with
/// equal choices lowered together, or with two numbers at their simplest.
pub open spec fn simpler_than<S: Subject>(nodes: Seq<Node>, d: Seq<ChoiceModel>) -> bool {
    let s = recorded(nodes);
    ||| d.len() < s.len() && left_of(d, s)
    ||| exists|i: int| 0 <= i < nodes.len() && #[trigger] node_simplified::<S>(s, i, nodes[i], d)
    ||| exists|group: Seq<usize>, n: int|
        group.len() >= 2 && group_alike(group, nodes, group[0] as int) && 0 <= n < index_of_node(
            nodes[group[0] as int],
        ) && #[trigger] lowered::<S>(s, group, nodes[group[0] as int].constraints, n, d)
    ||| exists|i: int, j: int|
        pair_eligible(nodes, i, j) && d == #[trigger] pair_zeroed(s, nodes, i, j)
}

/// One shrink: `c` was played back and failed, and `d` is simpler than what that recorded.
pub open spec fn shrinks_to<S: Subject>(
    c: Seq<ChoiceModel>,
    d: Seq<ChoiceModel>,
    buffer_limit: Option<u64>,
    origin: OriginModel,
) -> bool {
    exists|after: Case| #[trigger]
        fails_as::<S>(c, buffer_limit, origin, after) && simpler_than::<S>(after.nodes@, d)
}

/// A way from the start by shrinks, each to choices that were tried and failed.
pub open spec fn shrunk_along<S: Subject>(
    path: Seq<Seq<ChoiceModel>>,
    start: Seq<ChoiceModel>,
    log: Seq<Trial>,
    from: int,
    buffer_limit: Option<u64>,
    origin: OriginModel,
) -> bool {
    &&& path.len() > 0 && path[0] == start
    &&& forall|i: int| 1 <= i < path.len() ==> tried(log, from, #[trigger] path[i], true)
    &&& forall|i: int|
        0 <= i < path.len() - 1 ==> #[trigger] shrinks_to::<S>(
            path[i],
            path[i + 1],
            buffer_limit,
            origin,
        )
}

proof fn lemma_along_stays<S: Subject>(
    path: Seq<Seq<ChoiceModel>>,
    start: Seq<ChoiceModel>,
    a: Seq<Trial>,
    b: Seq<Trial>,
    from: int,
    buffer_limit: Option<u64>,
    origin: OriginModel,
)
    requires
        shrunk_along::<S>(path, start, a, from, buffer_limit, origin),
        extends(a, b),
        0 <= from,
    ensures
        shrunk_along::<S>(path, start, b, from, buffer_limit, origin),
{
    assert forall|i: int| 1 <= i < path.len() implies tried(
        b,
        from,
        #[trigger] path[i],
        true,
    ) by {
        lemma_tried_stays(a, b, from, path[i], true);
    }
}

proof fn lemma_along_further<S: Subject>(
    path: Seq<Seq<ChoiceModel>>,
    start: Seq<ChoiceModel>,
    log: Seq<Trial>,
    from: int,
    buffer_limit: Option<u64>,
    origin: OriginModel,
    d: Seq<ChoiceModel>,
)
    requires
        shrunk_along::<S>(path, start, log, from, buffer_limit, origin),
        tried(log, from, d, true),
        shrinks_to::<S>(path.last(), d, buffer_limit, origin),
    ensures
        shrunk_along::<S>(path.push(d), start, log, from, buffer_limit, origin),
{
    let all = path.push(d);
    assert forall|i: int| 1 <= i < all.len() implies tried(log, from, #[trigger] all[i], true) by {
        if i < path.len() {
            assert(all[i] == path[i]);
        }
    }
    assert forall|i: int| 0 <= i < all.len() - 1 implies #[trigger] shrinks_to::<S>(
        all[i],
        all[i + 1],
        buffer_limit,
        origin,
    ) by {
        if i < path.len() - 1 {
            assert(shrinks_to::<S>(path[i], path[i + 1], buffer_limit, origin));
        }
    }
}

/// How shrinking `start` is broken off: a simpler choice at some node could not be
/// worked out; or a trial raised an error; or a replay did, of the choices that were the
/// simplest by then.
pub open spec fn shrinking_halts<S: Subject>(
    now: Trials,
    then: Trials,
    start: Seq<ChoiceModel>,
    origin: OriginModel,
    h: Halt,
) -> bool {
    match h {
        Halt::Choice(_) => now.follows::<S>(then, origin) && exists|c: Seq<ChoiceModel>|
            reached(now, then, start, c) && #[trigger] halts_at::<S>(
                c,
                now.buffer_limit,
                origin,
                h,
            ),
        Halt::Raised(raised) => goes_through::<S>(raised) && (now.broke_off::<S>(
            then,
            origin,
            h,
            now.last@,
        ) || (now.follows::<S>(then, origin) && reached(now, then, start, now.last@)
            && exists|after: Case| #[trigger]
            played_back::<S>(now.last@, now.buffer_limit, after, Err(raised)))),
    }
}

/// Shrinking `start` came to these choices: they are where it started, or were tried and
/// failed.
pub open spec fn reached(
    now: Trials,
    then: Trials,
    start: Seq<ChoiceModel>,
    choices: Seq<ChoiceModel>,
) -> bool {
    choices == start || tried(now.log@, then.log@.len() as int, choices, true)
}

/// At most so many rounds.
pub const MAX_ROUNDS: u32 = 300;

proof fn lemma_simplified_len<S: Subject>(s: Seq<ChoiceModel>, nodes: Seq<Node>, t: Seq<ChoiceModel>)
    requires
        exists|i: int| 0 <= i < nodes.len() && #[trigger] node_simplified::<S>(s, i, nodes[i], t),
    ensures
        t.len() == s.len(),
{
}

/// A replay of choices that did not bring the failure again, or that recorded more
/// choices than it was given.
pub open spec fn goes_astray<S: Subject>(
    choices: Seq<ChoiceModel>,
    buffer_limit: Option<u64>,
    origin: OriginModel,
) -> bool {
    exists|after: Case, outcome: Outcome|
        {
            &&& #[trigger] played_back::<S>(choices, buffer_limit, after, Ok(outcome))
            &&& !failed_with(outcome, origin) || after.nodes@.len() > choices.len()
        }
}

/// What a replay of choices shows: the failure of the wanted origin and the test case,
/// where there is one; nothing where the failure did not come again, or the test case
/// that came back is not that of these choices, having more of them.
fn replay<S: Subject>(
    subject: &mut S,
    trials: &mut Trials,
    choices: &Vec<Choice>,
    origin: &Origin,
) -> (r: Result<Option<(Failure, Case)>, Halt>)
    requires
        old(trials).wf(),
    ensures
        *final(trials) == (Trials { last: final(trials).last, ..*old(trials) }),
        final(trials).last@ == models(choices@),
        r is Ok && r->Ok_0 is Some ==> {
            let (f, after) = r->Ok_0->0;
            &&& f.origin@ == origin@
            &&& after.wf()
            &&& after.nodes@.len() <= choices@.len()
            &&& played_back::<S>(
                models(choices@),
                old(trials).buffer_limit,
                after,
                Ok(Outcome::Interesting(f)),
            )
        },
        r is Ok && r->Ok_0 is None ==> goes_astray::<S>(
            models(choices@),
            old(trials).buffer_limit,
            origin@,
        ),
        r is Err ==> r->Err_0 is Raised && goes_through::<S>(r->Err_0->Raised_0)
            && exists|after: Case| #[trigger]
            played_back::<S>(
                models(choices@),
                old(trials).buffer_limit,
                after,
                Err(r->Err_0->Raised_0),
            ),
{
    let case = Case::new_for_choices(choices, fresh_seed(), trials.buffer_limit);
    proof {
        trials.last@ = models(choices@);
    }
    let (case, outcome) = run_one(subject, case, None);
    assert(played_back::<S>(models(choices@), trials.buffer_limit, case, outcome));
    assert(models(choices@).len() == choices@.len());
    match outcome {
        Err(raised) => Err(Halt::Raised(raised)),
        Ok(Outcome::Interesting(f)) => {
            if f.origin.same(origin) && case.nodes.len() <= choices.len() {
                Ok(Some((f, case)))
            } else {
                Ok(None)
            }
        },
        Ok(_) => Ok(None),
    }
}

/// There is a way from the start to the choices with as many shrinks as were counted. Where
/// the last replay did not fail as before, the last shrink may have been taken back.
pub open spec fn counted_way<S: Subject>(
    r: Shrunk,
    now: Trials,
    then: Trials,
    start: Seq<ChoiceModel>,
    origin: OriginModel,
) -> bool {
    exists|path: Seq<Seq<ChoiceModel>>|
        {
            &&& #[trigger] shrunk_along::<S>(
                path,
                start,
                now.log@,
                then.log@.len() as int,
                now.buffer_limit,
                origin,
            )
            &&& path.len() == r.report.total_shrinks + 1
            &&& models(r.choices@) == path.last() || (r.lost && path.len() > 1 && models(
                r.choices@,
            ) == path[path.len() - 2])
        }
}

/// A replay of choices that shrinking came to did not fail as before.
pub open spec fn strayed<S: Subject>(
    now: Trials,
    then: Trials,
    start: Seq<ChoiceModel>,
    origin: OriginModel,
) -> bool {
    exists|c: Seq<ChoiceModel>|
        reached(now, then, start, c) && #[trigger] goes_astray::<S>(c, now.buffer_limit, origin)
}

/// What the shrinking of `start` came to, by its success: choices that are no more than at
/// the start, a way to them with as many shrinks as were counted, a failure of the same
/// origin that they lead to, and why it ended. Where the last replay did not fail as before,
/// the choices are those before the last shrink.
pub open spec fn shrunk_from<S: Subject>(
    r: Shrunk,
    now: Trials,
    then: Trials,
    start: Seq<ChoiceModel>,
    failure: Failure,
    shrink_cap: u64,
) -> bool {
    let n0 = then.log@.len() as int;
    &&& now.follows::<S>(then, failure.origin@)
    &&& reached(now, then, start, models(r.choices@))
    &&& r.choices@.len() <= start.len()
    &&& r.failure.origin@ == failure.origin@
    &&& leads_to::<S>(models(r.choices@), now.buffer_limit, r.failure) || (models(r.choices@)
        == start && r.failure == failure && (r.lost || shrink_cap == 0))
    &&& r.report.total_shrinks <= shrink_cap
    &&& r.report.total_shrinks <= now.log@.len() - n0
    &&& r.report.capped ==> r.report.total_shrinks == shrink_cap
    &&& counted_way::<S>(r, now, then, start, failure.origin@)
    &&& r.settled ==> exists|after: Case|
        {
            &&& #[trigger] played_back::<S>(
                models(r.choices@),
                now.buffer_limit,
                after,
                Ok(Outcome::Interesting(r.failure)),
            )
            &&& after.wf() && nothing_left::<S>(now.log@, n0, after.nodes@)
        }
    &&& r.lost ==> strayed::<S>(now, then, start, failure.origin@)
    &&& r.settled || r.report.capped || r.lost || 2 * r.report.total_shrinks + 1 >= MAX_ROUNDS
}

proof fn lemma_nothing_left_from<S: Subject>(
    log: Seq<Trial>,
    late: int,
    from: int,
    nodes: Seq<Node>,
)
    requires
        0 <= from <= late,
        nothing_left::<S>(log, late, nodes),
    ensures
        nothing_left::<S>(log, from, nodes),
{
    let s = recorded(nodes);
    assert forall|i: int| 0 <= i < nodes.len() implies node_settled::<S>(
        log,
        from,
        s,
        i,
        #[trigger] nodes[i],
    ) by {
        lemma_settled_from::<S>(log, late, from, s, i, nodes[i]);
    }
    assert forall|x: int, size: int|
        is_block_size(size) && 0 <= x && x + size <= s.len() implies tried(
        log,
        from,
        #[trigger] without(s, x, size),
        false,
    ) by {
        lemma_tried_from(log, late, from, without(s, x, size), false);
    }
    if nodes.len() <= MAX_COUPLED_NODES {
        assert forall|a: int, b: int|
            0 <= a < b < nodes.len() && (#[trigger] nodes[a]).value@ == (
            #[trigger] nodes[b]).value@ && countable(nodes[a]) && index_of_node(nodes[a])
                > 0 implies alike_refused::<S>(log, from, s, nodes, a) by {
            lemma_alike_from::<S>(log, late, from, s, nodes, a);
        }
        assert forall|i: int, j: int| pair_eligible(nodes, i, j) implies tried(
            log,
            from,
            #[trigger] pair_zeroed(s, nodes, i, j),
            false,
        ) by {
            lemma_tried_from(log, late, from, pair_zeroed(s, nodes, i, j), false);
        }
    }
}

/// Tries the passes on the record of a replay until one of them finds something simpler.
#[verifier::rlimit(40)]
fn simplify<S: Subject>(
    subject: &mut S,
    trials: &mut Trials,
    report: &mut ShrinkReport,
    case: Case,
    run_delete: bool,
    origin: &Origin,
) -> (r: Result<Option<Vec<Choice>>, Halt>)
    requires
        old(trials).wf(),
        case.wf(),
        old(report).total_shrinks < u64::MAX,
    ensures
        r is Ok ==> final(trials).follows::<S>(*old(trials), origin@),
        r is Ok ==> final(report).capped == old(report).capped,
        r is Ok && r->Ok_0 is Some ==> {
            let t = models(r->Ok_0->0@);
            &&& tried(final(trials).log@, old(trials).log@.len() as int, t, true)
            &&& simpler_than::<S>(case.nodes@, t)
            &&& t.len() <= case.nodes@.len()
            &&& final(report).total_shrinks == old(report).total_shrinks + 1
        },
        r is Ok && r->Ok_0 is None ==> final(report).total_shrinks == old(report).total_shrinks,
        r is Ok && r->Ok_0 is None && run_delete ==> nothing_left::<S>(
            final(trials).log@,
            old(trials).log@.len() as int,
            case.nodes@,
        ),
        r is Err && r->Err_0 is Choice ==> final(trials).follows::<S>(*old(trials), origin@)
            && exists|i: int|
            0 <= i < case.nodes@.len() && #[trigger] node_halts(case.nodes@[i], r->Err_0),
        r is Err && r->Err_0 is Raised ==> goes_through::<S>(r->Err_0->Raised_0) && final(
            trials).broke_off::<S>(*old(trials), origin@, r->Err_0, final(trials).last@),
{
    let ghost n0 = trials.log@.len() as int;
    let canonical = case.choices();
    let nodes = case.nodes;
    proof {
        assert(models(canonical@).len() == canonical@.len());
        assert(recorded(nodes@).len() == nodes@.len());
    }
    if run_delete {
        let calls0: u64 = trials.calls;
        let (shorter, improved) = match delete_pass(
            subject,
            trials,
            crate::choice::copy_choices(&canonical),
            origin,
        ) {
            Ok(p) => p,
            Err(e) => {
                return Err(e);
            },
        };
        report.record_pass(Pass::AdaptiveExampleDeletion, trials.calls - calls0, improved);
        if improved {
            proof {
                deleting_only_takes_away(models(canonical@), 0, 0, trials.log@.skip(n0));
                assert(simpler_than::<S>(nodes@, models(shorter@)));
            }
            return Ok(Some(shorter));
        }
    }
    let ghost middle = trials.log@;
    let calls1: u64 = trials.calls;
    let single = match minimize_individual_choices(subject, trials, &canonical, &nodes, origin) {
        Ok(found) => found,
        Err(e) => {
            return Err(e);
        },
    };
    report.record_pass(Pass::MinimizeIndividualChoices, trials.calls - calls1, single.is_some());
    if let Some(t) = single {
        proof {
            lemma_simplified_len::<S>(models(canonical@), nodes@, models(t@));
            lemma_tried_from(trials.log@, middle.len() as int, n0, models(t@), true);
            assert(simpler_than::<S>(nodes@, models(t@)));
        }
        return Ok(Some(t));
    }
    let ghost third = trials.log@;
    let calls2: u64 = trials.calls;
    let alike = match minimize_duplicated_choices(subject, trials, &canonical, &nodes, origin) {
        Ok(found) => found,
        Err(e) => {
            return Err(e);
        },
    };
    report.record_pass(Pass::MinimizeDuplicatedChoices, trials.calls - calls2, alike.is_some());
    if let Some(t) = alike {
        proof {
            assert(models(t@).len() == models(canonical@).len());
            lemma_tried_from(trials.log@, third.len() as int, n0, models(t@), true);
            assert(simpler_than::<S>(nodes@, models(t@)));
        }
        return Ok(Some(t));
    }
    let ghost fourth = trials.log@;
    let calls3: u64 = trials.calls;
    let pair = match minimize_pairs_to_zero(subject, trials, &canonical, &nodes, origin) {
        Ok(found) => found,
        Err(e) => {
            return Err(e);
        },
    };
    report.record_pass(Pass::RedistributeNumericPairs, trials.calls - calls3, pair.is_some());
    if let Some(t) = pair {
        proof {
            assert(models(t@).len() == models(canonical@).len());
            lemma_tried_from(trials.log@, fourth.len() as int, n0, models(t@), true);
            assert(simpler_than::<S>(nodes@, models(t@)));
        }
        return Ok(Some(t));
    }
    proof {
        if run_delete {
            let s = recorded(nodes@);
            assert forall|i: int| 0 <= i < nodes@.len() implies node_settled::<S>(
                trials.log@,
                n0,
                s,
                i,
                #[trigger] nodes@[i],
            ) by {
                lemma_settled_from::<S>(third, middle.len() as int, n0, s, i, nodes@[i]);
                lemma_settled_stays::<S>(third, trials.log@, n0, s, i, nodes@[i]);
            }
            assert forall|x: int, size: int|
                is_block_size(size) && 0 <= x && x + size <= s.len() implies tried(
                trials.log@,
                n0,
                #[trigger] without(s, x, size),
                false,
            ) by {
                lemma_tried_stays(middle, trials.log@, n0, without(s, x, size), false);
            }
            if nodes@.len() <= MAX_COUPLED_NODES {
                assert forall|a: int, b: int|
                    0 <= a < b < nodes@.len() && (#[trigger] nodes@[a]).value@ == (
                    #[trigger] nodes@[b]).value@ && countable(nodes@[a]) && index_of_node(
                        nodes@[a],
                    ) > 0 implies alike_refused::<S>(trials.log@, n0, s, nodes@, a) by {
                    lemma_alike_from::<S>(fourth, third.len() as int, n0, s, nodes@, a);
                    lemma_alike_stays::<S>(fourth, trials.log@, n0, s, nodes@, a);
                }
                assert forall|i: int, j: int| pair_eligible(nodes@, i, j) implies tried(
                    trials.log@,
                    n0,
                    #[trigger] pair_zeroed(s, nodes@, i, j),
                    false,
                ) by {
                    lemma_tried_from(
                        trials.log@,
                        fourth.len() as int,
                        n0,
                        pair_zeroed(s, nodes@, i, j),
                        false,
                    );
                }
            }
            assert(nothing_left::<S>(trials.log@, n0, nodes@));
        }
    }
    Ok(None)
}

/// Makes a failing sequence of choices simpler until nothing more is found, or it
/// has been shrunk `shrink_cap` times.
///
/// Deleting is tried once for every length, and once more when nothing else helps. The
/// failure that is given back is that of a run of the choices that are given back.
#[verifier::rlimit(80)]
pub fn shrink<S: Subject>(
    subject: &mut S,
    trials: &mut Trials,
    choices: Vec<Choice>,
    failure: Failure,
    shrink_cap: u64,
) -> (r: Result<Shrunk, Halt>)
    requires
        old(trials).wf(),
    ensures
        r is Ok ==> shrunk_from::<S>(
            r->Ok_0,
            *final(trials),
            *old(trials),
            models(choices@),
            failure,
            shrink_cap,
        ),
        shrink_cap == 0 ==> r is Ok && r->Ok_0.report.capped && models(r->Ok_0.choices@) == models(
            choices@,
        ) && r->Ok_0.failure == failure && *final(trials) == *old(trials) && *final(subject)
            == *old(subject),
        r is Err ==> shrinking_halts::<S>(
            *final(trials),
            *old(trials),
            models(choices@),
            failure.origin@,
            r->Err_0,
        ),
{
    let ghost n0 = trials.log@.len() as int;
    let ghost start = models(choices@);
    let ghost origin = failure.origin@;
    let target = failure.origin.copy();
    let mut report = ShrinkReport::new();
    let mut best = failure;
    let mut kept = crate::choice::copy_choices(&choices);
    let mut current = choices;
    let mut rounds: u32 = 0;
    let mut last_delete_len: Option<usize> = None;
    let mut retry_delete = false;
    let mut settled = false;
    let mut stale = false;
    let ghost mut path: Seq<Seq<ChoiceModel>> = seq![start];
    let ghost limit = trials.buffer_limit;
    assert(start.len() == choices@.len());
    assert(models(kept@).len() == kept@.len());
    while rounds < MAX_ROUNDS && !settled && report.total_shrinks < shrink_cap
        invariant
            trials.follows::<S>(*old(trials), origin),
            n0 == old(trials).log@.len(),
            start == models(choices@),
            start.len() == choices@.len(),
            origin == failure.origin@,
            origin == target@,
            reached(*trials, *old(trials), start, models(current@)),
            reached(*trials, *old(trials), start, models(kept@)),
            current@.len() <= choices@.len(),
            kept@.len() <= choices@.len(),
            best.origin@ == origin,
            rounds == 0 ==> models(kept@) == start && best == failure && models(current@) == start
                && *trials == *old(trials) && *subject == *old(subject) && !stale
                && report.total_shrinks == 0,
            leads_to::<S>(models(kept@), trials.buffer_limit, best) || (models(kept@) == start
                && best == failure && rounds == 0),
            !stale ==> models(current@) == models(kept@),
            settled ==> !stale && exists|after: Case|
                {
                    &&& #[trigger] played_back::<S>(
                        models(kept@),
                        trials.buffer_limit,
                        after,
                        Ok(Outcome::Interesting(best)),
                    )
                    &&& after.wf() && nothing_left::<S>(trials.log@, n0, after.nodes@)
                },
            report.total_shrinks <= shrink_cap,
            report.total_shrinks <= trials.log@.len() - n0,
            rounds <= 2 * report.total_shrinks + (if retry_delete || settled {
                1int
            } else {
                0int
            }) + (if settled {
                1int
            } else {
                0int
            }),
            !report.capped,
            limit == trials.buffer_limit,
            shrunk_along::<S>(path, start, trials.log@, n0, limit, origin),
            path.len() == report.total_shrinks + 1,
            path.last() == models(current@),
            models(kept@) == path.last() || (stale && path.len() > 1 && models(kept@)
                == path[path.len() - 2]),
            shrink_cap == 0 ==> rounds == 0 && !settled,
        decreases MAX_ROUNDS - rounds,
    {
        rounds = rounds + 1;
        let case = match replay(subject, trials, &current, &target) {
            Err(e) => {
                return Err(e);
            },
            Ok(None) => {
                proof {
                    assert(reached(*trials, *old(trials), start, models(current@)));
                    assert(goes_astray::<S>(models(current@), trials.buffer_limit, origin));
                    assert(strayed::<S>(*trials, *old(trials), start, origin));
                    assert(shrunk_along::<S>(
                        path,
                        start,
                        trials.log@,
                        n0,
                        trials.buffer_limit,
                        origin,
                    ));
                }
                let r = Shrunk { failure: best, choices: kept, report, settled: false, lost: true };
                assert(counted_way::<S>(r, *trials, *old(trials), start, origin));
                return Ok(r);
            },
            Ok(Some((f, case))) => {
                best = f;
                kept = crate::choice::copy_choices(&current);
                case
            },
        };
        stale = false;
        let ghost after = case;
        let ghost before = trials.log@;
        let ghost here = models(current@);
        proof {
            assert(models(kept@).len() == kept@.len());
            assert(models(current@).len() == current@.len());
            assert(leads_to::<S>(models(kept@), trials.buffer_limit, best));
            assert(fails_as::<S>(here, limit, origin, after));
        }
        let count: usize = case.nodes.len();
        let run_delete = retry_delete || match last_delete_len {
            Some(n) => n != count,
            None => true,
        };
        if run_delete {
            retry_delete = false;
            last_delete_len = Some(count);
        }
        let found = match simplify(subject, trials, &mut report, case, run_delete, &target) {
            Ok(found) => found,
            Err(e) => {
                proof {
                    if e is Choice {
                        if here != start {
                            lemma_tried_stays(before, trials.log@, n0, here, true);
                        }
                        assert(reached(*trials, *old(trials), start, here));
                        assert(halts_at::<S>(here, limit, origin, e));
                    }
                }
                return Err(e);
            },
        };
        proof {
            if here != start {
                lemma_tried_stays(before, trials.log@, n0, here, true);
            }
            lemma_along_stays::<S>(path, start, before, trials.log@, n0, limit, origin);
        }
        match found {
            Some(t) => {
                proof {
                    lemma_tried_from(trials.log@, before.len() as int, n0, models(t@), true);
                    assert(shrinks_to::<S>(here, models(t@), limit, origin));
                    lemma_along_further::<S>(
                        path,
                        start,
                        trials.log@,
                        n0,
                        limit,
                        origin,
                        models(t@),
                    );
                    path = path.push(models(t@));
                    assert(models(t@).len() == t@.len());
                }
                current = t;
                stale = true;
            },
            None => {
                if run_delete {
                    settled = true;
                    proof {
                        lemma_nothing_left_from::<S>(
                            trials.log@,
                            before.len() as int,
                            n0,
                            after.nodes@,
                        );
                    }
                } else {
                    retry_delete = true;
                }
            },
        }
    }
    if rounds < MAX_ROUNDS && !settled {
        report.capped = true;
    }
    if stale {
        match replay(subject, trials, &current, &target) {
            Err(e) => {
                return Err(e);
            },
            Ok(None) => {
                proof {
                    assert(reached(*trials, *old(trials), start, models(current@)));
                    assert(goes_astray::<S>(models(current@), trials.buffer_limit, origin));
                    assert(strayed::<S>(*trials, *old(trials), start, origin));
                    assert(shrunk_along::<S>(
                        path,
                        start,
                        trials.log@,
                        n0,
                        trials.buffer_limit,
                        origin,
                    ));
                }
                let r = Shrunk { failure: best, choices: kept, report, settled: false, lost: true };
                assert(counted_way::<S>(r, *trials, *old(trials), start, origin));
                return Ok(r);
            },
            Ok(Some((f, _))) => {
                best = f;
                kept = current;
            },
        }
    }
    Ok(Shrunk { failure: best, choices: kept, report, settled, lost: false })
}

// ---- laws -------------------------------------------------------------------

/// The elements of `a` stand at these places of `b`, in the same order.
pub open spec fn stands_at<A>(a: Seq<A>, b: Seq<A>, at: Seq<int>) -> bool {
    &&& at.len() == a.len()
    &&& forall|i: int| 0 <= i < at.len() ==> 0 <= (#[trigger] at[i]) < b.len() && a[i] == b[at[i]]
    &&& forall|i: int, j: int| 0 <= i < j < at.len() ==> (#[trigger] at[i]) < (#[trigger] at[j])
}

/// `a` is what is left of `b` when some elements are taken away.
pub open spec fn left_of<A>(a: Seq<A>, b: Seq<A>) -> bool {
    exists|at: Seq<int>| #[trigger] stands_at(a, b, at)
}

proof fn lemma_left_of_itself<A>(a: Seq<A>)
    ensures
        left_of(a, a),
{
    let at = Seq::new(a.len(), |i: int| i);
    assert(stands_at(a, a, at));
}

proof fn lemma_without_is_left<A>(a: Seq<A>, start: int, size: int)
    requires
        0 <= start,
        0 <= size,
        start + size <= a.len(),
    ensures
        left_of(without(a, start, size), a),
{
    let at = Seq::new(
        (a.len() - size) as nat,
        |i: int|
            if i < start {
                i
            } else {
                i + size
            },
    );
    assert(stands_at(without(a, start, size), a, at));
}

proof fn lemma_left_of_left<A>(a: Seq<A>, b: Seq<A>, c: Seq<A>)
    requires
        left_of(a, b),
        left_of(b, c),
    ensures
        left_of(a, c),
{
    let x = choose|at: Seq<int>| #[trigger] stands_at(a, b, at);
    let y = choose|at: Seq<int>| #[trigger] stands_at(b, c, at);
    let z = Seq::new(a.len(), |i: int| y[x[i]]);
    assert forall|i: int| 0 <= i < z.len() implies 0 <= (#[trigger] z[i]) < c.len() && a[i]
        == c[z[i]] by {
        assert(0 <= x[i] < b.len());
        assert(0 <= y[x[i]] < c.len());
    }
    assert forall|i: int, j: int| 0 <= i < j < z.len() implies (#[trigger] z[i]) < (
    #[trigger] z[j]) by {
        assert(x[i] < x[j]);
        assert(0 <= x[i] && x[j] < b.len());
        assert(y[x[i]] < y[x[j]]);
    }
    assert(stands_at(a, c, z));
}

/// Deleting takes choices away and changes nothing else.
pub proof fn deleting_only_takes_away(
    current: Seq<ChoiceModel>,
    round: int,
    start: int,
    log: Seq<Trial>,
)
    requires
        0 <= round,
        deleted(current, round, start, log) is Some,
    ensures
        left_of(deleted(current, round, start, log)->0, current),
        deleted(current, round, start, log)->0.len() <= current.len(),
    decreases 5 - round, log.len(), current.len() - start,
{
    if round >= 5 {
        lemma_left_of_itself(current);
    } else if start < 0 || start + block_size(round) > current.len() {
        deleting_only_takes_away(current, round + 1, 0, log);
    } else if log[0].fails {
        deleting_only_takes_away(log[0].choices, round, start, log.drop_first());
        lemma_without_is_left(current, start, block_size(round));
        lemma_left_of_left(
            deleted(current, round, start, log)->0,
            log[0].choices,
            current,
        );
    } else {
        deleting_only_takes_away(current, round, start + 1, log.drop_first());
    }
}

} // verus!
