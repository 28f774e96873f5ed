//! Running state machines.
//!
//! A test of a state machine draws one rule after the other and runs it. The host runs
//! the rules; which step comes next is decided here. Whatever happens, the machine is torn
//! down before the test ends.
use crate::arguments::{invalid, invalid_argument, ArgumentError};
use vstd::prelude::*;

verus! {

/// The bits of the probability with which the test stops after a step.
pub const STOP_PROBABILITY: u64 = 0x3EF0_0000_0000_0000;

/// How far a test of a state machine has come.
#[derive(Clone, Copy, Debug, PartialEq, Eq, Structural)]
pub enum Phase {
    /// Nothing has happened.
    Start,
    /// The machine has been announced.
    Announced,
    /// The invariants are being checked.
    Checking,
    /// The host is asked whether the test must stop.
    Asking,
    /// Whether the test stops is being drawn.
    Stopping,
    /// A rule is being chosen.
    Choosing,
    /// A rule is running.
    Running,
    /// The end has been announced; with the failure of the test, if it failed.
    Ending { failure: Option<u64> },
    /// The machine is being torn down.
    TearingDown { failure: Option<u64> },
    /// The test is over.
    Over,
}

/// What the host reports.
#[derive(Clone, Copy, Debug, PartialEq, Eq, Structural)]
pub enum Event {
    /// What was asked for has been done.
    Done,
    /// Whether the test must stop, or must not, or either.
    MustStop(Option<bool>),
    /// What was drawn.
    Drew(bool),
    /// The rule that was chosen.
    Chose(u64),
    /// An exception.
    Failed(u64),
}

/// What the host is to do.
#[derive(Clone, Copy, Debug, PartialEq, Eq, Structural)]
pub enum Action {
    /// Say that the machine was made.
    Announce,
    CheckInvariants,
    /// Find out whether the test must stop after so many steps.
    AskMustStop { steps: u64 },
    /// Draw whether to stop.
    DrawStop { forced: Option<bool> },
    ChooseRule,
    RunRule { rule: u64 },
    /// Say that the machine will be torn down.
    AnnounceEnd,
    TearDown,
    /// The test is over and did not fail.
    Finish,
    /// The test is over and failed; with its steps, if this was the last run of it.
    Raise { failure: u64, with_steps: bool },
    /// The event does not fit.
    Confused,
}

/// A test of a state machine.
#[derive(Clone, Copy, Debug, PartialEq, Eq, Structural)]
pub struct StatefulRunner {
    pub phase: Phase,
    pub steps: u64,
    /// This is the last run of a failing test.
    pub is_final: bool,
}

/// The phase that follows, the change of the number of steps, and what the host is to do.
pub open spec fn transition(s: StatefulRunner, e: Event) -> (Phase, int, Action) {
    match (s.phase, e) {
        (Phase::Start, _) => (Phase::Announced, 0, Action::Announce),
        (Phase::Announced, Event::Done) => (Phase::Checking, 0, Action::CheckInvariants),
        (Phase::Checking, Event::Done) => (
            Phase::Asking,
            0,
            Action::AskMustStop { steps: s.steps },
        ),
        (Phase::Asking, Event::MustStop(forced)) => (
            Phase::Stopping,
            0,
            Action::DrawStop { forced },
        ),
        (Phase::Stopping, Event::Drew(true)) => (
            Phase::Ending { failure: None },
            0,
            Action::AnnounceEnd,
        ),
        (Phase::Stopping, Event::Drew(false)) => (Phase::Choosing, 1, Action::ChooseRule),
        (Phase::Choosing, Event::Chose(rule)) => (Phase::Running, 0, Action::RunRule { rule }),
        (Phase::Running, Event::Done) => (Phase::Checking, 0, Action::CheckInvariants),
        (Phase::Ending { failure }, Event::Done) => (
            Phase::TearingDown { failure },
            0,
            Action::TearDown,
        ),
        (Phase::Ending { .. }, Event::Failed(f)) => (
            Phase::Over,
            0,
            Action::Raise { failure: f, with_steps: false },
        ),
        (Phase::TearingDown { failure }, Event::Done) => (
            Phase::Over,
            0,
            match failure {
                Some(f) => Action::Raise { failure: f, with_steps: s.is_final },
                None => Action::Finish,
            },
        ),
        (Phase::TearingDown { .. }, Event::Failed(f)) => (
            Phase::Over,
            0,
            Action::Raise { failure: f, with_steps: false },
        ),
        (Phase::Over, _) => (Phase::Over, 0, Action::Confused),
        (_, Event::Failed(f)) => (
            Phase::Ending { failure: Some(f) },
            0,
            Action::AnnounceEnd,
        ),
        (p, _) => (p, 0, Action::Confused),
    }
}

impl StatefulRunner {
    pub fn new(is_final: bool) -> (r: StatefulRunner)
        ensures
            r.phase == Phase::Start,
            r.steps == 0,
            r.is_final == is_final,
    {
        StatefulRunner { phase: Phase::Start, steps: 0, is_final }
    }

    /// Goes on after an event.
    pub fn advance(self, e: Event) -> (r: (StatefulRunner, Action))
        requires
            self.steps < u64::MAX,
        ensures
            r.0.phase == transition(self, e).0,
            r.0.steps == self.steps + transition(self, e).1,
            r.0.is_final == self.is_final,
            r.1 == transition(self, e).2,
    {
        let mut steps: u64 = self.steps;
        let (phase, action) = match (self.phase, e) {
            (Phase::Start, _) => (Phase::Announced, Action::Announce),
            (Phase::Announced, Event::Done) => (Phase::Checking, Action::CheckInvariants),
            (Phase::Checking, Event::Done) => (Phase::Asking, Action::AskMustStop { steps }),
            (Phase::Asking, Event::MustStop(forced)) => (
                Phase::Stopping,
                Action::DrawStop { forced },
            ),
            (Phase::Stopping, Event::Drew(stop)) => if stop {
                (Phase::Ending { failure: None }, Action::AnnounceEnd)
            } else {
                steps = steps + 1;
                (Phase::Choosing, Action::ChooseRule)
            },
            (Phase::Choosing, Event::Chose(rule)) => (Phase::Running, Action::RunRule { rule }),
            (Phase::Running, Event::Done) => (Phase::Checking, Action::CheckInvariants),
            (Phase::Ending { failure }, Event::Done) => (
                Phase::TearingDown { failure },
                Action::TearDown,
            ),
            (Phase::Ending { .. }, Event::Failed(f)) => (
                Phase::Over,
                Action::Raise { failure: f, with_steps: false },
            ),
            (Phase::TearingDown { failure }, Event::Done) => (
                Phase::Over,
                match failure {
                    Some(f) => Action::Raise { failure: f, with_steps: self.is_final },
                    None => Action::Finish,
                },
            ),
            (Phase::TearingDown { .. }, Event::Failed(f)) => (
                Phase::Over,
                Action::Raise { failure: f, with_steps: false },
            ),
            (Phase::Over, _) => (Phase::Over, Action::Confused),
            (_, Event::Failed(f)) => (Phase::Ending { failure: Some(f) }, Action::AnnounceEnd),
            (p, _) => (p, Action::Confused),
        };
        (StatefulRunner { phase, steps, is_final: self.is_final }, action)
    }
}

/// A test that goes through the events in turn.
pub open spec fn after(s: StatefulRunner, events: Seq<Event>) -> StatefulRunner
    decreases events.len(),
{
    if events.len() == 0 {
        s
    } else {
        let before = after(s, events.drop_last());
        let (phase, more, _) = transition(before, events.last());
        StatefulRunner { phase, steps: (before.steps + more) as u64, is_final: before.is_final }
    }
}

/// How often the host was asked for an action in a run.
pub open spec fn asked(s: StatefulRunner, events: Seq<Event>, which: spec_fn(Action) -> bool) -> int
    decreases events.len(),
{
    if events.len() == 0 {
        0
    } else {
        let before = after(s, events.drop_last());
        asked(s, events.drop_last(), which) + (if which(transition(before, events.last()).2) {
            1int
        } else {
            0int
        })
    }
}

pub open spec fn is_tear_down(a: Action) -> bool {
    a == Action::TearDown
}

pub open spec fn is_choice(a: Action) -> bool {
    a == Action::ChooseRule
}

/// A test succeeds only after its machine has been torn down, and no machine is torn down
/// twice.
pub proof fn success_comes_after_tear_down(is_final: bool, events: Seq<Event>)
    ensures
        ({
            let start = StatefulRunner { phase: Phase::Start, steps: 0, is_final };
            let s = after(start, events);
            let torn = asked(start, events, |a: Action| is_tear_down(a));
            &&& 0 <= torn <= 1
            &&& s.phase is TearingDown ==> torn == 1
            &&& torn == 1 ==> s.phase is TearingDown || s.phase is Over
        }),
        forall|e: Event|
            (#[trigger] transition(
                after(StatefulRunner { phase: Phase::Start, steps: 0, is_final }, events),
                e,
            )).2 == Action::Finish ==> asked(
                StatefulRunner { phase: Phase::Start, steps: 0, is_final },
                events,
                |a: Action| is_tear_down(a),
            ) == 1,
    decreases events.len(),
{
    if events.len() > 0 {
        success_comes_after_tear_down(is_final, events.drop_last());
    }
}

/// The failure that a test ends with is that of the test itself, unless saying so or
/// tearing the machine down failed, too.
pub proof fn failures_are_kept(s: StatefulRunner, f: u64)
    requires
        s.phase is Announced || s.phase is Checking || s.phase is Asking || s.phase is Stopping
            || s.phase is Choosing || s.phase is Running,
    ensures
        after(s, seq![Event::Failed(f), Event::Done]).phase == (Phase::TearingDown {
            failure: Some(f),
        }),
        transition(after(s, seq![Event::Failed(f), Event::Done]), Event::Done).2 == (Action::Raise {
            failure: f,
            with_steps: s.is_final,
        }),
{
    let all = seq![Event::Failed(f), Event::Done];
    let one = seq![Event::Failed(f)];
    assert(all.drop_last() =~= one);
    assert(one.drop_last() =~= Seq::<Event>::empty());
    assert(after(s, one.drop_last()) == s);
    assert(after(s, one).phase == (Phase::Ending { failure: Some(f) }));
    assert(after(s, one).is_final == s.is_final);
}

/// As many rules are chosen as steps are counted.
pub proof fn steps_are_chosen_rules(is_final: bool, events: Seq<Event>)
    requires
        events.len() < u64::MAX,
    ensures
        ({
            let start = StatefulRunner { phase: Phase::Start, steps: 0, is_final };
            after(start, events).steps == asked(start, events, |a: Action| is_choice(a))
                && after(start, events).steps <= events.len()
        }),
    decreases events.len(),
{
    if events.len() > 0 {
        steps_are_chosen_rules(is_final, events.drop_last());
    }
}

/// After each rule, and before the first one, the invariants are checked before it is
/// decided whether another rule follows.
pub proof fn invariants_are_checked_between_rules(s: StatefulRunner, e: Event)
    ensures
        transition(s, e).2 is AskMustStop ==> s.phase == Phase::Checking && e == Event::Done,
        transition(s, e).2 == Action::ChooseRule ==> s.phase == Phase::Stopping,
        transition(s, e).0 == Phase::Stopping && s.phase != Phase::Stopping ==> s.phase
            == Phase::Asking,
        s.phase == Phase::Running && e == Event::Done ==> transition(s, e).2
            == Action::CheckInvariants,
{
}

/// What the host was asked for last, where there was anything.
pub open spec fn request(s: StatefulRunner, events: Seq<Event>) -> Option<Action> {
    if events.len() == 0 {
        None
    } else {
        Some(transition(after(s, events.drop_last()), events.last()).2)
    }
}

/// The host does as it is told: it says that the test must stop from step `n` on, draws what is
/// forced, and never reports what it was not asked for.
pub open spec fn obeys(s: StatefulRunner, events: Seq<Event>, n: u64) -> bool {
    forall|i: int|
        0 <= i < events.len() ==> match #[trigger] request(s, events.take(i)) {
            Some(Action::AskMustStop { steps }) => steps >= n && events[i] is MustStop
                ==> events[i] == Event::MustStop(Some(true)),
            Some(Action::DrawStop { forced: Some(stop) }) => events[i] is Drew ==> events[i]
                == Event::Drew(stop),
            Some(Action::Confused) => false,
            _ => true,
        }
}

/// What the host says about stopping is what is forced on the draw, what is drawn decides, and
/// the host is asked after as many steps as there were.
pub proof fn stopping_is_as_the_host_says(s: StatefulRunner, forced: Option<bool>, stop: bool)
    ensures
        s.phase == Phase::Asking ==> transition(s, Event::MustStop(forced)) == (
            Phase::Stopping,
            0int,
            Action::DrawStop { forced },
        ),
        s.phase == Phase::Stopping ==> transition(s, Event::Drew(stop)).2 == (if stop {
            Action::AnnounceEnd
        } else {
            Action::ChooseRule
        }),
        s.phase == Phase::Checking ==> transition(s, Event::Done).2 == (Action::AskMustStop {
            steps: s.steps,
        }),
{
}

/// What the runner waits for belongs to what the host was asked for last.
proof fn lemma_waits(is_final: bool, events: Seq<Event>, n: u64)
    requires
        obeys(StatefulRunner { phase: Phase::Start, steps: 0, is_final }, events, n),
        events.len() < u64::MAX,
    ensures
        ({
            let start = StatefulRunner { phase: Phase::Start, steps: 0, is_final };
            let s = after(start, events);
            let r = request(start, events);
            &&& s.steps <= n
            &&& r != Some(Action::Confused) ==> {
                &&& s.phase == Phase::Asking ==> r == Some(Action::AskMustStop { steps: s.steps })
                &&& s.phase == Phase::Stopping ==> r is Some && r->0 is DrawStop && (s.steps >= n
                    ==> r == Some(Action::DrawStop { forced: Some(true) }))
            }
        }),
    decreases events.len(),
{
    let start = StatefulRunner { phase: Phase::Start, steps: 0, is_final };
    if events.len() > 0 {
        let front = events.drop_last();
        let k = events.len() - 1;
        assert(events.take(k) =~= front);
        assert forall|i: int| 0 <= i < front.len() implies match #[trigger] request(
            start,
            front.take(i),
        ) {
            Some(Action::AskMustStop { steps }) => steps >= n && front[i] is MustStop ==> front[i]
                == Event::MustStop(Some(true)),
            Some(Action::DrawStop { forced: Some(stop) }) => front[i] is Drew ==> front[i]
                == Event::Drew(stop),
            Some(Action::Confused) => false,
            _ => true,
        } by {
            assert(front.take(i) =~= events.take(i));
            assert(front[i] == events[i]);
        }
        lemma_waits(is_final, front, n);
        steps_are_chosen_rules(is_final, front);
        assert(request(start, events.take(k)) == request(start, front));
    }
}

/// Where the host says that the test must stop from step `n` on, and draws what is forced, no
/// more than `n` rules are chosen.
pub proof fn forced_stops_limit_the_rules(is_final: bool, events: Seq<Event>, n: u64)
    requires
        obeys(StatefulRunner { phase: Phase::Start, steps: 0, is_final }, events, n),
        events.len() < u64::MAX,
    ensures
        asked(
            StatefulRunner { phase: Phase::Start, steps: 0, is_final },
            events,
            |a: Action| is_choice(a),
        ) <= n,
{
    lemma_waits(is_final, events, n);
    steps_are_chosen_rules(is_final, events);
}

/// The host is asked whether the test must stop with the number of rules that were chosen.
pub proof fn the_host_is_told_the_steps(is_final: bool, events: Seq<Event>)
    requires
        events.len() < u64::MAX,
    ensures
        ({
            let start = StatefulRunner { phase: Phase::Start, steps: 0, is_final };
            request(start, events) matches Some(Action::AskMustStop { steps }) ==> steps == asked(
                start,
                events,
                |a: Action| is_choice(a),
            )
        }),
{
    if events.len() > 0 {
        steps_are_chosen_rules(is_final, events.drop_last());
    }
}

/// One step of a test in which nothing fails: the invariants hold, the host is asked, the draw
/// says to go on, and the rule that was chosen is the one that runs. Then the invariants are
/// checked again.
pub proof fn steps_run_the_rules_chosen(s: StatefulRunner, forced: Option<bool>, rule: u64)
    requires
        s.phase == Phase::Checking,
        s.steps < u64::MAX,
    ensures
        ({
            let asking = after(s, seq![Event::Done]);
            let stopping = after(asking, seq![Event::MustStop(forced)]);
            let choosing = after(stopping, seq![Event::Drew(false)]);
            let running = after(choosing, seq![Event::Chose(rule)]);
            let checking = after(running, seq![Event::Done]);
            &&& request(s, seq![Event::Done]) == Some(Action::AskMustStop { steps: s.steps })
            &&& request(asking, seq![Event::MustStop(forced)]) == Some(Action::DrawStop { forced })
            &&& request(stopping, seq![Event::Drew(false)]) == Some(Action::ChooseRule)
            &&& request(choosing, seq![Event::Chose(rule)]) == Some(Action::RunRule { rule })
            &&& request(running, seq![Event::Done]) == Some(Action::CheckInvariants)
            &&& checking == (StatefulRunner { steps: (s.steps + 1) as u64, ..s })
        }),
{
    lemma_one_event(s, Event::Done);
    let asking = after(s, seq![Event::Done]);
    lemma_one_event(asking, Event::MustStop(forced));
    let stopping = after(asking, seq![Event::MustStop(forced)]);
    lemma_one_event(stopping, Event::Drew(false));
    let choosing = after(stopping, seq![Event::Drew(false)]);
    lemma_one_event(choosing, Event::Chose(rule));
    let running = after(choosing, seq![Event::Chose(rule)]);
    lemma_one_event(running, Event::Done);
}

proof fn lemma_one_event(s: StatefulRunner, e: Event)
    ensures
        request(s, seq![e]) == Some(transition(s, e).2),
        after(s, seq![e]) == (StatefulRunner {
            phase: transition(s, e).0,
            steps: (s.steps + transition(s, e).1) as u64,
            is_final: s.is_final,
        }),
{
    let one = seq![e];
    assert(one.drop_last() =~= Seq::<Event>::empty());
    assert(after(s, one.drop_last()) == s);
}

/// A test begins with an announcement and a check of the invariants; once the draw says to
/// stop, the end is announced, the machine is torn down, and the test is over.
pub proof fn tests_begin_and_end_in_order(s: StatefulRunner, e: Event)
    requires
        s.phase == Phase::Start,
    ensures
        ({
            let announced = after(s, seq![e]);
            let checking = after(announced, seq![Event::Done]);
            &&& request(s, seq![e]) == Some(Action::Announce)
            &&& request(announced, seq![Event::Done]) == Some(Action::CheckInvariants)
            &&& checking == (StatefulRunner { phase: Phase::Checking, ..s })
        }),
        ({
            let stopping = StatefulRunner { phase: Phase::Stopping, ..s };
            let ending = after(stopping, seq![Event::Drew(true)]);
            let tearing = after(ending, seq![Event::Done]);
            let over = after(tearing, seq![Event::Done]);
            &&& request(stopping, seq![Event::Drew(true)]) == Some(Action::AnnounceEnd)
            &&& request(ending, seq![Event::Done]) == Some(Action::TearDown)
            &&& request(tearing, seq![Event::Done]) == Some(Action::Finish)
            &&& over.phase == Phase::Over && over.steps == s.steps
        }),
{
    lemma_one_event(s, e);
    let announced = after(s, seq![e]);
    lemma_one_event(announced, Event::Done);
    let stopping = StatefulRunner { phase: Phase::Stopping, ..s };
    lemma_one_event(stopping, Event::Drew(true));
    let ending = after(stopping, seq![Event::Drew(true)]);
    lemma_one_event(ending, Event::Done);
    lemma_one_event(after(ending, seq![Event::Done]), Event::Done);
}

/// A failure while the end is announced or the machine is torn down is raised as it is, and
/// the test is over. Behind the end nothing is done.
pub proof fn late_failures_are_raised(s: StatefulRunner, f: u64, e: Event)
    ensures
        s.phase is Ending || s.phase is TearingDown ==> transition(s, Event::Failed(f)) == (
            Phase::Over,
            0int,
            Action::Raise { failure: f, with_steps: false },
        ),
        s.phase == Phase::Over ==> transition(s, e) == (Phase::Over, 0int, Action::Confused),
{
}

/// Refuses what is no state machine.
pub fn check_machine(is_machine: bool, shown: &str) -> (r: Result<(), ArgumentError>)
    ensures
        r is Ok <==> is_machine,
        r is Err ==> invalid(
            r->Err_0,
            "state_machine_factory() must return a RuleBasedStateMachine, got "@ + shown@,
        ),
{
    if is_machine {
        return Ok(());
    }
    let mut msg = String::new();
    msg.append("state_machine_factory() must return a RuleBasedStateMachine, got ");
    msg.append(shown);
    assert(msg@ =~= "state_machine_factory() must return a RuleBasedStateMachine, got "@ + shown@);
    Err(invalid_argument(msg))
}

/// Whether the steps are printed as they happen.
pub fn prints_steps(is_final: bool, verbose: bool) -> (r: bool)
    ensures
        r == (is_final || verbose),
{
    is_final || verbose
}

/// What is noted on the failure of a test: the steps that led to it.
pub fn failure_notes(printed: &Vec<String>) -> (r: Vec<String>)
    ensures
        r@.len() == printed@.len() + 1,
        r@[0]@ == "Falsifying example:"@,
        forall|i: int| 0 <= i < printed@.len() ==> (#[trigger] r@[i + 1])@ == printed@[i]@,
{
    let mut out: Vec<String> = Vec::new();
    let mut head = String::new();
    head.append("Falsifying example:");
    assert(head@ =~= "Falsifying example:"@);
    out.push(head);
    let mut i: usize = 0;
    while i < printed.len()
        invariant
            i <= printed.len(),
            out@.len() == i + 1,
            out@[0]@ == "Falsifying example:"@,
            forall|k: int| 0 <= k < i ==> (#[trigger] out@[k + 1])@ == printed@[k]@,
        decreases printed.len() - i,
    {
        let ghost before = out@;
        out.push(printed[i].clone());
        proof {
            assert forall|k: int| 0 <= k < i + 1 implies (#[trigger] out@[k + 1])@
                == printed@[k]@ by {
                if k < i {
                    assert(out@[k + 1] == before[k + 1]);
                }
            }
        }
        i = i + 1;
    }
    out
}

} // verus!
