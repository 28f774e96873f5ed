//! Running one test case.
//!
//! The function under test belongs to somebody else: a [`Subject`] draws its
//! arguments and calls it. What comes back is sorted out here.
use crate::choice::{models, Choice, ChoiceModel};
use crate::data::{Case, ConjectureData, Status};
use crate::integer::{decimal, Int};
use crate::provider::Numerics;
use crate::tree::Tracker;
use vstd::prelude::*;

verus! {

/// Where a failure came from: the kind of error and the line that raised it.
/// Failures of one origin are one bug.
#[derive(Debug)]
pub struct Origin {
    pub kind: String,
    pub line: i64,
}

/// What an origin is.
pub struct OriginModel {
    pub kind: Seq<char>,
    pub line: i64,
}

impl View for Origin {
    type V = OriginModel;

    open spec fn view(&self) -> OriginModel {
        OriginModel { kind: self.kind@, line: self.line }
    }
}

impl Origin {
    pub fn same(&self, other: &Origin) -> (r: bool)
        ensures
            r == (self@ == other@),
    {
        self.line == other.line && self.kind == other.kind
    }

    pub fn copy(&self) -> (r: Origin)
        ensures
            r@ == self@,
    {
        Origin { kind: self.kind.clone(), line: self.line }
    }
}

/// A failure. The number stands for the arguments and the error, which the subject
/// keeps.
#[derive(Debug)]
pub struct Failure {
    pub origin: Origin,
    pub id: u64,
}

/// What ended a draw or a call before it was done.
#[derive(Debug)]
pub enum Raised {
    /// The signal that a test case is over, with the number of the test case that
    /// it is meant for, where it carries one.
    StopTest { testcounter: Option<u64> },
    /// An assumption did not hold.
    UnsatisfiedAssumption,
    /// A skip, an interrupt or an exit: none of the engine's business.
    Control { id: u64 },
    /// Any other error.
    Error(Failure),
}

/// How a test case came out.
#[derive(Debug)]
pub enum Outcome {
    Valid,
    Invalid,
    Interesting(Failure),
    /// The same choices have been made before; the test was not called.
    Redundant,
}

/// The function under test. Floats are computed for it, too.
pub trait Subject: Numerics {
    /// Draws all arguments.
    fn draw_arguments(&mut self, data: ConjectureData) -> (ConjectureData, Result<(), Raised>);

    /// Calls the function with the arguments drawn last.
    fn call_test(&mut self, data: ConjectureData) -> (ConjectureData, Result<(), Raised>);
}

/// What an error while drawing arguments means: a rejected test case, or the end of
/// everything.
pub open spec fn draw_means(raised: Raised) -> Result<Outcome, Raised> {
    if raised is StopTest || raised is UnsatisfiedAssumption {
        Ok(Outcome::Invalid)
    } else {
        Err(raised)
    }
}

pub fn after_draw(raised: Raised) -> (r: Result<Outcome, Raised>)
    ensures
        r == draw_means(raised),
{
    match raised {
        Raised::StopTest { .. } => Ok(Outcome::Invalid),
        Raised::UnsatisfiedAssumption => Ok(Outcome::Invalid),
        other => Err(other),
    }
}

/// What the end of a call means. A stop signal that is meant for another test case
/// goes on upwards; one that is meant for this test case ends it, validly where
/// nothing was wrong until then.
pub open spec fn call_means(ended: Result<(), Raised>, testcounter: u64, valid: bool) -> Result<
    Outcome,
    Raised,
> {
    match ended {
        Ok(_) => Ok(Outcome::Valid),
        Err(Raised::UnsatisfiedAssumption) => Ok(Outcome::Invalid),
        Err(Raised::StopTest { testcounter: mark }) => {
            if mark is Some && mark->0 != testcounter {
                Err(Raised::StopTest { testcounter: mark })
            } else if valid {
                Ok(Outcome::Valid)
            } else {
                Ok(Outcome::Invalid)
            }
        },
        Err(Raised::Control { id }) => Err(Raised::Control { id }),
        Err(Raised::Error(f)) => Ok(Outcome::Interesting(f)),
    }
}

pub fn after_call(ended: Result<(), Raised>, testcounter: u64, valid: bool) -> (r: Result<
    Outcome,
    Raised,
>)
    ensures
        r == call_means(ended, testcounter, valid),
{
    match ended {
        Ok(_) => Ok(Outcome::Valid),
        Err(Raised::UnsatisfiedAssumption) => Ok(Outcome::Invalid),
        Err(Raised::StopTest { testcounter: mark }) => {
            let foreign = match mark {
                Some(n) => n != testcounter,
                None => false,
            };
            if foreign {
                Err(Raised::StopTest { testcounter: mark })
            } else if valid {
                Ok(Outcome::Valid)
            } else {
                Ok(Outcome::Invalid)
            }
        },
        Err(Raised::Control { id }) => Err(Raised::Control { id }),
        Err(Raised::Error(f)) => Ok(Outcome::Interesting(f)),
    }
}

/// The errors that a run lets through: a control signal or another error while the
/// arguments are drawn, and a control signal or a stop signal for another test case out
/// of the call. All are the subject's own.
pub open spec fn goes_through<S: Subject>(raised: Raised) -> bool {
    ||| (raised is Control || raised is Error) && exists|
        s: &mut S,
        given: ConjectureData,
        back: ConjectureData,
    | #[trigger] call_ensures(S::draw_arguments, (s, given), (back, Err(raised)))
    ||| exists|s: &mut S, given: ConjectureData, back: ConjectureData|
        {
            &&& #[trigger] call_ensures(S::call_test, (s, given), (back, Err(raised)))
            &&& raised is Control || (raised is StopTest && raised->testcounter is Some
                && raised->testcounter->0 != back.case().testcounter)
        }
}

/// The tracker knows the choices of a test case.
pub open spec fn known_to(tracker: Option<&Tracker>, case: Case) -> bool {
    tracker is Some && tracker->0.on && tracker->0.tree.ends(crate::data::recorded(case.nodes@))
}

/// How a test case came out whose arguments could not be drawn.
pub open spec fn ended_by_draw(
    drawn: Case,
    raised: Raised,
    after: Case,
    outcome: Result<Outcome, Raised>,
) -> bool {
    &&& after.ended_from(drawn, drawn.status, drawn.interesting_origin)
    &&& outcome == draw_means(raised)
}

/// How a test case came out whose choices were known.
pub open spec fn ended_as_known(
    drawn: Case,
    after: Case,
    outcome: Result<Outcome, Raised>,
) -> bool {
    &&& after.ended_from(drawn, drawn.status, drawn.interesting_origin)
    &&& outcome == Ok::<Outcome, Raised>(Outcome::Redundant)
}

/// How a test case came out that the test was called with.
pub open spec fn ended_by_call(
    called: Case,
    call: Result<(), Raised>,
    after: Case,
    outcome: Result<Outcome, Raised>,
) -> bool {
    &&& after.ended_from(called, called.status, called.interesting_origin)
    &&& outcome == call_means(call, called.testcounter, called.status == Status::Valid)
}

/// The test was called behind the draws, and this is how it came out.
pub open spec fn was_called<S: Subject>(
    drawn: Case,
    after: Case,
    outcome: Result<Outcome, Raised>,
) -> bool {
    exists|s: &mut S, given: ConjectureData, back: ConjectureData, call: Result<(), Raised>|
        {
            &&& #[trigger] call_ensures(S::call_test, (s, given), (back, call))
            &&& given.case() == drawn
            &&& ended_by_call(back.case(), call, after, outcome)
        }
}

/// The subject was run on a test case, and this is how it came out: the arguments were
/// drawn from it; unless that failed, or the choices were known, the test was called with
/// what the draws left.
pub open spec fn ran<S: Subject>(
    tracker: Option<&Tracker>,
    case: Case,
    after: Case,
    outcome: Result<Outcome, Raised>,
) -> bool {
    exists|s: &mut S, given: ConjectureData, back: ConjectureData, draws: Result<(), Raised>|
        {
            &&& #[trigger] call_ensures(S::draw_arguments, (s, given), (back, draws))
            &&& given.case() == case
            &&& match draws {
                Err(raised) => ended_by_draw(back.case(), raised, after, outcome),
                Ok(_) => if known_to(tracker, back.case()) {
                    ended_as_known(back.case(), after, outcome)
                } else {
                    was_called::<S>(back.case(), after, outcome)
                },
            }
        }
}

/// The test was called once, by the subject as it was before and as it was left.
/// `fut` tells what a subject that was borrowed for a call is left as.
pub open spec fn called_from<S: Subject>(
    fut: spec_fn(&mut S) -> S,
    before: S,
    left: S,
    drawn: Case,
    after: Case,
    outcome: Result<Outcome, Raised>,
) -> bool {
    exists|s: &mut S, given: ConjectureData, back: ConjectureData, call: Result<(), Raised>|
        {
            &&& #[trigger] call_ensures(S::call_test, (s, given), (back, call))
            &&& *s == before && fut(s) == left
            &&& given.case() == drawn
            &&& ended_by_call(back.case(), call, after, outcome)
        }
}

/// The subject was run on a test case, and nothing else was done with it: the arguments were
/// drawn once, and the test was called once with what the draws left, unless they failed or
/// the choices were known.
pub open spec fn ran_from<S: Subject>(
    fut: spec_fn(&mut S) -> S,
    before: S,
    left: S,
    tracker: Option<&Tracker>,
    case: Case,
    after: Case,
    outcome: Result<Outcome, Raised>,
) -> bool {
    exists|s: &mut S, given: ConjectureData, back: ConjectureData, draws: Result<(), Raised>|
        {
            &&& #[trigger] call_ensures(S::draw_arguments, (s, given), (back, draws))
            &&& *s == before
            &&& given.case() == case
            &&& match draws {
                Err(raised) => fut(s) == left && ended_by_draw(
                    back.case(),
                    raised,
                    after,
                    outcome,
                ),
                Ok(_) => if known_to(tracker, back.case()) {
                    fut(s) == left && ended_as_known(back.case(), after, outcome)
                } else {
                    called_from::<S>(fut, fut(s), left, back.case(), after, outcome)
                },
            }
        }
}

/// The subject was run on a test case that plays back these choices, and this is how it
/// came out.
pub open spec fn played_back<S: Subject>(
    choices: Seq<ChoiceModel>,
    buffer_limit: Option<u64>,
    after: Case,
    outcome: Result<Outcome, Raised>,
) -> bool {
    exists|case: Case|
        case.only_replays(choices, buffer_limit) && #[trigger] ran::<S>(None, case, after, outcome)
}

/// A run that played back these choices came out like this.
pub open spec fn comes_out<S: Subject>(
    choices: Seq<ChoiceModel>,
    buffer_limit: Option<u64>,
    outcome: Outcome,
) -> bool {
    exists|after: Case| #[trigger] played_back::<S>(choices, buffer_limit, after, Ok(outcome))
}

/// Whether a run that came out like this failed with the given origin.
pub open spec fn failed_with(outcome: Outcome, origin: OriginModel) -> bool {
    outcome is Interesting && outcome->Interesting_0.origin@ == origin
}

/// Runs a test case to its end: draws the arguments from it, and calls the test with what
/// the draws left. Choices that the tracker knows are not run again.
pub fn run_one<S: Subject>(subject: &mut S, case: Case, tracker: Option<&Tracker>) -> (r: (
    Case,
    Result<Outcome, Raised>,
))
    requires
        case.wf(),
        tracker is Some ==> tracker->0.wf(),
    ensures
        r.0.wf(),
        r.0.frozen,
        r.1 is Ok && r.1->Ok_0 is Redundant ==> known_to(tracker, r.0),
        ran_from::<S>(
            |s: &mut S| *final(s),
            *old(subject),
            *final(subject),
            tracker,
            case,
            r.0,
            r.1,
        ),
        ran::<S>(tracker, case, r.0, r.1),
        r.1 is Err ==> goes_through::<S>(r.1->Err_0),
{
    let (data, drawn) = subject.draw_arguments(ConjectureData::seal(case));
    if let Err(raised) = drawn {
        let mut case = data.unseal();
        case.freeze();
        let outcome = after_draw(raised);
        return (case, outcome);
    }
    let case = data.unseal();
    let known = match tracker {
        Some(t) => t.is_redundant(&case.nodes),
        None => false,
    };
    if known {
        let mut case = case;
        case.freeze();
        let outcome: Result<Outcome, Raised> = Ok(Outcome::Redundant);
        return (case, outcome);
    }
    let (data, ended) = subject.call_test(ConjectureData::seal(case));
    let mut case = data.unseal();
    let outcome = after_call(ended, case.testcounter, case.status_is_valid());
    case.freeze();
    (case, outcome)
}

/// The last line of a traceback that could be read, or minus one.
pub open spec fn deepest_line(lines: Seq<Option<i64>>) -> i64
    decreases lines.len(),
{
    if lines.len() == 0 {
        -1i64
    } else if lines.last() is Some {
        lines.last()->0
    } else {
        deepest_line(lines.drop_last())
    }
}

/// Where an error came from. `lines` are those of its traceback, outermost first.
pub fn origin_of(kind: &String, lines: &Vec<Option<i64>>) -> (r: Origin)
    ensures
        r@ == (OriginModel { kind: kind@, line: deepest_line(lines@) }),
{
    let mut line: i64 = -1;
    let mut i: usize = 0;
    assert(lines@.take(0) =~= Seq::<Option<i64>>::empty());
    while i < lines.len()
        invariant
            i <= lines.len(),
            line == deepest_line(lines@.take(i as int)),
        decreases lines.len() - i,
    {
        proof {
            assert(lines@.take(i + 1).drop_last() =~= lines@.take(i as int));
            assert(lines@.take(i + 1).last() == lines@[i as int]);
        }
        if let Some(n) = lines[i] {
            line = n;
        }
        i = i + 1;
    }
    assert(lines@.take(i as int) =~= lines@);
    Origin { kind: kind.clone(), line }
}

/// What replaying choices shows: the failure, if there is one.
pub open spec fn failure_in(outcome: Result<Outcome, Raised>) -> Result<Option<Failure>, Raised> {
    match outcome {
        Ok(Outcome::Interesting(f)) => Ok(Some(f)),
        Ok(_) => Ok(None),
        Err(e) => Err(e),
    }
}

pub fn reproduced(outcome: Result<Outcome, Raised>) -> (r: Result<Option<Failure>, Raised>)
    ensures
        r == failure_in(outcome),
{
    match outcome {
        Ok(Outcome::Interesting(f)) => Ok(Some(f)),
        Ok(_) => Ok(None),
        Err(e) => Err(e),
    }
}

/// Replays choices once and tells the failure that they lead to, if they lead to one.
pub fn reproduce_native<S: Subject>(
    subject: &mut S,
    choices: &Vec<Choice>,
    seed: u64,
) -> (r: (Case, Result<Option<Failure>, Raised>))
    ensures
        r.0.wf(),
        r.0.frozen,
        exists|o: Result<Outcome, Raised>|
            #[trigger] played_back::<S>(models(choices@), None, r.0, o) && r.1 == failure_in(o),
{
    let case = Case::new_for_choices(choices, seed, None);
    let (case, outcome) = run_one(subject, case, None);
    assert(played_back::<S>(models(choices@), None, case, outcome));
    (case, reproduced(outcome))
}

/// The note about something that was drawn while the test ran: the how manieth it was,
/// the label that it was given, and how it is shown.
pub open spec fn draw_note(count: u64, label: Option<Seq<char>>, shown: Seq<char>) -> Seq<char> {
    "Draw "@ + decimal(count as int) + (match label {
        Some(l) => " ("@ + l + ")"@,
        None => ""@,
    }) + ": "@ + shown
}

pub fn note_draw(count: u64, label: &Option<String>, shown: &str) -> (r: String)
    ensures
        r@ == draw_note(
            count,
            match *label {
                Some(l) => Some(l@),
                None => None,
            },
            shown@,
        ),
{
    let mut out = String::new();
    out.append("Draw ");
    let n = Int::of_unsigned(count).to_decimal();
    out.append(n.as_str());
    match label {
        Some(l) => {
            out.append(" (");
            out.append(l.as_str());
            out.append(")");
        },
        None => out.append(""),
    }
    out.append(": ");
    out.append(shown);
    assert(out@ =~= draw_note(
        count,
        match *label {
            Some(l) => Some(l@),
            None => None,
        },
        shown@,
    ));
    out
}

/// Whether it is noted how a value was made from another one: only in the last run of a
/// failing test, and only while a test case is being built.
pub fn record_created_call(building: Option<bool>) -> (r: bool)
    ensures
        r == (building == Some(true)),
{
    match building {
        Some(is_final) => is_final,
        None => false,
    }
}

// ---- what ends a test case --------------------------------------------------

/// A test fails where it raises an error, and only there. It is valid where it returns, or where
/// it is stopped itself with nothing wrong; a signal for somebody else is handed on as it is.
pub proof fn only_errors_are_failures(ended: Result<(), Raised>, testcounter: u64, valid: bool)
    ensures
        ({
            let r = call_means(ended, testcounter, valid);
            let mine = ended is Err && ended->Err_0 is StopTest && (ended->Err_0->testcounter is None
                || ended->Err_0->testcounter == Some(testcounter));
            &&& r is Ok && r->Ok_0 is Interesting <==> ended is Err && ended->Err_0 is Error
            &&& ended is Err && ended->Err_0 is Error ==> r->Ok_0->Interesting_0
                == ended->Err_0->Error_0
            &&& r is Ok && r->Ok_0 is Valid <==> ended is Ok || (mine && valid)
            &&& r is Ok && r->Ok_0 is Invalid <==> ended is Err && (
            ended->Err_0 is UnsatisfiedAssumption || (mine && !valid))
            &&& r is Err ==> ended is Err && r->Err_0 == ended->Err_0
            &&& ended is Err && ended->Err_0 is Control ==> r is Err
        }),
{
}

/// What is raised while arguments are drawn rejects the test case where that is what it is for,
/// and is handed on as it is otherwise. It is never a failure of the test.
pub proof fn draws_do_not_fail_a_test(raised: Raised)
    ensures
        draw_means(raised) is Ok <==> raised is StopTest || raised is UnsatisfiedAssumption,
        draw_means(raised) is Ok ==> draw_means(raised)->Ok_0 is Invalid,
        draw_means(raised) is Err ==> draw_means(raised)->Err_0 == raised,
{
}

} // verus!
