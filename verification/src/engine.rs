//! A whole run: saved examples first, then the simplest one, then random ones, and
//! at the end the simplest form of every failure.
use crate::choice::{choice_equal, copy_choices, models, Choice, ChoiceError, ChoiceModel};
use crate::codec::{
    all_encodable, can_encode, choices_survive_their_bytes, decode, decoded_all, encode_choices,
    encoded_all, DecodeError,
};
use crate::data::{Case, ConjectureData, Status};
use crate::database::{bytes_before, bytes_less};
use crate::integer::{decimal, Int};
use crate::provider::fresh_seed;
use crate::runner::{
    called_from, comes_out, ended_as_known, ended_by_draw, failed_with, goes_through, known_to,
    played_back, ran, ran_from, run_one, was_called, Failure, Origin, OriginModel, Outcome, Raised,
    Subject,
};
use crate::shrinker::{
    all_lead, all_tried, counted_way, goes_astray, leads_to, reached, saturated, shows, shrink,
    shrinking_halts, shrunk_along, shrunk_from, slipped_distinct, strayed, tried, Bug, Halt,
    ShrinkReport, Shrunk, Trial, Trials,
};
use crate::tree::{
    all_finite, node_seq, way, Tracker, TreeNode, MAX_TOTAL_TRACKED_NODES, MAX_TRACKED_NODES,
};
use vstd::prelude::*;

verus! {

// ---- the order of choice sequences ------------------------------------------

/// Two choices that have no order: a number and a string, say.
#[derive(Clone, Copy, Debug, PartialEq, Eq, Structural)]
pub struct Incomparable;

/// The order of strings: by the first codepoint that differs, a prefix before
/// anything that extends it.
pub open spec fn text_less(a: Seq<u32>, b: Seq<u32>) -> bool
    decreases a.len(),
{
    if b.len() == 0 {
        false
    } else if a.len() == 0 {
        true
    } else if a[0] == b[0] {
        text_less(a.drop_first(), b.drop_first())
    } else {
        a[0] < b[0]
    }
}

/// The order of two choices. Booleans come before floats; other kinds do not mix.
pub open spec fn choice_less(a: ChoiceModel, b: ChoiceModel) -> Option<bool> {
    match (a, b) {
        (ChoiceModel::Integer(x), ChoiceModel::Integer(y)) => Some(x < y),
        (ChoiceModel::Boolean(x), ChoiceModel::Boolean(y)) => Some(!x && y),
        (ChoiceModel::Float(x), ChoiceModel::Float(y)) => Some(x < y),
        (ChoiceModel::Boolean(_), ChoiceModel::Float(_)) => Some(true),
        (ChoiceModel::Float(_), ChoiceModel::Boolean(_)) => Some(false),
        (ChoiceModel::Text(x), ChoiceModel::Text(y)) => Some(text_less(x, y)),
        (ChoiceModel::Bytes(x), ChoiceModel::Bytes(y)) => Some(bytes_less(x, y)),
        _ => None,
    }
}

/// The order of two sequences of one length: that of the first two choices that
/// differ.
pub open spec fn first_difference_less(a: Seq<ChoiceModel>, b: Seq<ChoiceModel>) -> Option<bool>
    decreases a.len(),
{
    if a.len() == 0 || b.len() == 0 {
        Some(false)
    } else if a[0] == b[0] {
        first_difference_less(a.drop_first(), b.drop_first())
    } else {
        choice_less(a[0], b[0])
    }
}

/// The order of sequences: the shorter one first, then by the first difference.
pub open spec fn sequence_less(a: Seq<ChoiceModel>, b: Seq<ChoiceModel>) -> Option<bool> {
    if a.len() != b.len() {
        Some(a.len() < b.len())
    } else {
        first_difference_less(a, b)
    }
}

fn text_before(a: &Vec<u32>, b: &Vec<u32>) -> (r: bool)
    ensures
        r == text_less(a@, b@),
{
    let mut i: usize = 0;
    proof {
        assert(a@.skip(0) =~= a@);
        assert(b@.skip(0) =~= b@);
    }
    while i < a.len() && i < b.len()
        invariant
            i <= a.len(),
            i <= b.len(),
            text_less(a@, b@) == text_less(a@.skip(i as int), b@.skip(i as int)),
        decreases a.len() - i,
    {
        proof {
            assert(a@.skip(i as int)[0] == a@[i as int]);
            assert(b@.skip(i as int)[0] == b@[i as int]);
            assert(a@.skip(i as int).drop_first() =~= a@.skip(i + 1));
            assert(b@.skip(i as int).drop_first() =~= b@.skip(i + 1));
        }
        if a[i] != b[i] {
            return a[i] < b[i];
        }
        i = i + 1;
    }
    i < b.len()
}

fn choice_before(a: &Choice, b: &Choice) -> (r: Result<bool, Incomparable>)
    ensures
        match choice_less(a@, b@) {
            Some(less) => r == Ok::<bool, Incomparable>(less),
            None => r is Err,
        },
{
    match (a, b) {
        (Choice::Integer(x), Choice::Integer(y)) => Ok(x.less(y)),
        (Choice::Boolean(x), Choice::Boolean(y)) => Ok(!*x && *y),
        (Choice::Float(x), Choice::Float(y)) => Ok(*x < *y),
        (Choice::Boolean(_), Choice::Float(_)) => Ok(true),
        (Choice::Float(_), Choice::Boolean(_)) => Ok(false),
        (Choice::Text(x), Choice::Text(y)) => Ok(text_before(x, y)),
        (Choice::Bytes(x), Choice::Bytes(y)) => Ok(bytes_before(x, y)),
        _ => Err(Incomparable),
    }
}

/// Whether `a` is the simpler one of two sequences.
pub fn choices_lt(a: &Vec<Choice>, b: &Vec<Choice>) -> (r: Result<bool, Incomparable>)
    ensures
        match sequence_less(models(a@), models(b@)) {
            Some(less) => r == Ok::<bool, Incomparable>(less),
            None => r is Err,
        },
{
    let ghost x = models(a@);
    let ghost y = models(b@);
    proof {
        assert(x.len() == a@.len());
        assert(y.len() == b@.len());
        assert(x.skip(0) =~= x);
        assert(y.skip(0) =~= y);
    }
    if a.len() != b.len() {
        return Ok(a.len() < b.len());
    }
    let mut i: usize = 0;
    while i < a.len()
        invariant
            i <= a.len(),
            a.len() == b.len(),
            x == models(a@),
            y == models(b@),
            first_difference_less(x, y) == first_difference_less(
                x.skip(i as int),
                y.skip(i as int),
            ),
        decreases a.len() - i,
    {
        proof {
            assert(x.skip(i as int)[0] == a@[i as int]@);
            assert(y.skip(i as int)[0] == b@[i as int]@);
            assert(x.skip(i as int).drop_first() =~= x.skip(i + 1));
            assert(y.skip(i as int).drop_first() =~= y.skip(i + 1));
        }
        if !choice_equal(&a[i], &b[i]) {
            return choice_before(&a[i], &b[i]);
        }
        i = i + 1;
    }
    Ok(false)
}

/// No sequence is simpler than itself, and of two sequences at most one is the
/// simpler one.
pub proof fn simpler_is_asymmetric(a: Seq<ChoiceModel>, b: Seq<ChoiceModel>)
    ensures
        sequence_less(a, a) == Some(false),
        !(sequence_less(a, b) == Some(true) && sequence_less(b, a) == Some(true)),
    decreases a.len(),
{
    lemma_first_difference(a, a);
    if a.len() == b.len() {
        lemma_first_difference(a, b);
    }
}

proof fn lemma_first_difference(a: Seq<ChoiceModel>, b: Seq<ChoiceModel>)
    requires
        a.len() == b.len(),
    ensures
        a == b ==> first_difference_less(a, b) == Some(false),
        !(first_difference_less(a, b) == Some(true) && first_difference_less(b, a) == Some(true)),
    decreases a.len(),
{
    if a.len() > 0 {
        lemma_first_difference(a.drop_first(), b.drop_first());
        match (a[0], b[0]) {
            (ChoiceModel::Text(x), ChoiceModel::Text(y)) => {
                lemma_text_asymmetric(x, y);
            },
            (ChoiceModel::Bytes(x), ChoiceModel::Bytes(y)) => {
                crate::database::bytes_order_is_asymmetric(x, y);
            },
            _ => {},
        }
    }
}

/// What is simpler than something simpler is simpler.
pub proof fn simpler_is_transitive(
    a: Seq<ChoiceModel>,
    b: Seq<ChoiceModel>,
    c: Seq<ChoiceModel>,
)
    requires
        sequence_less(a, b) == Some(true),
        sequence_less(b, c) == Some(true),
    ensures
        sequence_less(a, c) == Some(true),
{
    if a.len() == b.len() && b.len() == c.len() {
        lemma_first_difference_transitive(a, b, c);
    }
}

proof fn lemma_first_difference_transitive(
    a: Seq<ChoiceModel>,
    b: Seq<ChoiceModel>,
    c: Seq<ChoiceModel>,
)
    requires
        a.len() == b.len() == c.len(),
        first_difference_less(a, b) == Some(true),
        first_difference_less(b, c) == Some(true),
    ensures
        first_difference_less(a, c) == Some(true),
    decreases a.len(),
{
    if a[0] == b[0] && b[0] == c[0] {
        lemma_first_difference_transitive(a.drop_first(), b.drop_first(), c.drop_first());
    } else if a[0] != b[0] && b[0] != c[0] {
        match (a[0], b[0], c[0]) {
            (ChoiceModel::Text(x), ChoiceModel::Text(y), ChoiceModel::Text(z)) => {
                lemma_text_transitive(x, y, z);
                lemma_text_asymmetric(x, y);
            },
            (ChoiceModel::Bytes(x), ChoiceModel::Bytes(y), ChoiceModel::Bytes(z)) => {
                crate::database::bytes_order_is_transitive(x, y, z);
                crate::database::bytes_order_is_asymmetric(x, y);
            },
            _ => {},
        }
    }
}

proof fn lemma_text_transitive(a: Seq<u32>, b: Seq<u32>, c: Seq<u32>)
    requires
        text_less(a, b),
        text_less(b, c),
    ensures
        text_less(a, c),
    decreases a.len(),
{
    if a.len() > 0 && a[0] == b[0] && b[0] == c[0] {
        lemma_text_transitive(a.drop_first(), b.drop_first(), c.drop_first());
    }
}

proof fn lemma_text_asymmetric(a: Seq<u32>, b: Seq<u32>)
    ensures
        !(text_less(a, b) && text_less(b, a)),
    decreases a.len(),
{
    if a.len() > 0 && b.len() > 0 {
        lemma_text_asymmetric(a.drop_first(), b.drop_first());
    }
}

// ---- counting examples ------------------------------------------------------

/// Once a bug is known, at least this many examples are made all the same.
pub const MIN_TEST_CALLS: u64 = 10;

/// What a run is to do.
#[derive(Clone, Copy, Debug, PartialEq, Eq, Structural)]
pub struct Settings {
    pub max_examples: u32,
    pub seed: u64,
    /// Whether to look for more than one bug.
    pub report_multiple_bugs: bool,
    /// Whether too many rejected examples are not worth a complaint.
    pub filter_suppressed: bool,
    /// Whether slow generation is not worth a complaint.
    pub too_slow_suppressed: bool,
    /// After so many rejected examples and no valid one the run gives up; never, if
    /// zero.
    pub invalid_cap: u64,
    pub max_shrinks: u64,
    pub buffer_limit: Option<u64>,
}

/// Where a run stands.
#[derive(Clone, Copy, Debug, PartialEq, Eq, Structural)]
pub struct Counters {
    pub valid: u32,
    pub invalid: u64,
    /// The rejected examples that had run out of room.
    pub overrun: u64,
    pub iters: u64,
    pub call_count: u64,
    pub first_bug_at: Option<u64>,
    pub last_bug_at: u64,
    pub keep_going: bool,
}

/// What an example was.
#[derive(Clone, Copy, Debug, PartialEq, Eq, Structural)]
pub enum Kind {
    Valid,
    Invalid { overran: bool },
    Redundant,
    /// A failure of an origin that was not known.
    NewBug,
    KnownBug,
}

/// How many examples a run makes at most.
pub open spec fn example_cap(max_examples: u32) -> u64 {
    (max_examples * 10 + 100) as u64
}

/// After so many rejected examples a run without valid ones gives up.
pub open spec fn giving_up_at(invalid_cap: u64) -> u64 {
    if invalid_cap > 0 {
        invalid_cap
    } else {
        u64::MAX
    }
}

/// From this call on the search for more bugs ends: a thousand behind the first one,
/// or at twice the call that found the last one.
pub open spec fn bug_window(c: Counters) -> u64 {
    let first = match c.first_bug_at {
        Some(n) => n,
        None => c.call_count,
    };
    let far = saturated(first, 1000);
    let twice = saturated(c.last_bug_at, c.last_bug_at as int);
    if far < twice {
        far
    } else {
        twice
    }
}

/// The counters behind an example, without the decision whether to go on.
pub open spec fn tallied(c: Counters, kind: Kind) -> Counters {
    let next = saturated(c.call_count, 1);
    Counters {
        valid: if kind is Valid && c.valid < u32::MAX {
            (c.valid + 1) as u32
        } else {
            c.valid
        },
        invalid: if kind is Invalid {
            saturated(c.invalid, 1)
        } else {
            c.invalid
        },
        overrun: if kind == (Kind::Invalid { overran: true }) {
            saturated(c.overrun, 1)
        } else {
            c.overrun
        },
        iters: c.iters,
        call_count: next,
        first_bug_at: if kind is NewBug && c.first_bug_at is None {
            Some(next)
        } else {
            c.first_bug_at
        },
        last_bug_at: if kind is NewBug {
            next
        } else {
            c.last_bug_at
        },
        keep_going: c.keep_going,
    }
}

/// Whether to make another example.
pub open spec fn goes_on(
    before: Counters,
    after: Counters,
    kind: Kind,
    settings: Settings,
    exhausted: bool,
    bugs: bool,
) -> bool {
    &&& before.keep_going
    &&& !((kind is NewBug || kind is KnownBug) && !settings.report_multiple_bugs)
    &&& !exhausted
    &&& !(settings.report_multiple_bugs && bugs && after.call_count >= MIN_TEST_CALLS
        && after.call_count >= bug_window(after))
    &&& !(after.valid == 0 && after.invalid >= giving_up_at(settings.invalid_cap))
}

/// Where a run stands behind an example that came out of the generator.
pub open spec fn counted_on(
    c: Counters,
    kind: Kind,
    settings: Settings,
    exhausted: bool,
    bugs: bool,
) -> Counters {
    let t = tallied(c, kind);
    Counters {
        iters: saturated(c.iters, 1),
        keep_going: goes_on(c, t, kind, settings, exhausted, bugs),
        ..t
    }
}

/// Counts an example that came out of the generator.
pub fn count_example(
    c: Counters,
    kind: Kind,
    settings: &Settings,
    exhausted: bool,
    bugs: bool,
) -> (r: Counters)
    ensures
        r == counted_on(c, kind, *settings, exhausted, bugs),
{
    let mut r: Counters = tally(c, kind);
    r.iters = bump(c.iters);
    let bug = match kind {
        Kind::NewBug => true,
        Kind::KnownBug => true,
        _ => false,
    };
    if bug && !settings.report_multiple_bugs {
        r.keep_going = false;
    }
    if exhausted {
        r.keep_going = false;
    }
    if settings.report_multiple_bugs && bugs {
        let first: u64 = match r.first_bug_at {
            Some(n) => n,
            None => r.call_count,
        };
        let far: u64 = if first > u64::MAX - 1000 {
            u64::MAX
        } else {
            first + 1000
        };
        let twice: u64 = if r.last_bug_at > u64::MAX - r.last_bug_at {
            u64::MAX
        } else {
            r.last_bug_at + r.last_bug_at
        };
        let window: u64 = if far < twice {
            far
        } else {
            twice
        };
        if r.call_count >= MIN_TEST_CALLS && r.call_count >= window {
            r.keep_going = false;
        }
    }
    let giveup: u64 = if settings.invalid_cap > 0 {
        settings.invalid_cap
    } else {
        u64::MAX
    };
    if r.valid == 0 && r.invalid >= giveup {
        r.keep_going = false;
    }
    r
}

fn bump(n: u64) -> (r: u64)
    ensures
        r == saturated(n, 1),
{
    if n < u64::MAX {
        n + 1
    } else {
        n
    }
}

/// Counts an example, whatever it was made from.
pub fn tally(c: Counters, kind: Kind) -> (r: Counters)
    ensures
        r == tallied(c, kind),
{
    let mut r: Counters = c;
    r.call_count = bump(c.call_count);
    match kind {
        Kind::Valid => {
            if c.valid < u32::MAX {
                r.valid = c.valid + 1;
            }
        },
        Kind::Invalid { overran } => {
            r.invalid = bump(c.invalid);
            if overran {
                r.overrun = bump(c.overrun);
            }
        },
        Kind::NewBug => {
            if c.first_bug_at.is_none() {
                r.first_bug_at = Some(r.call_count);
            }
            r.last_bug_at = r.call_count;
        },
        _ => {},
    }
    r
}

/// Why a run has no result.
#[derive(Debug)]
pub enum RunError {
    Raised(Raised),
    Choice(ChoiceError),
    Incomparable,
    /// Making arguments takes too long.
    TooSlow { valid: u32 },
    /// Every example ran out of room.
    TooLarge { count: u64 },
    /// There are only finitely many examples, and all of them were rejected.
    Unsatisfiable,
    /// All examples were rejected.
    Rejected { count: u64 },
    /// All examples were rejected, and that is worth a complaint.
    FilterTooMuch,
    /// The same choices failed in different ways.
    Flaky { first: Failure, second: Failure },
}

/// What is wrong with a run that found no bug: nothing, unless there was no valid
/// example at all.
pub fn verdict_without_bugs(
    c: &Counters,
    all_rejected: bool,
    filter_suppressed: bool,
) -> (r: Result<(), RunError>)
    ensures
        c.valid > 0 || c.invalid == 0 <==> r is Ok,
        r is Err ==> r->Err_0 == (if c.overrun == c.invalid {
            RunError::TooLarge { count: c.invalid }
        } else if all_rejected {
            RunError::Unsatisfiable
        } else if filter_suppressed {
            RunError::Rejected { count: c.invalid }
        } else {
            RunError::FilterTooMuch
        }),
{
    if c.valid > 0 || c.invalid == 0 {
        return Ok(());
    }
    if c.overrun == c.invalid {
        return Err(RunError::TooLarge { count: c.invalid });
    }
    if all_rejected {
        return Err(RunError::Unsatisfiable);
    }
    if filter_suppressed {
        return Err(RunError::Rejected { count: c.invalid });
    }
    Err(RunError::FilterTooMuch)
}

/// What is said about a run in which every example was rejected.
pub open spec fn run_error_text(e: RunError, test_name: Seq<char>) -> Seq<char> {
    match e {
        RunError::TooLarge { count } => "Unable to satisfy assumptions of "@ + test_name + ". "@
            + decimal(count as int) + " of "@ + decimal(count as int)
            + " examples were too large to finish generating; try reducing the typical size of your inputs?"@,
        RunError::Unsatisfiable =>
            "Unable to satisfy assumptions of test: all possible values were rejected (Unsatisfiable)."@,
        RunError::Rejected { count } => "Unable to satisfy assumptions of "@ + test_name + ". "@
            + decimal(count as int) + " of "@ + decimal(count as int)
            + " examples failed a .filter() or assume() condition. Try making your filters or assumes less strict, or rewrite using strategy parameters: st.integers().filter(lambda x: x > 0) fails less often (that is, never) when rewritten as st.integers(min_value=1)."@,
        RunError::FilterTooMuch =>
            "It looks like your strategy filters out a lot of data; the test was unable to find any valid examples (filter_too_much)."@,
        _ => Seq::empty(),
    }
}

impl RunError {
    /// The text for a run in which every example was rejected; empty for the other
    /// errors, which carry their own.
    pub fn message(&self, test_name: &str) -> (r: String)
        ensures
            r@ == run_error_text(*self, test_name@),
    {
        let mut out = String::new();
        match self {
            RunError::TooLarge { count } => {
                let n = Int::of_unsigned(*count).to_decimal();
                out.append("Unable to satisfy assumptions of ");
                out.append(test_name);
                out.append(". ");
                out.append(n.as_str());
                out.append(" of ");
                out.append(n.as_str());
                out.append(
                    " examples were too large to finish generating; try reducing the typical size of your inputs?",
                );
            },
            RunError::Unsatisfiable => {
                out.append(
                    "Unable to satisfy assumptions of test: all possible values were rejected (Unsatisfiable).",
                );
            },
            RunError::Rejected { count } => {
                let n = Int::of_unsigned(*count).to_decimal();
                out.append("Unable to satisfy assumptions of ");
                out.append(test_name);
                out.append(". ");
                out.append(n.as_str());
                out.append(" of ");
                out.append(n.as_str());
                out.append(
                    " examples failed a .filter() or assume() condition. Try making your filters or assumes less strict, or rewrite using strategy parameters: st.integers().filter(lambda x: x > 0) fails less often (that is, never) when rewritten as st.integers(min_value=1).",
                );
            },
            RunError::FilterTooMuch => {
                out.append(
                    "It looks like your strategy filters out a lot of data; the test was unable to find any valid examples (filter_too_much).",
                );
            },
            _ => {},
        }
        proof {
            assert(out@ =~= run_error_text(*self, test_name@));
        }
        out
    }
}

// ---- the run ----------------------------------------------------------------

/// What a run needs besides the function under test: the surroundings of an
/// example, a clock, and the saved examples of this test.
pub trait Harness: Subject {
    /// Called before an example.
    fn set_up(&mut self) -> Result<(), Raised>;

    /// Called behind an example.
    fn tear_down(&mut self);

    /// Whether making arguments has taken too long so far.
    fn too_slow(&mut self) -> bool;

    /// Called now and then in a long run.
    fn breathe(&mut self);

    /// The saved examples.
    fn fetch(&mut self) -> Vec<Vec<u8>>;

    fn save(&mut self, value: &Vec<u8>);

    fn delete(&mut self, value: &Vec<u8>);
}

/// One failure as it is reported.
#[derive(Debug)]
pub struct Report {
    pub failure: Failure,
    pub choices: Vec<Choice>,
    /// The failure did not come up again.
    pub flaky: bool,
}

/// What a run comes to: the failures it reports, the choices that lead to the first
/// of them, and an account of the last shrinking. Without a failure the test passed.
#[derive(Debug)]
pub struct RunResult {
    pub reports: Vec<Report>,
    pub minimal: Vec<Choice>,
    pub report: ShrinkReport,
}

/// How an example came out.
pub enum OutcomeModel {
    Valid,
    Invalid { overran: bool },
    Redundant,
    Failed(OriginModel),
}

/// What is remembered of an example.
pub struct Example {
    pub choices: Seq<ChoiceModel>,
    pub outcome: OutcomeModel,
    /// There are few choices, and each of them had few values.
    pub small: bool,
}

/// The examples of a run: those that were played back, and those that were made.
pub struct History {
    /// What was fetched.
    pub fetched: Ghost<Seq<Vec<u8>>>,
    pub replayed: Ghost<Seq<Example>>,
    pub made: Ghost<Seq<Example>>,
}

/// A run: its examples, and what it comes to.
pub struct Run {
    pub history: History,
    pub result: Result<RunResult, RunError>,
}

/// How an example came out.
pub open spec fn outcome_model(o: Outcome, case: Case) -> OutcomeModel {
    match o {
        Outcome::Valid => OutcomeModel::Valid,
        Outcome::Invalid => OutcomeModel::Invalid { overran: case.status == Status::Overrun },
        Outcome::Redundant => OutcomeModel::Redundant,
        Outcome::Interesting(f) => OutcomeModel::Failed(f.origin@),
    }
}

/// What is remembered of a test case.
pub open spec fn example_of(o: Outcome, case: Case) -> Example {
    Example {
        choices: crate::data::recorded(case.nodes@),
        outcome: outcome_model(o, case),
        small: case.nodes@.len() <= MAX_TRACKED_NODES && all_finite(case.nodes@),
    }
}

// ---- where examples come from -----------------------------------------------

/// The harness was run on a test case, and the example tells how it came out.
pub open spec fn example_shown<H: Harness>(
    e: Example,
    tracker: Option<&Tracker>,
    case: Case,
) -> bool {
    exists|after: Case, o: Outcome|
        #[trigger] ran::<H>(tracker, case, after, Ok(o)) && e == example_of(o, after)
}

/// The example is the simplest one.
pub open spec fn simplest_shown<H: Harness>(e: Example, buffer_limit: Option<u64>) -> bool {
    exists|case: Case|
        case.simplest_only(buffer_limit) && #[trigger] example_shown::<H>(e, None, case)
}

/// How many choices examples have together.
pub open spec fn total_choices(examples: Seq<Example>) -> nat
    decreases examples.len(),
{
    if examples.len() == 0 {
        0
    } else {
        total_choices(examples.drop_last()) + examples.last().choices.len()
    }
}

/// The examples are small enough to be remembered.
pub open spec fn rememberable(examples: Seq<Example>) -> bool {
    &&& forall|i: int| 0 <= i < examples.len() ==> (#[trigger] examples[i]).small
    &&& total_choices(examples) <= MAX_TOTAL_TRACKED_NODES
}

/// The tracker knows exactly these examples, as long as they are small enough.
pub open spec fn remembers(tracker: Tracker, examples: Seq<Example>) -> bool {
    &&& tracker.wf()
    &&& tracker.on <==> rememberable(examples)
    &&& tracker.on ==> tracker.tracked_nodes == total_choices(examples)
    &&& forall|s: Seq<ChoiceModel>| #[trigger] tracker.tree.ends(s) ==> some_made(examples, s)
    &&& tracker.on ==> forall|i: int|
        0 <= i < examples.len() ==> tracker.tree.ends((#[trigger] examples[i]).choices)
}

/// The example was made at random from a seed, with those before it remembered.
pub open spec fn random_shown<H: Harness>(
    e: Example,
    seed: u64,
    buffer_limit: Option<u64>,
    before: Seq<Example>,
) -> bool {
    exists|case: Case, tracker: Option<&Tracker>|
        {
            &&& case.makes_up(seed, buffer_limit)
            &&& tracker is Some && remembers(*tracker->0, before)
            &&& #[trigger] example_shown::<H>(e, tracker, case)
        }
}

/// The seed of an example.
pub open spec fn seed_at(seed: u64, n: int) -> u64 {
    ((seed + n) % 0x1_0000_0000_0000_0000) as u64
}

/// The example at a place is the one that belongs there: the simplest one comes first,
/// and then one for each seed.
pub open spec fn made_at<H: Harness>(made: Seq<Example>, i: int, settings: Settings) -> bool {
    if i == 0 {
        simplest_shown::<H>(made[0], settings.buffer_limit)
    } else {
        random_shown::<H>(
            made[i],
            seed_at(settings.seed, i - 1),
            settings.buffer_limit,
            made.take(i),
        )
    }
}

/// Every example is the one that belongs to its place.
pub open spec fn made_in_order<H: Harness>(made: Seq<Example>, settings: Settings) -> bool {
    forall|i: int| 0 <= i < made.len() ==> #[trigger] made_at::<H>(made, i, settings)
}

/// Choices were saved, if they can be written down.
pub open spec fn saved<H: Harness>(choices: Seq<ChoiceModel>) -> bool {
    all_encodable(choices) ==> exists|h: &mut H, value: Vec<u8>|
        #[trigger] call_ensures(H::save, (h, &value), ()) && value@ == encoded_all(choices)
}

/// An example was set up.
pub open spec fn set_up_gave<H: Harness>(
    fut: spec_fn(&mut H) -> H,
    before: H,
    left: H,
    begun: Result<(), Raised>,
) -> bool {
    exists|h: &mut H|
        #[trigger] call_ensures(H::set_up, (h,), begun) && *h == before && fut(h) == left
}

/// The surroundings of an example were taken down.
pub open spec fn torn_down<H: Harness>(fut: spec_fn(&mut H) -> H, before: H, left: H) -> bool {
    exists|h: &mut H|
        #[trigger] call_ensures(H::tear_down, (h,), ()) && *h == before && fut(h) == left
}

/// One example, and nothing else: it was set up, run, and taken down.
pub open spec fn example_run<H: Harness>(
    fut: spec_fn(&mut H) -> H,
    before: H,
    left: H,
    tracker: Option<&Tracker>,
    case: Case,
    after: Case,
    outcome: Result<Outcome, Raised>,
) -> bool {
    exists|begun: Result<(), Raised>, a: H| #[trigger]
        set_up_gave(fut, before, a, begun) && match begun {
            Err(e) => left == a && outcome == Err::<Outcome, Raised>(e),
            Ok(_) => exists|b: H| #[trigger]
                ran_from(fut, a, b, tracker, case, after, outcome) && torn_down(fut, b, left),
        }
}

/// One example was run, and this tells how it came out.
pub open spec fn shown_from<H: Harness>(
    fut: spec_fn(&mut H) -> H,
    before: H,
    left: H,
    e: Example,
    tracker: Option<&Tracker>,
    case: Case,
) -> bool {
    exists|after: Case, o: Outcome|
        #[trigger] example_run(fut, before, left, tracker, case, after, Ok(o)) && e == example_of(
            o,
            after,
        )
}

/// The saved examples were fetched.
pub open spec fn fetched_from<H: Harness>(
    fut: spec_fn(&mut H) -> H,
    before: H,
    left: H,
    list: Seq<Vec<u8>>,
) -> bool {
    exists|h: &mut H, v: Vec<Vec<u8>>|
        #[trigger] call_ensures(H::fetch, (h,), v) && v@ == list && *h == before && fut(h) == left
}

/// A saved example was forgotten.
pub open spec fn deleted_from<H: Harness>(
    fut: spec_fn(&mut H) -> H,
    before: H,
    left: H,
    value: Vec<u8>,
) -> bool {
    exists|h: &mut H|
        #[trigger] call_ensures(H::delete, (h, &value), ()) && *h == before && fut(h) == left
}

/// Choices were saved, if they can be written down.
pub open spec fn saved_from<H: Harness>(
    fut: spec_fn(&mut H) -> H,
    before: H,
    left: H,
    choices: Seq<ChoiceModel>,
) -> bool {
    if all_encodable(choices) {
        exists|h: &mut H, value: Vec<u8>|
            #[trigger] call_ensures(H::save, (h, &value), ()) && value@ == encoded_all(choices)
                && *h == before && fut(h) == left
    } else {
        before == left
    }
}

/// What was done with one saved example that can be read: it was run once, and forgotten if
/// it did not fail.
pub open spec fn replay_next<H: Harness>(
    fut: spec_fn(&mut H) -> H,
    value: Vec<u8>,
    choices: Seq<ChoiceModel>,
    e: Example,
    buffer_limit: Option<u64>,
    before: H,
    left: H,
) -> bool {
    exists|case: Case, a: H|
        {
            &&& case.only_replays(choices, buffer_limit)
            &&& #[trigger] shown_from(fut, before, a, e, None, case)
            &&& if e.outcome is Failed {
                a == left
            } else {
                deleted_from(fut, a, left, value)
            }
        }
}

/// The saved examples were played back, each one once, in their order, and nothing else was
/// done. One that cannot be read, or that did not fail, was forgotten.
pub open spec fn replayed_along<H: Harness>(
    fut: spec_fn(&mut H) -> H,
    fetched: Seq<Vec<u8>>,
    replayed: Seq<Example>,
    buffer_limit: Option<u64>,
    start: H,
    end: H,
) -> bool
    decreases fetched.len(),
{
    if fetched.len() == 0 {
        replayed.len() == 0 && start == end
    } else {
        match decoded_all(fetched.last()@) {
            Err(_) => exists|a: H| #[trigger]
                deleted_from(fut, a, end, fetched.last()) && replayed_along(
                    fut,
                    fetched.drop_last(),
                    replayed,
                    buffer_limit,
                    start,
                    a,
                ),
            Ok(choices) => replayed.len() > 0 && exists|a: H| #[trigger]
                replay_next(
                    fut,
                    fetched.last(),
                    choices,
                    replayed.last(),
                    buffer_limit,
                    a,
                    end,
                ) && replayed_along(
                    fut,
                    fetched.drop_last(),
                    replayed.drop_last(),
                    buffer_limit,
                    start,
                    a,
                ),
        }
    }
}

/// An example of these choices failed with the origin.
pub open spec fn failed_in(
    examples: Seq<Example>,
    origin: OriginModel,
    choices: Seq<ChoiceModel>,
) -> bool {
    exists|i: int|
        0 <= i < examples.len() && (#[trigger] examples[i]).outcome == OutcomeModel::Failed(origin)
            && examples[i].choices == choices
}

/// Some example failed with the origin.
pub open spec fn failed_so(examples: Seq<Example>, origin: OriginModel) -> bool {
    exists|i: int|
        0 <= i < examples.len() && (#[trigger] examples[i]).outcome == OutcomeModel::Failed(origin)
}

/// What an example counts as behind others.
pub open spec fn kind_of(e: Example, before: Seq<Example>) -> Kind {
    match e.outcome {
        OutcomeModel::Valid => Kind::Valid,
        OutcomeModel::Invalid { overran } => Kind::Invalid { overran },
        OutcomeModel::Redundant => Kind::Redundant,
        OutcomeModel::Failed(o) => if failed_so(before, o) {
            Kind::KnownBug
        } else {
            Kind::NewBug
        },
    }
}

/// Where a run stands at its beginning.
pub open spec fn at_the_start() -> Counters {
    Counters {
        valid: 0,
        invalid: 0,
        overrun: 0,
        iters: 0,
        call_count: 0,
        first_bug_at: None,
        last_bug_at: 0,
        keep_going: true,
    }
}

/// Another example is made.
pub open spec fn goes_further(c: Counters, settings: Settings) -> bool {
    c.keep_going && c.valid < settings.max_examples && c.iters < example_cap(settings.max_examples)
}

/// Where a run stands behind the last of these examples, if it stood at `p` before it: what
/// was made before is remembered, and shows whether everything has been tried.
pub open spec fn counted_next(
    p: Counters,
    made: Seq<Example>,
    settings: Settings,
    c: Counters,
) -> bool {
    let kind = kind_of(made.last(), made.drop_last());
    exists|later: Tracker| #[trigger]
        remembers(later, made) && c == counted_on(
            p,
            kind,
            settings,
            later.on && later.tree.all_seen(),
            some_failed(made),
        )
}

/// The harness was asked whether making arguments takes too long, and answered, where that
/// matters.
pub open spec fn slow_asked<H: Harness>(
    fut: spec_fn(&mut H) -> H,
    made: Seq<Example>,
    settings: Settings,
    before: H,
    left: H,
    answer: bool,
) -> bool {
    if !settings.too_slow_suppressed && valid_count(made) < 10 && !some_failed(made) {
        exists|h: &mut H|
            #[trigger] call_ensures(H::too_slow, (h,), answer) && *h == before && fut(h) == left
    } else {
        before == left && !answer
    }
}

/// The harness was told to breathe, where it is time.
pub open spec fn breathed_at<H: Harness>(
    fut: spec_fn(&mut H) -> H,
    iters: u64,
    before: H,
    left: H,
) -> bool {
    if iters > 0 && iters % 2048 == 0 {
        exists|h: &mut H|
            #[trigger] call_ensures(H::breathe, (h,), ()) && *h == before && fut(h) == left
    } else {
        before == left
    }
}

/// The last of these examples was made at random, once, and nothing else was done.
pub open spec fn made_next<H: Harness>(
    fut: spec_fn(&mut H) -> H,
    made: Seq<Example>,
    settings: Settings,
    before: H,
    left: H,
    p: Counters,
    c: Counters,
    slow: bool,
) -> bool {
    &&& goes_further(p, settings)
    &&& counted_next(p, made, settings, c)
    &&& exists|a: H, b: H, case: Case, tracker: Option<&Tracker>|
        {
            &&& #[trigger] shown_from(fut, a, b, made.last(), tracker, case)
            &&& breathed_at(fut, p.iters, before, a)
            &&& case.makes_up(seed_at(settings.seed, p.iters as int), settings.buffer_limit)
            &&& tracker is Some && remembers(*tracker->0, made.drop_last())
            &&& slow_asked(fut, made, settings, b, left, slow)
        }
}

/// The simplest example was made first, once, and nothing else was done.
pub open spec fn made_first<H: Harness>(
    fut: spec_fn(&mut H) -> H,
    e: Example,
    settings: Settings,
    before: H,
    left: H,
) -> bool {
    exists|case: Case|
        case.simplest_only(settings.buffer_limit) && #[trigger] shown_from(
            fut,
            before,
            left,
            e,
            None,
            case,
        )
}

/// The examples were made one after the other, each one once, for as long as there was reason
/// to go on, and nothing else was done. `c` is where the run stands behind them.
pub open spec fn made_along<H: Harness>(
    fut: spec_fn(&mut H) -> H,
    made: Seq<Example>,
    settings: Settings,
    start: H,
    end: H,
    c: Counters,
) -> bool
    decreases made.len(),
{
    if made.len() == 0 {
        start == end && c == at_the_start()
    } else if made.len() == 1 {
        &&& made_first(fut, made[0], settings, start, end)
        &&& c == (Counters {
            keep_going: !(made[0].outcome is Failed) || settings.report_multiple_bugs,
            ..tallied(at_the_start(), kind_of(made[0], Seq::empty()))
        })
    } else {
        exists|a: H, p: Counters| #[trigger]
            made_next(fut, made, settings, a, end, p, c, false) && made_along(
                fut,
                made.drop_last(),
                settings,
                start,
                a,
                p,
            )
    }
}

/// How many examples there can be: no more than the limit, none behind the last valid one
/// that was wanted, and none behind a failure where one is enough.
pub open spec fn bounded(made: Seq<Example>, settings: Settings) -> bool {
    &&& made.len() <= example_cap(settings.max_examples) + 1
    &&& made.len() > 1 ==> valid_count(made.drop_last()) < settings.max_examples
    &&& made.len() > 1 && !settings.report_multiple_bugs ==> !some_failed(made.drop_last())
}

/// How a run went from the harness as it was before to the harness as it was left: fetching,
/// playing back, making examples. Without a failure nothing else was done; where a failure
/// was played back, it was at most saved again.
pub open spec fn went<H: Harness>(
    fut: spec_fn(&mut H) -> H,
    run: Run,
    settings: Settings,
    before: H,
    left: H,
) -> bool {
    exists|b: H| #[trigger]
        replayed_from(
            fut,
            run.history.fetched@,
            run.history.replayed@,
            settings.buffer_limit,
            before,
            b,
        ) && went_on(fut, run, settings, b, left)
}

/// How a run went on behind what was played back.
pub open spec fn went_on<H: Harness>(
    fut: spec_fn(&mut H) -> H,
    run: Run,
    settings: Settings,
    before: H,
    left: H,
) -> bool {
    if run.result is Err && run.result->Err_0 is TooSlow {
        slowed(fut, run.history.made@, settings, before, left)
    } else {
        exists|d: H, c: Counters| #[trigger]
            made_along(fut, run.history.made@, settings, before, d, c) && ended(
                fut,
                run,
                settings,
                d,
                left,
                c,
            )
    }
}

/// What followed the last example.
pub open spec fn ended<H: Harness>(
    fut: spec_fn(&mut H) -> H,
    run: Run,
    settings: Settings,
    before: H,
    left: H,
    c: Counters,
) -> bool {
    if some_failed(run.history.replayed@) {
        run.result is Ok ==> if run.result->Ok_0.reports@.len() == 1 {
            saved_from(fut, before, left, models(run.result->Ok_0.minimal@))
        } else {
            before == left
        }
    } else {
        &&& run.history.made@.len() > 0 && !goes_further(c, settings)
        &&& !some_failed(run.history.made@) ==> before == left
    }
}

/// The saved examples were fetched and played back.
pub open spec fn replayed_from<H: Harness>(
    fut: spec_fn(&mut H) -> H,
    fetched: Seq<Vec<u8>>,
    replayed: Seq<Example>,
    buffer_limit: Option<u64>,
    before: H,
    left: H,
) -> bool {
    exists|a: H| #[trigger]
        fetched_from(fut, before, a, fetched) && replayed_along(
            fut,
            fetched,
            replayed,
            buffer_limit,
            a,
            left,
        )
}

/// Playing back what was fetched ended when an example raised something.
pub open spec fn broke_off_replaying<H: Harness>(
    fut: spec_fn(&mut H) -> H,
    fetched: Seq<Vec<u8>>,
    replayed: Seq<Example>,
    buffer_limit: Option<u64>,
    before: H,
    left: H,
    e: Raised,
) -> bool {
    exists|a: H, b: H, k: int|
        {
            &&& #[trigger] fetched_from(fut, before, a, fetched)
            &&& #[trigger] replayed_along(fut, fetched.take(k), replayed, buffer_limit, a, b)
            &&& 0 <= k < fetched.len()
            &&& raised_replaying(fut, fetched[k], buffer_limit, b, left, e)
        }
}

/// A saved example raised something when it was played back.
pub open spec fn raised_replaying<H: Harness>(
    fut: spec_fn(&mut H) -> H,
    value: Vec<u8>,
    buffer_limit: Option<u64>,
    before: H,
    left: H,
    e: Raised,
) -> bool {
    exists|case: Case, after: Case|
        {
            &&& #[trigger] example_run(fut, before, left, None, case, after, Err(e))
            &&& decoded_all(value@) is Ok
            &&& case.only_replays(decoded_all(value@)->Ok_0, buffer_limit)
        }
}

/// Making examples ended when one raised something.
pub open spec fn broke_off_making<H: Harness>(
    fut: spec_fn(&mut H) -> H,
    made: Seq<Example>,
    settings: Settings,
    start: H,
    left: H,
    e: Raised,
) -> bool {
    if made.len() == 0 {
        exists|case: Case, after: Case|
            case.simplest_only(settings.buffer_limit) && #[trigger] example_run(
                fut,
                start,
                left,
                None,
                case,
                after,
                Err(e),
            )
    } else {
        exists|a: H, p: Counters| #[trigger]
            made_along(fut, made, settings, start, a, p) && goes_further(p, settings)
                && raised_making(fut, made, settings, a, left, p, e)
    }
}

/// An example made at random raised something.
pub open spec fn raised_making<H: Harness>(
    fut: spec_fn(&mut H) -> H,
    made: Seq<Example>,
    settings: Settings,
    before: H,
    left: H,
    p: Counters,
    e: Raised,
) -> bool {
    exists|a: H, case: Case, tracker: Option<&Tracker>, after: Case|
        {
            &&& #[trigger] example_run(fut, a, left, tracker, case, after, Err(e))
            &&& breathed_at(fut, p.iters, before, a)
            &&& case.makes_up(seed_at(settings.seed, p.iters as int), settings.buffer_limit)
            &&& tracker is Some && remembers(*tracker->0, made)
        }
}

/// A run ended when an example raised something.
pub open spec fn broke_off<H: Harness>(
    fut: spec_fn(&mut H) -> H,
    run: Run,
    settings: Settings,
    before: H,
    left: H,
    e: Raised,
) -> bool {
    ||| broke_off_replaying(
        fut,
        run.history.fetched@,
        run.history.replayed@,
        settings.buffer_limit,
        before,
        left,
        e,
    )
    ||| !some_failed(run.history.replayed@) && exists|b: H| #[trigger]
        replayed_from(
            fut,
            run.history.fetched@,
            run.history.replayed@,
            settings.buffer_limit,
            before,
            b,
        ) && broke_off_making(fut, run.history.made@, settings, b, left, e)
}

/// A run ended behind its last example when something was raised: while a failure was run once
/// more, or while one was shrunk.
pub open spec fn raised_reporting<H: Harness>(
    fut: spec_fn(&mut H) -> H,
    run: Run,
    settings: Settings,
    before: H,
    left: H,
    e: Raised,
) -> bool {
    let replayed = run.history.replayed@;
    let made = run.history.made@;
    &&& !some_failed(replayed) && some_failed(made)
    &&& exists|b: H, d: H, c: Counters|
        {
            &&& #[trigger] replayed_from(
                fut,
                run.history.fetched@,
                replayed,
                settings.buffer_limit,
                before,
                b,
            )
            &&& #[trigger] made_along(fut, made, settings, b, d, c)
            &&& !goes_further(c, settings)
            &&& raised_behind(fut, replayed + made, settings, d, left, e)
        }
}

/// Something was raised behind the last example.
pub open spec fn raised_behind<H: Harness>(
    fut: spec_fn(&mut H) -> H,
    examples: Seq<Example>,
    settings: Settings,
    before: H,
    left: H,
    e: Raised,
) -> bool {
    ||| raised_once_more(fut, examples, settings, before, left, e)
    ||| raised_shrinking::<H>(examples, settings, e)
}

/// The first thing done behind the last example was to run a failure once more, and that
/// raised something.
pub open spec fn raised_once_more<H: Harness>(
    fut: spec_fn(&mut H) -> H,
    examples: Seq<Example>,
    settings: Settings,
    before: H,
    left: H,
    e: Raised,
) -> bool {
    settings.max_shrinks > 0 && exists|
        case: Case,
        after: Case,
        origin: OriginModel,
        choices: Seq<ChoiceModel>,
    |
        {
            &&& #[trigger] ran_from(fut, before, left, None, case, after, Err(e))
            &&& #[trigger] failed_in(examples, origin, choices)
            &&& case.only_replays(choices, settings.buffer_limit)
        }
}

/// A failure of the run was shrunk, and the last choices that were played back for it raised
/// something.
pub open spec fn raised_shrinking<H: Harness>(
    examples: Seq<Example>,
    settings: Settings,
    e: Raised,
) -> bool {
    exists|now: Trials, then: Trials, start: Seq<ChoiceModel>, first: Failure|
        {
            &&& #[trigger] raised_on::<H>(now, then, start, first, e)
            &&& now.buffer_limit == settings.buffer_limit
            &&& of_this_run::<H>(examples, start, first, settings.buffer_limit)
        }
}

/// The shrinking of a failure ended when something was raised.
pub open spec fn raised_on<H: Harness>(
    now: Trials,
    then: Trials,
    start: Seq<ChoiceModel>,
    first: Failure,
    e: Raised,
) -> bool {
    shrinking_halts::<H>(now, then, start, first.origin@, Halt::Raised(e))
}

/// The examples were made, and behind the last one the harness said that it takes too long.
pub open spec fn slowed<H: Harness>(
    fut: spec_fn(&mut H) -> H,
    made: Seq<Example>,
    settings: Settings,
    start: H,
    left: H,
) -> bool {
    made.len() > 1 && exists|d: H, p: Counters, c: Counters| #[trigger]
        made_next(fut, made, settings, d, left, p, c, true) && made_along(
            fut,
            made.drop_last(),
            settings,
            start,
            d,
            p,
        )
}

/// The harness raised this: while an example was run, or set up.
pub open spec fn raised_in_run<H: Harness>(raised: Raised) -> bool {
    goes_through::<H>(raised) || exists|h: &mut H| #[trigger]
        call_ensures(H::set_up, (h,), Err(raised))
}

/// An example of these choices failed like this.
pub open spec fn seen_failing<H: Harness>(choices: Seq<ChoiceModel>, failure: Failure) -> bool {
    exists|tracker: Option<&Tracker>, case: Case, after: Case|
        #[trigger] ran::<H>(tracker, case, after, Ok(Outcome::Interesting(failure))) && choices
            == crate::data::recorded(after.nodes@)
}

/// Each bug is an example that failed.
pub open spec fn all_seen_failing<H: Harness>(bugs: Seq<Bug>) -> bool {
    forall|i: int|
        0 <= i < bugs.len() ==> #[trigger] seen_failing::<H>(
            models(bugs[i].choices@),
            bugs[i].failure,
        )
}

/// A failure belongs to choices: it is that of a run that made the choices, or played
/// them back.
pub open spec fn belongs<H: Harness>(
    failure: Failure,
    choices: Seq<ChoiceModel>,
    buffer_limit: Option<u64>,
) -> bool {
    leads_to::<H>(choices, buffer_limit, failure) || seen_failing::<H>(choices, failure)
}

/// A report holds: its failure is that of a run that made its choices, or played them
/// back; and it is flaky only if another run of the choices did not fail so.
pub open spec fn report_holds<H: Harness>(rep: Report, buffer_limit: Option<u64>) -> bool {
    &&& belongs::<H>(rep.failure, models(rep.choices@), buffer_limit)
    &&& rep.flaky ==> run_again::<H>(
        models(rep.choices@),
        buffer_limit,
        rep.failure.origin@,
        true,
    )
}

/// Choices and their failure are what the shrinking of a failure of the run came to.
pub open spec fn was_shrunk<H: Harness>(
    choices: Seq<ChoiceModel>,
    failure: Failure,
    settings: Settings,
    examples: Seq<Example>,
) -> bool {
    exists|s: Shrunk, now: Trials, then: Trials, start: Seq<ChoiceModel>, first: Failure|
        {
            &&& #[trigger] shrunk_from::<H>(s, now, then, start, first, settings.max_shrinks)
            &&& belongs::<H>(first, start, settings.buffer_limit)
            &&& of_this_run::<H>(examples, start, first, settings.buffer_limit)
            &&& now.buffer_limit == settings.buffer_limit
            &&& models(s.choices@) == choices
            &&& s.failure == failure
        }
}

/// All reports were shrunk.
pub open spec fn all_shrunk<H: Harness>(
    reports: Seq<Report>,
    settings: Settings,
    examples: Seq<Example>,
) -> bool {
    forall|i: int|
        0 <= i < reports.len() ==> #[trigger] was_shrunk::<H>(
            models(reports[i].choices@),
            reports[i].failure,
            settings,
            examples,
        )
}

/// The reports from place `from` on were run once more, which tells whether they are flaky.
pub open spec fn all_run_again<H: Harness>(
    reports: Seq<Report>,
    from: int,
    buffer_limit: Option<u64>,
) -> bool {
    forall|i: int|
        from <= i < reports.len() ==> #[trigger] run_again::<H>(
            models(reports[i].choices@),
            buffer_limit,
            reports[i].failure.origin@,
            reports[i].flaky,
        )
}

/// All reports hold.
pub open spec fn reports_hold<H: Harness>(
    reports: Seq<Report>,
    buffer_limit: Option<u64>,
) -> bool {
    forall|i: int|
        0 <= i < reports.len() ==> #[trigger] report_holds::<H>(reports[i], buffer_limit)
}

/// The choices of all reports were saved.
pub open spec fn all_saved<H: Harness>(reports: Seq<Report>) -> bool {
    forall|i: int|
        0 <= i < reports.len() ==> #[trigger] saved::<H>(models(reports[i].choices@))
}

/// Some example failed.
pub open spec fn some_failed(examples: Seq<Example>) -> bool {
    exists|i: int| 0 <= i < examples.len() && (#[trigger] examples[i]).outcome is Failed
}

/// Some example was made of these choices.
pub open spec fn some_made(examples: Seq<Example>, choices: Seq<ChoiceModel>) -> bool {
    exists|i: int| 0 <= i < examples.len() && (#[trigger] examples[i]).choices == choices
}

/// Some example of these choices was rejected.
pub open spec fn some_rejected(examples: Seq<Example>, choices: Seq<ChoiceModel>) -> bool {
    exists|i: int|
        0 <= i < examples.len() && (#[trigger] examples[i]).choices == choices
            && examples[i].outcome is Invalid
}

/// How many examples were valid.
pub open spec fn valid_count(examples: Seq<Example>) -> nat
    decreases examples.len(),
{
    if examples.len() == 0 {
        0
    } else {
        valid_count(examples.drop_last()) + (if examples.last().outcome is Valid {
            1nat
        } else {
            0nat
        })
    }
}

/// How many examples were rejected.
pub open spec fn invalid_count(examples: Seq<Example>) -> nat
    decreases examples.len(),
{
    if examples.len() == 0 {
        0
    } else {
        invalid_count(examples.drop_last()) + (if examples.last().outcome is Invalid {
            1nat
        } else {
            0nat
        })
    }
}

/// How many examples ran out of room.
pub open spec fn overrun_count(examples: Seq<Example>) -> nat
    decreases examples.len(),
{
    if examples.len() == 0 {
        0
    } else {
        overrun_count(examples.drop_last()) + (if examples.last().outcome
            == (OutcomeModel::Invalid { overran: true }) {
            1nat
        } else {
            0nat
        })
    }
}

/// The counters tell the examples that were made; the simplest one is not an iteration.
pub open spec fn counted(c: Counters, made: Seq<Example>) -> bool {
    &&& made.len() <= c.iters + 1
    &&& c.iters <= made.len()
    &&& c.valid == (if valid_count(made) <= u32::MAX {
        valid_count(made) as u32
    } else {
        u32::MAX
    })
    &&& c.iters < u64::MAX - 1 ==> c.invalid == invalid_count(made) && c.overrun == overrun_count(
        made,
    )
}

/// The bugs are those of the examples.
pub open spec fn found(bugs: Seq<Bug>, replayed: Seq<Example>, made: Seq<Example>) -> bool {
    bugs.len() > 0 <==> some_failed(replayed) || some_failed(made)
}

/// Every failure of the examples is among the bugs.
pub open spec fn all_known(examples: Seq<Example>, bugs: Seq<Bug>) -> bool {
    forall|i: int|
        0 <= i < examples.len() && (#[trigger] examples[i]).outcome is Failed ==> knows(
            bugs,
            examples[i].outcome->Failed_0,
        )
}

/// Some report is of this origin.
pub open spec fn reported(reports: Seq<Report>, origin: OriginModel) -> bool {
    exists|i: int| 0 <= i < reports.len() && (#[trigger] reports[i]).failure.origin@ == origin
}

/// Every failure of the examples is reported.
pub open spec fn all_reported(examples: Seq<Example>, reports: Seq<Report>) -> bool {
    forall|i: int|
        0 <= i < examples.len() && (#[trigger] examples[i]).outcome is Failed ==> reported(
            reports,
            examples[i].outcome->Failed_0,
        )
}

/// Every bug is reported.
pub open spec fn bugs_reported(bugs: Seq<Bug>, reports: Seq<Report>) -> bool {
    forall|i: int|
        0 <= i < bugs.len() ==> reported(reports, (#[trigger] bugs[i]).failure.origin@)
}

proof fn lemma_known_stays(
    examples: Seq<Example>,
    e: Example,
    before: Seq<Bug>,
    after: Seq<Bug>,
)
    requires
        all_known(examples, before),
        before.len() <= after.len(),
        forall|i: int| 0 <= i < before.len() ==> #[trigger] after[i] == before[i],
        e.outcome is Failed ==> knows(after, e.outcome->Failed_0),
    ensures
        all_known(examples, after),
        all_known(examples.push(e), after),
{
    assert forall|i: int| 0 <= i < examples.len() && (
    #[trigger] examples[i]).outcome is Failed implies knows(
        after,
        examples[i].outcome->Failed_0,
    ) by {
        assert(knows(before, examples[i].outcome->Failed_0));
        let k = choose|k: int|
            0 <= k < before.len() && (#[trigger] before[k]).failure.origin@
                == examples[i].outcome->Failed_0;
        assert(after[k] == before[k]);
    }
    let all = examples.push(e);
    assert forall|i: int| 0 <= i < all.len() && (#[trigger] all[i]).outcome is Failed implies knows(
        after,
        all[i].outcome->Failed_0,
    ) by {
        if i < examples.len() {
            assert(examples[i] == all[i]);
        }
    }
}

proof fn lemma_known_and_reported(examples: Seq<Example>, bugs: Seq<Bug>, reports: Seq<Report>)
    requires
        all_known(examples, bugs),
        bugs_reported(bugs, reports),
    ensures
        all_reported(examples, reports),
{
    assert forall|i: int| 0 <= i < examples.len() && (
    #[trigger] examples[i]).outcome is Failed implies reported(
        reports,
        examples[i].outcome->Failed_0,
    ) by {
        let k = choose|k: int|
            0 <= k < bugs.len() && (#[trigger] bugs[k]).failure.origin@
                == examples[i].outcome->Failed_0;
        assert(reported(reports, bugs[k].failure.origin@));
    }
}

/// Every sequence of choices that there is has been tried: a tree that holds only what
/// was made has seen everything.
pub open spec fn everything_tried(made: Seq<Example>) -> bool {
    exists|tree: TreeNode| #[trigger]
        tree.all_seen() && forall|s: Seq<ChoiceModel>| #[trigger]
            tree.ends(s) ==> some_made(made, s)
}

/// Every sequence of choices that there is has been rejected.
pub open spec fn everything_rejected(made: Seq<Example>) -> bool {
    exists|tree: TreeNode| #[trigger]
        tree.all_seen() && forall|s: Seq<ChoiceModel>| #[trigger]
            tree.ends(s) ==> some_rejected(made, s)
}

/// Enough has been tried to let a test pass: as many valid examples as wanted, or as many
/// examples as are made at most, or all that there are.
pub open spec fn enough_tried(made: Seq<Example>, settings: Settings) -> bool {
    ||| valid_count(made) >= settings.max_examples
    ||| made.len() >= example_cap(settings.max_examples)
    ||| everything_tried(made)
}

/// The reports are failures of the examples, as they are.
pub open spec fn reports_from(reports: Seq<Report>, examples: Seq<Example>) -> bool {
    forall|i: int|
        0 <= i < reports.len() ==> #[trigger] failed_in(
            examples,
            reports[i].failure.origin@,
            models(reports[i].choices@),
        )
}

/// The minimal choices are those of an example that failed, or what shrinking a failure of the
/// run came to. They are those of the first report, with its failure, unless one report was
/// wanted and a failure of another origin came up while shrinking that is simpler.
pub open spec fn minimal_holds<H: Harness>(
    r: RunResult,
    settings: Settings,
    examples: Seq<Example>,
) -> bool {
    let minimal = models(r.minimal@);
    let first = models(r.reports@[0].choices@);
    exists|f: Failure|
        {
            &&& #[trigger] belongs::<H>(f, minimal, settings.buffer_limit)
            &&& failed_in(examples, f.origin@, minimal) || was_shrunk::<H>(
                minimal,
                f,
                settings,
                examples,
            )
            &&& if minimal == first {
                f == r.reports@[0].failure
            } else {
                &&& !settings.report_multiple_bugs
                &&& sequence_less(first, minimal) == Some(true)
                &&& f.origin@ != r.reports@[0].failure.origin@
            }
        }
}

/// No two reports are of one origin.
pub open spec fn reports_distinct(reports: Seq<Report>) -> bool {
    forall|i: int, j: int|
        0 <= i < j < reports.len() ==> (#[trigger] reports[i]).failure.origin@ != (
        #[trigger] reports[j]).failure.origin@
}

/// What a result says about the examples of a run.
pub open spec fn result_fits<H: Harness>(
    fut: spec_fn(&mut H) -> H,
    run: Run,
    settings: Settings,
    before: H,
    left: H,
) -> bool {
    let replayed = run.history.replayed@;
    let made = run.history.made@;
    let any = some_failed(replayed) || some_failed(made);
    &&& some_failed(replayed) ==> made.len() == 0
    &&& made_in_order::<H>(made, settings)
    &&& bounded(made, settings)
    &&& some_failed(made) && one_kind(made) && settings.max_shrinks > 0 && !(run.result is Err && (
    run.result->Err_0 is Flaky || run.result->Err_0 is Raised)) ==> checked_once_more::<H>(
        made,
        settings.buffer_limit,
    )
    &&& !(run.result is Err && run.result->Err_0 is Raised) ==> went(
        fut,
        run,
        settings,
        before,
        left,
    )
    &&& match run.result {
        Ok(r) => {
            &&& r.reports@.len() > 0 <==> any
            &&& reports_distinct(r.reports@)
            &&& some_failed(replayed) ==> r.reports@.len() <= replayed.len()
            &&& reports_hold::<H>(r.reports@, settings.buffer_limit)
            &&& settings.report_multiple_bugs ==> all_reported(replayed, r.reports@)
                && all_reported(made, r.reports@)
            &&& r.minimal@.len() > 0 || r.reports@.len() == 1 ==> minimal_holds::<H>(r, settings, replayed + made)
            &&& some_failed(replayed) ==> r.report.passes@.len() == 0 && reports_from(
                r.reports@,
                replayed + made,
            )
            &&& !some_failed(replayed) ==> all_saved::<H>(r.reports@) && all_shrunk::<H>(
                r.reports@,
                settings,
                replayed + made,
            )
            &&& !some_failed(replayed) && settings.report_multiple_bugs ==> all_run_again::<H>(
                r.reports@,
                if models(r.minimal@) == models(r.reports@[0].choices@) {
                    1
                } else {
                    0
                },
                settings.buffer_limit,
            )
            &&& !any ==> enough_tried(made, settings) && (valid_count(made) > 0 || invalid_count(
                made,
            ) == 0)
            &&& !settings.report_multiple_bugs && !some_failed(replayed) ==> r.reports@.len() <= 1
        },
        Err(RunError::TooLarge { count }) => {
            &&& !any && valid_count(made) == 0
            &&& count == invalid_count(made) && count == overrun_count(made) && count > 0
        },
        Err(RunError::Unsatisfiable) => {
            &&& !any && valid_count(made) == 0 && invalid_count(made) > 0
            &&& overrun_count(made) != invalid_count(made)
            &&& everything_rejected(made)
        },
        Err(RunError::Rejected { count }) => {
            &&& !any && valid_count(made) == 0
            &&& count == invalid_count(made) && count > 0
            &&& overrun_count(made) != invalid_count(made)
        },
        Err(RunError::FilterTooMuch) => {
            &&& !any && valid_count(made) == 0 && invalid_count(made) > 0
            &&& overrun_count(made) != invalid_count(made)
        },
        Err(RunError::TooSlow { valid }) => !any && valid_count(made) == valid && valid < 10,
        Err(RunError::Flaky { .. }) => some_failed(made),
        Err(RunError::Incomparable) => some_failed(made),
        Err(RunError::Choice(_)) => some_failed(made),
        Err(RunError::Raised(e)) => broke_off(fut, run, settings, before, left, e)
            || raised_reporting(fut, run, settings, before, left, e),
    }
}

proof fn lemma_counts(examples: Seq<Example>)
    ensures
        valid_count(examples) <= examples.len(),
        overrun_count(examples) <= invalid_count(examples) <= examples.len(),
    decreases examples.len(),
{
    if examples.len() > 0 {
        lemma_counts(examples.drop_last());
    }
}

proof fn lemma_one_more(examples: Seq<Example>, e: Example)
    ensures
        some_failed(examples.push(e)) <==> some_failed(examples) || e.outcome is Failed,
        forall|s: Seq<ChoiceModel>| #[trigger]
            some_made(examples, s) ==> some_made(examples.push(e), s),
        some_made(examples.push(e), e.choices),
        forall|s: Seq<ChoiceModel>| #[trigger]
            some_rejected(examples, s) ==> some_rejected(examples.push(e), s),
        e.outcome is Invalid ==> some_rejected(examples.push(e), e.choices),
        valid_count(examples.push(e)) == valid_count(examples) + (if e.outcome is Valid {
            1nat
        } else {
            0nat
        }),
        invalid_count(examples.push(e)) == invalid_count(examples) + (if e.outcome is Invalid {
            1nat
        } else {
            0nat
        }),
        overrun_count(examples.push(e)) == overrun_count(examples) + (if e.outcome
            == (OutcomeModel::Invalid { overran: true }) {
            1nat
        } else {
            0nat
        }),
        total_choices(examples.push(e)) == total_choices(examples) + e.choices.len(),
        rememberable(examples.push(e)) <==> rememberable(examples) && e.small && total_choices(
            examples.push(e),
        ) <= MAX_TOTAL_TRACKED_NODES,
{
    let all = examples.push(e);
    assert(all.drop_last() =~= examples);
    assert(all[examples.len() as int] == e);
    if rememberable(all) {
        assert forall|i: int| 0 <= i < examples.len() implies (#[trigger] examples[i]).small by {
            assert(all[i].small);
        }
    }
    if some_failed(examples) {
        let i = choose|i: int| 0 <= i < examples.len() && (#[trigger] examples[i]).outcome is Failed;
        assert(all[i] == examples[i]);
    }
    if some_failed(all) {
        let i = choose|i: int| 0 <= i < all.len() && (#[trigger] all[i]).outcome is Failed;
        if i < examples.len() {
            assert(examples[i] == all[i]);
        }
    }
    assert forall|s: Seq<ChoiceModel>| #[trigger] some_made(examples, s) implies some_made(
        all,
        s,
    ) by {
        let i = choose|i: int| 0 <= i < examples.len() && (#[trigger] examples[i]).choices == s;
        assert(all[i] == examples[i]);
    }
    assert forall|s: Seq<ChoiceModel>| #[trigger] some_rejected(examples, s) implies some_rejected(
        all,
        s,
    ) by {
        let i = choose|i: int|
            0 <= i < examples.len() && (#[trigger] examples[i]).choices == s
                && examples[i].outcome is Invalid;
        assert(all[i] == examples[i]);
    }
}

impl History {
    fn new() -> (r: History)
        ensures
            r.replayed@.len() == 0,
            r.made@.len() == 0,
    {
        History {
            fetched: Ghost(Seq::empty()),
            replayed: Ghost(Seq::empty()),
            made: Ghost(Seq::empty()),
        }
    }

    /// Remembers an example that was played back.
    fn note_replayed(&mut self, outcome: &Outcome, case: &Case)
        ensures
            final(self).replayed@ == old(self).replayed@.push(example_of(*outcome, *case)),
            final(self).made == old(self).made,
            final(self).fetched == old(self).fetched,
    {
        proof {
            self.replayed@ = self.replayed@.push(example_of(*outcome, *case));
        }
    }

    /// Remembers an example that was made.
    fn note_made(&mut self, outcome: &Outcome, case: &Case)
        ensures
            final(self).made@ == old(self).made@.push(example_of(*outcome, *case)),
            final(self).replayed == old(self).replayed,
            final(self).fetched == old(self).fetched,
    {
        proof {
            self.made@ = self.made@.push(example_of(*outcome, *case));
        }
    }
}

/// A bug of this origin is in the list.
pub open spec fn knows(bugs: Seq<Bug>, origin: OriginModel) -> bool {
    exists|i: int| 0 <= i < bugs.len() && (#[trigger] bugs[i]).failure.origin@ == origin
}

fn is_known(bugs: &Vec<Bug>, origin: &Origin) -> (r: bool)
    ensures
        r == knows(bugs@, origin@),
{
    let mut i: usize = 0;
    while i < bugs.len()
        invariant
            i <= bugs.len(),
            forall|x: int| 0 <= x < i ==> (#[trigger] bugs@[x]).failure.origin@ != origin@,
        decreases bugs.len() - i,
    {
        if bugs[i].failure.origin.same(origin) {
            return true;
        }
        i = i + 1;
    }
    false
}

/// Adds a bug, unless one of its origin is known. Tells whether it was new.
pub fn add_bug(bugs: &mut Vec<Bug>, bug: Bug) -> (r: bool)
    requires
        slipped_distinct(old(bugs)@),
    ensures
        slipped_distinct(final(bugs)@),
        r == !knows(old(bugs)@, bug.failure.origin@),
        final(bugs)@ == (if r {
            old(bugs)@.push(bug)
        } else {
            old(bugs)@
        }),
{
    if is_known(bugs, &bug.failure.origin) {
        return false;
    }
    let ghost before = bugs@;
    bugs.push(bug);
    proof {
        assert forall|a: int, b: int| 0 <= a < b < bugs@.len() implies (
        #[trigger] bugs@[a]).failure.origin@ != (#[trigger] bugs@[b]).failure.origin@ by {
            assert(bugs@[a] == before[a]);
            if b < before.len() {
                assert(bugs@[b] == before[b]);
            }
        }
    }
    true
}

fn halted(h: Halt) -> (r: RunError)
    ensures
        r == (match h {
            Halt::Raised(e) => RunError::Raised(e),
            Halt::Choice(e) => RunError::Choice(e),
        }),
{
    match h {
        Halt::Raised(e) => RunError::Raised(e),
        Halt::Choice(e) => RunError::Choice(e),
    }
}

/// Runs one example within its surroundings.
fn run_example<H: Harness>(harness: &mut H, case: Case, tracker: Option<&Tracker>) -> (r: (
    Case,
    Result<Outcome, Raised>,
))
    requires
        case.wf(),
        tracker is Some ==> tracker->0.wf(),
    ensures
        r.0.wf(),
        r.1 is Ok ==> ran::<H>(tracker, case, r.0, r.1),
        example_run(
            |h: &mut H| *final(h),
            *old(harness),
            *final(harness),
            tracker,
            case,
            r.0,
            r.1,
        ),
        r.1 is Err ==> raised_in_run::<H>(r.1->Err_0),
{
    let begun = harness.set_up();
    let ghost a = *harness;
    assert(set_up_gave(|h: &mut H| *final(h), *old(harness), a, begun));
    if let Err(raised) = begun {
        return (case, Err(raised));
    }
    let r = run_one(harness, case, tracker);
    let ghost b = *harness;
    harness.tear_down();
    proof {
        assert(ran_from(|h: &mut H| *final(h), a, b, tracker, case, r.0, r.1));
        assert(torn_down(|h: &mut H| *final(h), b, *harness));
    }
    r
}

/// Whether the run of a shrunk example shows the failure that was shrunk. An error that
/// the run let through goes on upwards.
pub fn confirmed(outcome: Result<Outcome, Raised>, origin: &Origin) -> (r: Result<bool, Raised>)
    ensures
        r == (match outcome {
            Ok(o) => Ok(failed_with(o, origin@)),
            Err(raised) => Err(raised),
        }),
{
    match outcome {
        Ok(Outcome::Interesting(f)) => Ok(f.origin.same(origin)),
        Ok(_) => Ok(false),
        Err(raised) => Err(raised),
    }
}

/// Choices were run once more, and it is flaky that they fail with the origin where they
/// did not do so then.
pub open spec fn run_again<S: Subject>(
    choices: Seq<ChoiceModel>,
    buffer_limit: Option<u64>,
    origin: OriginModel,
    flaky: bool,
) -> bool {
    exists|outcome: Outcome| #[trigger]
        comes_out::<S>(choices, buffer_limit, outcome) && (flaky <==> !failed_with(
            outcome,
            origin,
        ))
}

/// Shrinks a failure and runs the result once more, to see whether it fails again
/// with the same origin.
pub fn shrink_confirmed<S: Subject>(
    subject: &mut S,
    trials: &mut Trials,
    bug: Bug,
    shrink_cap: u64,
) -> (r: Result<(Shrunk, bool), Halt>)
    requires
        old(trials).wf(),
    ensures
        r is Ok ==> shrunk_from::<S>(
            r->Ok_0.0,
            *final(trials),
            *old(trials),
            models(bug.choices@),
            bug.failure,
            shrink_cap,
        ),
        r is Ok ==> run_again::<S>(
            models(r->Ok_0.0.choices@),
            old(trials).buffer_limit,
            bug.failure.origin@,
            r->Ok_0.1,
        ),
        r is Ok ==> final(trials).last@ == models(r->Ok_0.0.choices@),
        r is Err ==> shrinking_halts::<S>(
            *final(trials),
            *old(trials),
            models(bug.choices@),
            bug.failure.origin@,
            r->Err_0,
        ),
        shrink_cap == 0 ==> {
            &&& final(trials).log@ == old(trials).log@
            &&& final(trials).last@ == models(bug.choices@)
            &&& r is Err ==> r->Err_0 is Raised
        },
{
    let origin = bug.failure.origin.copy();
    let shrunk = match shrink(subject, trials, bug.choices, bug.failure, shrink_cap) {
        Ok(s) => s,
        Err(e) => {
            return Err(e);
        },
    };
    let case = Case::new_for_choices(&shrunk.choices, fresh_seed(), trials.buffer_limit);
    let ghost middle = *trials;
    proof {
        trials.last@ = models(shrunk.choices@);
    }
    let (_case, outcome) = run_one(subject, case, None);
    proof {
        assert(played_back::<S>(models(shrunk.choices@), trials.buffer_limit, _case, outcome));
        if outcome is Ok {
            assert(played_back::<S>(
                models(shrunk.choices@),
                trials.buffer_limit,
                _case,
                Ok(outcome->Ok_0),
            ));
            assert(comes_out::<S>(
                models(shrunk.choices@),
                old(trials).buffer_limit,
                outcome->Ok_0,
            ));
        }
        lemma_last_is_free::<S>(
            shrunk,
            *trials,
            middle,
            *old(trials),
            models(bug.choices@),
            bug.failure,
            shrink_cap,
        );
    }
    match confirmed(outcome, &origin) {
        Ok(reproduces) => {
            let flaky = !reproduces;
            assert(run_again::<S>(
                models(shrunk.choices@),
                old(trials).buffer_limit,
                bug.failure.origin@,
                flaky,
            ));
            Ok((shrunk, flaky))
        },
        Err(raised) => Err(Halt::Raised(raised)),
    }
}

proof fn lemma_last_is_free<S: Subject>(
    r: Shrunk,
    now: Trials,
    before: Trials,
    then: Trials,
    start: Seq<ChoiceModel>,
    failure: Failure,
    shrink_cap: u64,
)
    requires
        now == (Trials { last: now.last, ..before }),
        shrunk_from::<S>(r, before, then, start, failure, shrink_cap),
    ensures
        shrunk_from::<S>(r, now, then, start, failure, shrink_cap),
{
    if r.lost {
        let c = choose|c: Seq<ChoiceModel>|
            reached(before, then, start, c) && #[trigger] goes_astray::<S>(
                c,
                before.buffer_limit,
                failure.origin@,
            );
        assert(reached(now, then, start, c));
        assert(strayed::<S>(now, then, start, failure.origin@));
    }
    let path = choose|path: Seq<Seq<ChoiceModel>>|
        {
            &&& #[trigger] shrunk_along::<S>(
                path,
                start,
                before.log@,
                then.log@.len() as int,
                before.buffer_limit,
                failure.origin@,
            )
            &&& path.len() == r.report.total_shrinks + 1
            &&& models(r.choices@) == path.last() || (r.lost && path.len() > 1 && models(
                r.choices@,
            ) == path[path.len() - 2])
        };
    assert(shrunk_along::<S>(
        path,
        start,
        now.log@,
        then.log@.len() as int,
        now.buffer_limit,
        failure.origin@,
    ));
    assert(counted_way::<S>(r, now, then, start, failure.origin@));
}

/// Saves choices, where they can be written down.
fn save_choices<H: Harness>(harness: &mut H, choices: &Vec<Choice>)
    ensures
        saved::<H>(models(choices@)),
        saved_from(
            |h: &mut H| *final(h),
            *old(harness),
            *final(harness),
            models(choices@),
        ),
{
    if can_encode(choices) {
        let blob = encode_choices(choices);
        harness.save(&blob);
    }
}

/// Shrinks the failures of other origins that came up while shrinking, each origin
/// once, and none that is in `seen`.
fn shrink_slipped<H: Harness>(
    harness: &mut H,
    trials: &mut Trials,
    seen: Vec<Origin>,
    settings: &Settings,
    report: &mut ShrinkReport,
    examples: Ghost<Seq<Example>>,
) -> (r: Result<Vec<Report>, RunError>)
    requires
        old(trials).wf(),
        old(report).total_shrinks <= settings.max_shrinks,
        all_lead::<H>(old(trials).slipped@, old(trials).buffer_limit),
        all_tried(old(trials).slipped@, old(trials).log@),
        log_of_run::<H>(old(trials).log@, settings.buffer_limit, examples@),
        old(trials).buffer_limit == settings.buffer_limit,
    ensures
        r is Ok ==> all_shrunk::<H>(r->Ok_0@, *settings, examples@),
        r is Ok ==> all_run_again::<H>(r->Ok_0@, 0, settings.buffer_limit),
        r is Ok ==> final(trials).wf() && final(trials).slipped@.len() == 0,
        final(trials).log == old(trials).log,
        r is Ok ==> r->Ok_0@.len() <= old(trials).slipped@.len(),
        r is Ok ==> final(report).total_shrinks <= settings.max_shrinks,
        r is Ok && old(trials).slipped@.len() == 0 ==> *final(report) == *old(report)
            && *final(harness) == *old(harness),
        r is Ok ==> reports_hold::<H>(r->Ok_0@, old(trials).buffer_limit),
        r is Ok ==> all_saved::<H>(r->Ok_0@),
        r is Err ==> r->Err_0 is Raised || r->Err_0 is Choice,
        r is Err ==> run_error_fits::<H>(r->Err_0, *settings, examples@),
        r is Err && r->Err_0 is Raised ==> raised_shrinking::<H>(
            examples@,
            *settings,
            r->Err_0->Raised_0,
        ),
        old(trials).slipped@.len() == 0 ==> r is Ok,
        r is Ok ==> reports_distinct(r->Ok_0@),
        r is Ok ==> forall|i: int, j: int|
            0 <= i < r->Ok_0@.len() && 0 <= j < seen@.len() ==> (
            #[trigger] r->Ok_0@[i]).failure.origin@ != (#[trigger] seen@[j])@,
{
    let ghost known = seen@;
    let mut quiet = Trials::new(false, trials.buffer_limit);
    let mut out: Vec<Report> = Vec::new();
    let mut seen = seen;
    let mut waiting: Vec<Bug> = Vec::new();
    waiting.append(&mut trials.slipped);
    let ghost count = waiting@.len();
    while waiting.len() > 0
        invariant
            quiet.wf(),
            count == old(trials).slipped@.len(),
            out@.len() + waiting@.len() <= count,
            report.total_shrinks <= settings.max_shrinks,
            trials.wf(),
            trials.slipped@.len() == 0,
            trials.log == old(trials).log,
            quiet.buffer_limit == old(trials).buffer_limit,
            all_lead::<H>(waiting@, quiet.buffer_limit),
            all_tried(waiting@, old(trials).log@),
            log_of_run::<H>(old(trials).log@, settings.buffer_limit, examples@),
            reports_hold::<H>(out@, quiet.buffer_limit),
            all_saved::<H>(out@),
            quiet.buffer_limit == settings.buffer_limit,
            all_shrunk::<H>(out@, *settings, examples@),
            all_run_again::<H>(out@, 0, settings.buffer_limit),
            known.len() + out@.len() == seen@.len(),
            forall|j: int| 0 <= j < known.len() ==> #[trigger] seen@[j] == known[j],
            forall|i: int|
                0 <= i < out@.len() ==> (#[trigger] out@[i]).failure.origin@ == seen@[known.len()
                    + i]@,
            reports_distinct(out@),
            forall|i: int, j: int|
                0 <= i < out@.len() && 0 <= j < known.len() ==> (
                #[trigger] out@[i]).failure.origin@ != (#[trigger] known[j])@,
            count == 0 ==> *report == *old(report) && waiting@.len() == 0 && *harness == *old(
                harness,
            ),
        decreases waiting@.len(),
    {
        let ghost queue = waiting@;
        assert(leads_to::<H>(models(queue[0].choices@), quiet.buffer_limit, queue[0].failure));
        let bug = waiting.remove(0);
        proof {
            assert(tried(old(trials).log@, 0, models(queue[0].choices@), false));
            assert(came_up_shrinking::<H>(
                examples@,
                models(bug.choices@),
                bug.failure,
                settings.buffer_limit,
            ));
            assert(of_this_run::<H>(
                examples@,
                models(bug.choices@),
                bug.failure,
                settings.buffer_limit,
            ));
            assert forall|i: int| 0 <= i < waiting@.len() implies #[trigger] tried(
                old(trials).log@,
                0,
                models(waiting@[i].choices@),
                false,
            ) by {
                assert(waiting@[i] == queue[i + 1]);
                assert(tried(old(trials).log@, 0, models(queue[i + 1].choices@), false));
            }
            assert forall|i: int| 0 <= i < waiting@.len() implies #[trigger] leads_to::<H>(
                models(waiting@[i].choices@),
                quiet.buffer_limit,
                waiting@[i].failure,
            ) by {
                assert(waiting@[i] == queue[i + 1]);
                assert(leads_to::<H>(
                    models(queue[i + 1].choices@),
                    quiet.buffer_limit,
                    queue[i + 1].failure,
                ));
            }
        }
        let mut i: usize = 0;
        let mut fresh = true;
        while i < seen.len()
            invariant
                i <= seen.len(),
                fresh <==> forall|x: int|
                    0 <= x < i ==> (#[trigger] seen@[x])@ != bug.failure.origin@,
            decreases seen.len() - i,
        {
            if seen[i].same(&bug.failure.origin) {
                fresh = false;
            }
            i = i + 1;
        }
        if fresh {
            let ghost met = seen@;
            seen.push(bug.failure.origin.copy());
            let ghost then = quiet;
            match shrink_confirmed(harness, &mut quiet, bug, settings.max_shrinks) {
                Ok((shrunk, flaky)) => {
                    save_choices(harness, &shrunk.choices);
                    proof {
                        assert(belongs::<H>(
                            bug.failure,
                            models(bug.choices@),
                            settings.buffer_limit,
                        ));
                        assert(shrunk_from::<H>(
                            shrunk,
                            quiet,
                            then,
                            models(bug.choices@),
                            bug.failure,
                            settings.max_shrinks,
                        ));
                        assert(was_shrunk::<H>(
                            models(shrunk.choices@),
                            shrunk.failure,
                            *settings,
                            examples@,
                        ));
                    }
                    *report = shrunk.report;
                    let ghost before = out@;
                    let rep = Report { failure: shrunk.failure, choices: shrunk.choices, flaky };
                    assert(report_holds::<H>(rep, quiet.buffer_limit));
                    out.push(rep);
                    proof {
                        lemma_one_report::<H>(before, rep, 0, *settings, examples@);
                        assert forall|i: int| 0 <= i < out@.len() implies (
                        #[trigger] out@[i]).failure.origin@ == seen@[known.len() + i]@ by {
                            if i < before.len() {
                                assert(out@[i] == before[i]);
                                assert(seen@[known.len() + i] == met[known.len() + i]);
                            }
                        }
                        assert forall|i: int, j: int| 0 <= i < j < out@.len() implies (
                        #[trigger] out@[i]).failure.origin@ != (
                        #[trigger] out@[j]).failure.origin@ by {
                            assert(out@[i] == before[i]);
                            if j < before.len() {
                                assert(out@[j] == before[j]);
                            } else {
                                assert(met[known.len() + i]@ != bug.failure.origin@);
                            }
                        }
                        assert forall|i: int, j: int|
                            0 <= i < out@.len() && 0 <= j < known.len() implies (
                        #[trigger] out@[i]).failure.origin@ != (#[trigger] known[j])@ by {
                            if i < before.len() {
                                assert(out@[i] == before[i]);
                            } else {
                                assert(met[j] == known[j]);
                            }
                        }
                    }
                },
                Err(e) => {
                    proof {
                        if e is Choice {
                            assert(halted_on::<H>(
                                quiet,
                                then,
                                models(bug.choices@),
                                bug.failure,
                                e->Choice_0,
                            ));
                        } else {
                            assert(raised_on::<H>(
                                quiet,
                                then,
                                models(bug.choices@),
                                bug.failure,
                                e->Raised_0,
                            ));
                        }
                    }
                    return Err(halted(e));
                },
            }
        }
    }
    Ok(out)
}

proof fn lemma_one_report<H: Harness>(
    reports: Seq<Report>,
    rep: Report,
    from: int,
    settings: Settings,
    examples: Seq<Example>,
)
    requires
        0 <= from,
        reports_hold::<H>(reports, settings.buffer_limit),
        report_holds::<H>(rep, settings.buffer_limit),
    ensures
        reports_hold::<H>(reports.push(rep), settings.buffer_limit),
        all_saved::<H>(reports) && saved::<H>(models(rep.choices@)) ==> all_saved::<H>(
            reports.push(rep),
        ),
        all_shrunk::<H>(reports, settings, examples) && was_shrunk::<H>(
            models(rep.choices@),
            rep.failure,
            settings,
            examples,
        ) ==> all_shrunk::<H>(reports.push(rep), settings, examples),
        all_run_again::<H>(reports, from, settings.buffer_limit) && (reports.len() < from
            || run_again::<H>(
            models(rep.choices@),
            settings.buffer_limit,
            rep.failure.origin@,
            rep.flaky,
        )) ==> all_run_again::<H>(reports.push(rep), from, settings.buffer_limit),
{
    let all = reports.push(rep);
    let limit = settings.buffer_limit;
    assert forall|i: int| 0 <= i < all.len() implies #[trigger] report_holds::<H>(
        all[i],
        limit,
    ) by {
        if i < reports.len() {
            assert(report_holds::<H>(reports[i], limit));
        }
    }
    if all_saved::<H>(reports) && saved::<H>(models(rep.choices@)) {
        assert forall|i: int| 0 <= i < all.len() implies #[trigger] saved::<H>(
            models(all[i].choices@),
        ) by {
            if i < reports.len() {
                assert(saved::<H>(models(reports[i].choices@)));
            }
        }
    }
    if all_shrunk::<H>(reports, settings, examples) && was_shrunk::<H>(
        models(rep.choices@),
        rep.failure,
        settings,
        examples,
    ) {
        assert forall|i: int| 0 <= i < all.len() implies #[trigger] was_shrunk::<H>(
            models(all[i].choices@),
            all[i].failure,
            settings,
            examples,
        ) by {
            if i < reports.len() {
                assert(was_shrunk::<H>(
                    models(reports[i].choices@),
                    reports[i].failure,
                    settings,
                    examples,
                ));
            }
        }
    }
    if all_run_again::<H>(reports, from, limit) && (reports.len() < from || run_again::<H>(
        models(rep.choices@),
        limit,
        rep.failure.origin@,
        rep.flaky,
    )) {
        assert forall|i: int| from <= i < all.len() implies #[trigger] run_again::<H>(
            models(all[i].choices@),
            limit,
            all[i].failure.origin@,
            all[i].flaky,
        ) by {
            if i < reports.len() {
                assert(run_again::<H>(
                    models(reports[i].choices@),
                    limit,
                    reports[i].failure.origin@,
                    reports[i].flaky,
                ));
            }
        }
    }
}

proof fn lemma_joined_reports<H: Harness>(
    a: Seq<Report>,
    b: Seq<Report>,
    from: int,
    settings: Settings,
    examples: Seq<Example>,
)
    requires
        0 <= from <= a.len(),
        reports_hold::<H>(a, settings.buffer_limit),
        reports_hold::<H>(b, settings.buffer_limit),
    ensures
        reports_hold::<H>(a + b, settings.buffer_limit),
        all_saved::<H>(a) && all_saved::<H>(b) ==> all_saved::<H>(a + b),
        all_shrunk::<H>(a, settings, examples) && all_shrunk::<H>(b, settings, examples) ==> all_shrunk::<H>(
            a + b,
            settings,
            examples,
        ),
        all_run_again::<H>(a, from, settings.buffer_limit) && all_run_again::<H>(
            b,
            0,
            settings.buffer_limit,
        ) ==> all_run_again::<H>(a + b, from, settings.buffer_limit),
    decreases b.len(),
{
    let limit = settings.buffer_limit;
    if b.len() == 0 {
        assert(a + b =~= a);
    } else {
        let front = b.drop_last();
        assert forall|i: int| 0 <= i < front.len() implies #[trigger] report_holds::<H>(
            front[i],
            limit,
        ) by {
            assert(report_holds::<H>(b[i], limit));
        }
        if all_saved::<H>(b) {
            assert forall|i: int| 0 <= i < front.len() implies #[trigger] saved::<H>(
                models(front[i].choices@),
            ) by {
                assert(saved::<H>(models(b[i].choices@)));
            }
            assert(saved::<H>(models(b[b.len() - 1].choices@)));
        }
        if all_shrunk::<H>(b, settings, examples) {
            assert forall|i: int| 0 <= i < front.len() implies #[trigger] was_shrunk::<H>(
                models(front[i].choices@),
                front[i].failure,
                settings,
                examples,
            ) by {
                assert(was_shrunk::<H>(models(b[i].choices@), b[i].failure, settings, examples));
            }
            assert(was_shrunk::<H>(
                models(b[b.len() - 1].choices@),
                b[b.len() - 1].failure,
                settings,
                examples,
            ));
        }
        if all_run_again::<H>(b, 0, limit) {
            assert forall|i: int| 0 <= i < front.len() implies #[trigger] run_again::<H>(
                models(front[i].choices@),
                limit,
                front[i].failure.origin@,
                front[i].flaky,
            ) by {
                assert(run_again::<H>(
                    models(b[i].choices@),
                    limit,
                    b[i].failure.origin@,
                    b[i].flaky,
                ));
            }
            assert(run_again::<H>(
                models(b[b.len() - 1].choices@),
                limit,
                b[b.len() - 1].failure.origin@,
                b[b.len() - 1].flaky,
            ));
        }
        assert(report_holds::<H>(b[b.len() - 1], limit));
        lemma_joined_reports::<H>(a, front, from, settings, examples);
        lemma_one_report::<H>(a + front, b.last(), from, settings, examples);
        assert(a + b =~= (a + front).push(b.last()));
    }
}

/// Plays back the saved examples. Those that fail are bugs already in their simplest
/// form; the others are forgotten.
fn replay_saved<H: Harness>(
    harness: &mut H,
    settings: &Settings,
    bugs: &mut Vec<Bug>,
    counters: Counters,
    history: &mut History,
) -> (r: Result<(Counters, bool), RunError>)
    requires
        slipped_distinct(old(bugs)@),
        old(bugs)@.len() == 0,
        old(history).replayed@.len() == 0,
    ensures
        r is Ok ==> slipped_distinct(final(bugs)@),
        r is Ok ==> (final(bugs)@.len() > 0 <==> some_failed(final(history).replayed@)),
        final(history).made == old(history).made,
        r is Ok ==> r->Ok_0.0 == (Counters { call_count: r->Ok_0.0.call_count, ..counters }),
        r is Ok ==> (r->Ok_0.1 <==> final(bugs)@.len() > 0),
        r is Ok ==> replayed_from(
            |h: &mut H| *final(h),
            final(history).fetched@,
            final(history).replayed@,
            settings.buffer_limit,
            *old(harness),
            *final(harness),
        ),
        r is Ok && !r->Ok_0.1 ==> r->Ok_0.0 == counters,
        r is Err ==> r->Err_0 is Raised && broke_off_replaying(
            |h: &mut H| *final(h),
            final(history).fetched@,
            final(history).replayed@,
            settings.buffer_limit,
            *old(harness),
            *final(harness),
            r->Err_0->Raised_0,
        ),
        r is Ok ==> bugs_from(final(bugs)@, final(history).replayed@),
        r is Ok ==> all_seen_failing::<H>(final(bugs)@),
        r is Ok ==> all_known(final(history).replayed@, final(bugs)@),
        r is Ok ==> final(bugs)@.len() <= final(history).replayed@.len(),
        r is Err ==> r->Err_0 is Raised && raised_in_run::<H>(r->Err_0->Raised_0),
{
    let saved = harness.fetch();
    proof {
        history.fetched@ = saved@;
        assert(saved@.take(0) =~= Seq::<Vec<u8>>::empty());
    }
    let ghost first = *harness;
    assert(fetched_from(|h: &mut H| *final(h), *old(harness), first, history.fetched@));
    let mut c: Counters = counters;
    let mut from_db = false;
    let mut i: usize = 0;
    while i < saved.len()
        invariant
            i <= saved.len(),
            slipped_distinct(bugs@),
            c == (Counters { call_count: c.call_count, ..counters }),
            from_db <==> bugs@.len() > 0,
            bugs@.len() <= history.replayed@.len(),
            from_db <==> some_failed(history.replayed@),
            history.made == old(history).made,
            history.fetched@ == saved@,
            replayed_along(
                |h: &mut H| *final(h),
                saved@.take(i as int),
                history.replayed@,
                settings.buffer_limit,
                first,
                *harness,
            ),
            !from_db ==> c == counters,
            bugs_from(bugs@, history.replayed@),
            history.fetched@ == saved@,
            fetched_from(|h: &mut H| *final(h), *old(harness), first, saved@),
            all_seen_failing::<H>(bugs@),
            all_known(history.replayed@, bugs@),
        decreases saved.len() - i,
    {
        proof {
            assert(saved@.take(i + 1).drop_last() =~= saved@.take(i as int));
            assert(saved@.take(i + 1).last() == saved@[i as int]);
        }
        let ghost here = *harness;
        match decode(&saved[i]) {
            Err(_) => {
                harness.delete(&saved[i]);
                assert(deleted_from(|h: &mut H| *final(h), here, *harness, saved@[i as int]));
            },
            Ok(choices) => {
                let case = Case::new_for_choices(&choices, fresh_seed(), settings.buffer_limit);
                let ghost given = case;
                let (case, outcome) = run_example(harness, case, None);
                let outcome = match outcome {
                    Err(raised) => {
                        proof {
                            assert(example_run(
                                |h: &mut H| *final(h),
                                here,
                                *harness,
                                None,
                                given,
                                case,
                                Err(raised),
                            ));
                            assert(raised_replaying(
                                |h: &mut H| *final(h),
                                saved@[i as int],
                                settings.buffer_limit,
                                here,
                                *harness,
                                raised,
                            ));
                            assert(broke_off_replaying(
                                |h: &mut H| *final(h),
                                history.fetched@,
                                history.replayed@,
                                settings.buffer_limit,
                                *old(harness),
                                *harness,
                                raised,
                            ));
                        }
                        return Err(RunError::Raised(raised));
                    },
                    Ok(o) => o,
                };
                assert(ran::<H>(None, given, case, Ok(outcome)));
                let ghost before = history.replayed@;
                let ghost known = bugs@;
                history.note_replayed(&outcome, &case);
                proof {
                    lemma_one_more(before, example_of(outcome, case));
                    assert(history.replayed@.drop_last() =~= before);
                    assert(example_run(
                        |h: &mut H| *final(h),
                        here,
                        *harness,
                        None,
                        given,
                        case,
                        Ok(outcome),
                    ));
                    assert(shown_from(
                        |h: &mut H| *final(h),
                        here,
                        *harness,
                        history.replayed@.last(),
                        None,
                        given,
                    ));
                    lemma_from_stays(known, before, history.replayed@.last());
                }
                let ghost ran_so = *harness;
                match outcome {
                    Outcome::Interesting(failure) => {
                        c.call_count = bump(c.call_count);
                        let bug = Bug { failure, choices: case.choices() };
                        assert(seen_failing::<H>(models(bug.choices@), bug.failure));
                        let _ = add_bug(bugs, bug);
                        proof {
                            lemma_one_bug::<H>(known, bugs@, bug);
                            if !knows(known, bug.failure.origin@) {
                                assert(bugs@[known.len() as int] == bug);
                            }
                            assert(history.replayed@[before.len() as int].choices == models(
                                bug.choices@,
                            ));
                            lemma_bug_from(known, bugs@, bug, history.replayed@);
                            lemma_known_stays(
                                before,
                                history.replayed@.last(),
                                known,
                                bugs@,
                            );
                        }
                        from_db = true;
                    },
                    _ => {
                        proof {
                            lemma_known_stays(
                                before,
                                history.replayed@.last(),
                                known,
                                bugs@,
                            );
                        }
                        harness.delete(&saved[i]);
                        assert(deleted_from(
                            |h: &mut H| *final(h),
                            ran_so,
                            *harness,
                            saved@[i as int],
                        ));
                    },
                }
                assert(replay_next(
                    |h: &mut H| *final(h),
                    saved@[i as int],
                    models(choices@),
                    history.replayed@.last(),
                    settings.buffer_limit,
                    here,
                    *harness,
                ));
            },
        }
        assert(replayed_along(
            |h: &mut H| *final(h),
            saved@.take(i + 1),
            history.replayed@,
            settings.buffer_limit,
            first,
            *harness,
        ));
        i = i + 1;
    }
    assert(saved@.take(i as int) =~= saved@);
    Ok((c, from_db))
}

/// Each bug is a failure of one of the examples.
pub open spec fn bugs_from(bugs: Seq<Bug>, examples: Seq<Example>) -> bool {
    forall|i: int|
        0 <= i < bugs.len() ==> #[trigger] failed_in(
            examples,
            bugs[i].failure.origin@,
            models(bugs[i].choices@),
        )
}

proof fn lemma_failed_stays(
    examples: Seq<Example>,
    more: Seq<Example>,
    origin: OriginModel,
    choices: Seq<ChoiceModel>,
)
    requires
        failed_in(examples, origin, choices),
    ensures
        failed_in(examples + more, origin, choices),
        failed_in(more + examples, origin, choices),
{
    let i = choose|i: int|
        0 <= i < examples.len() && (#[trigger] examples[i]).outcome == OutcomeModel::Failed(origin)
            && examples[i].choices == choices;
    assert((examples + more)[i] == examples[i]);
    assert((more + examples)[more.len() + i] == examples[i]);
}

proof fn lemma_from_stays(bugs: Seq<Bug>, examples: Seq<Example>, e: Example)
    requires
        bugs_from(bugs, examples),
    ensures
        bugs_from(bugs, examples.push(e)),
{
    assert(examples.push(e) =~= examples + seq![e]);
    assert forall|i: int| 0 <= i < bugs.len() implies #[trigger] failed_in(
        examples.push(e),
        bugs[i].failure.origin@,
        models(bugs[i].choices@),
    ) by {
        assert(failed_in(examples, bugs[i].failure.origin@, models(bugs[i].choices@)));
        lemma_failed_stays(
            examples,
            seq![e],
            bugs[i].failure.origin@,
            models(bugs[i].choices@),
        );
    }
}

proof fn lemma_bug_from(before: Seq<Bug>, after: Seq<Bug>, bug: Bug, examples: Seq<Example>)
    requires
        bugs_from(before, examples),
        after == before || after == before.push(bug),
        failed_in(examples, bug.failure.origin@, models(bug.choices@)),
    ensures
        bugs_from(after, examples),
{
    assert forall|i: int| 0 <= i < after.len() implies #[trigger] failed_in(
        examples,
        after[i].failure.origin@,
        models(after[i].choices@),
    ) by {
        if i < before.len() {
            assert(failed_in(examples, before[i].failure.origin@, models(before[i].choices@)));
        }
    }
}

proof fn lemma_from_joined(bugs: Seq<Bug>, replayed: Seq<Example>, made: Seq<Example>)
    requires
        bugs_from(bugs, replayed) || bugs_from(bugs, made),
    ensures
        bugs_from(bugs, replayed + made),
{
    assert forall|i: int| 0 <= i < bugs.len() implies #[trigger] failed_in(
        replayed + made,
        bugs[i].failure.origin@,
        models(bugs[i].choices@),
    ) by {
        let (o, m) = (bugs[i].failure.origin@, models(bugs[i].choices@));
        assert(failed_in(replayed, o, m) || failed_in(made, o, m));
        if failed_in(replayed, o, m) {
            lemma_failed_stays(replayed, made, o, m);
        } else {
            lemma_failed_stays(made, replayed, o, m);
        }
    }
}

proof fn lemma_bugs_or_none(bugs: Seq<Bug>, examples: Seq<Example>)
    requires
        bugs_from(bugs, examples),
        all_known(examples, bugs),
    ensures
        bugs.len() > 0 <==> some_failed(examples),
{
    if bugs.len() > 0 {
        assert(failed_in(examples, bugs[0].failure.origin@, models(bugs[0].choices@)));
    }
}

proof fn lemma_known_means_failed(bugs: Seq<Bug>, examples: Seq<Example>, origin: OriginModel)
    requires
        bugs_from(bugs, examples),
        all_known(examples, bugs),
    ensures
        knows(bugs, origin) <==> failed_so(examples, origin),
{
    if knows(bugs, origin) {
        let i = choose|i: int| 0 <= i < bugs.len() && (#[trigger] bugs[i]).failure.origin@ == origin;
        assert(failed_in(examples, bugs[i].failure.origin@, models(bugs[i].choices@)));
    }
    if failed_so(examples, origin) {
        let i = choose|i: int|
            0 <= i < examples.len() && (#[trigger] examples[i]).outcome == OutcomeModel::Failed(
                origin,
            );
        assert(examples[i].outcome is Failed);
    }
}

proof fn lemma_one_bug<H: Harness>(before: Seq<Bug>, after: Seq<Bug>, bug: Bug)
    requires
        all_seen_failing::<H>(before),
        after == before || after == before.push(bug),
        seen_failing::<H>(models(bug.choices@), bug.failure),
    ensures
        all_seen_failing::<H>(after),
{
    assert forall|i: int| 0 <= i < after.len() implies #[trigger] seen_failing::<H>(
        models(after[i].choices@),
        after[i].failure,
    ) by {
        if i < before.len() {
            assert(seen_failing::<H>(models(before[i].choices@), before[i].failure));
        }
    }
}

/// What the end of an example was, and the bug it brought, if any.
fn sort_outcome(
    outcome: Outcome,
    case: &Case,
    bugs: &mut Vec<Bug>,
) -> (r: Kind)
    requires
        slipped_distinct(old(bugs)@),
    ensures
        slipped_distinct(final(bugs)@),
        r == (match outcome {
            Outcome::Valid => Kind::Valid,
            Outcome::Invalid => Kind::Invalid { overran: case.status == Status::Overrun },
            Outcome::Redundant => Kind::Redundant,
            Outcome::Interesting(f) => if knows(old(bugs)@, f.origin@) {
                Kind::KnownBug
            } else {
                Kind::NewBug
            },
        }),
        !(r is NewBug) ==> final(bugs)@ == old(bugs)@,
        r is NewBug ==> final(bugs)@.len() == old(bugs)@.len() + 1 && final(bugs)@.drop_last()
            == old(bugs)@ && final(bugs)@.last().failure == outcome->Interesting_0 && models(
            final(bugs)@.last().choices@,
        ) == crate::data::recorded(case.nodes@),
{
    match outcome {
        Outcome::Valid => Kind::Valid,
        Outcome::Invalid => Kind::Invalid { overran: case.status_is_overrun() },
        Outcome::Redundant => Kind::Redundant,
        Outcome::Interesting(failure) => {
            let ghost before = bugs@;
            if add_bug(bugs, Bug { failure, choices: case.choices() }) {
                proof {
                    assert(bugs@.drop_last() =~= before);
                }
                Kind::NewBug
            } else {
                Kind::KnownBug
            }
        },
    }
}

/// Where one bug is enough, there is at most one, and the search has ended with it.
pub open spec fn one_at_most(bugs: Seq<Bug>, c: Counters, settings: Settings) -> bool {
    !settings.report_multiple_bugs && bugs.len() > 0 ==> !c.keep_going
}

proof fn lemma_made_one_more<H: Harness>(made: Seq<Example>, e: Example, settings: Settings)
    requires
        made_in_order::<H>(made, settings),
        made_at::<H>(made.push(e), made.len() as int, settings),
    ensures
        made_in_order::<H>(made.push(e), settings),
{
    let all = made.push(e);
    assert forall|i: int| 0 <= i < all.len() implies #[trigger] made_at::<H>(
        all,
        i,
        settings,
    ) by {
        if i < made.len() {
            assert(made_at::<H>(made, i, settings));
            assert(all.take(i) =~= made.take(i));
        }
    }
}

proof fn lemma_remembers_one_more(
    before: Tracker,
    after: Tracker,
    examples: Seq<Example>,
    e: Example,
)
    requires
        remembers(before, examples),
        after.wf(),
        !before.on ==> after == before,
        before.on && !e.small ==> !after.on && after.tree == before.tree,
        before.on && e.small ==> {
            &&& forall|s: Seq<ChoiceModel>| #[trigger]
                after.tree.ends(s) <==> before.tree.ends(s) || s == e.choices
            &&& after.tracked_nodes == before.tracked_nodes + e.choices.len()
            &&& after.on <==> after.tracked_nodes <= MAX_TOTAL_TRACKED_NODES
        },
    ensures
        remembers(after, examples.push(e)),
{
    let all = examples.push(e);
    lemma_one_more(examples, e);
    if after.on {
        assert forall|i: int| 0 <= i < all.len() implies after.tree.ends(
            (#[trigger] all[i]).choices,
        ) by {
            if i < examples.len() {
                assert(all[i] == examples[i]);
                assert(before.tree.ends(examples[i].choices));
            }
        }
    }
}

/// The origin of a failure; some origin where there is none.
spec fn outcome_origin(o: Outcome) -> OriginModel {
    o->Interesting_0.origin@
}

/// Makes examples until one of the reasons to stop comes up.
fn generate<H: Harness>(
    harness: &mut H,
    settings: &Settings,
    bugs: &mut Vec<Bug>,
    rejected: &mut TreeNode,
    tracker: &mut Tracker,
    counters: Counters,
    history: &mut History,
    start: Ghost<H>,
) -> (r: Result<Counters, RunError>)
    requires
        slipped_distinct(old(bugs)@),
        old(rejected).wf(),
        old(tracker).wf(),
        counted(counters, old(history).made@),
        counters.iters == 0,
        found(old(bugs)@, old(history).replayed@, old(history).made@),
        one_at_most(old(bugs)@, counters, *settings),
        counters.keep_going ==> old(history).made@.len() == 1,
        bugs_from(old(bugs)@, old(history).replayed@ + old(history).made@),
        old(history).made@.len() > 0 ==> bugs_from(old(bugs)@, old(history).made@),
        old(history).made@.len() > 0 ==> made_along(
            |h: &mut H| *final(h),
            old(history).made@,
            *settings,
            start@,
            *old(harness),
            counters,
        ),
        bounded(old(history).made@, *settings),
        counters.keep_going ==> remembers(*old(tracker), old(history).made@),
        made_in_order::<H>(old(history).made@, *settings),
        all_seen_failing::<H>(old(bugs)@),
        all_known(old(history).replayed@, old(bugs)@),
        all_known(old(history).made@, old(bugs)@),
        forall|s: Seq<ChoiceModel>| #[trigger]
            old(rejected).ends(s) ==> some_rejected(old(history).made@, s),
    ensures
        final(history).replayed == old(history).replayed,
        final(history).fetched == old(history).fetched,
        made_in_order::<H>(final(history).made@, *settings),
        final(history).made@.len() >= old(history).made@.len(),
        bounded(final(history).made@, *settings),
        r is Ok ==> bugs_from(final(bugs)@, final(history).replayed@ + final(history).made@),
        r is Ok && old(history).made@.len() > 0 ==> made_along(
            |h: &mut H| *final(h),
            final(history).made@,
            *settings,
            start@,
            *final(harness),
            r->Ok_0,
        ) && !goes_further(r->Ok_0, *settings),
        !counters.keep_going ==> r is Ok && *final(harness) == *old(harness)
            && final(history).made@ == old(history).made@ && final(bugs)@ == old(bugs)@,
        r is Err ==> r->Err_0 is Raised || r->Err_0 is TooSlow,
        r is Err && r->Err_0 is Raised ==> broke_off_making(
            |h: &mut H| *final(h),
            final(history).made@,
            *settings,
            start@,
            *final(harness),
            r->Err_0->Raised_0,
        ),
        r is Err && r->Err_0 is TooSlow ==> slowed(
            |h: &mut H| *final(h),
            final(history).made@,
            *settings,
            start@,
            *final(harness),
        ),
        r is Ok ==> all_seen_failing::<H>(final(bugs)@),
        r is Ok ==> all_known(final(history).replayed@, final(bugs)@),
        r is Ok ==> all_known(final(history).made@, final(bugs)@),
        r is Ok ==> counted(r->Ok_0, final(history).made@),
        r is Ok ==> r->Ok_0.iters <= example_cap(settings.max_examples),
        r is Ok ==> found(final(bugs)@, final(history).replayed@, final(history).made@),
        r is Ok && !settings.report_multiple_bugs && old(bugs)@.len() <= 1 ==> final(bugs)@.len() <= 1,
        r is Ok && final(bugs)@.len() == 0 ==> {
            ||| enough_tried(final(history).made@, *settings)
            ||| r->Ok_0.valid == 0 && r->Ok_0.invalid > 0
            ||| !counters.keep_going
        },
        r is Ok ==> forall|s: Seq<ChoiceModel>| #[trigger]
            final(rejected).ends(s) ==> some_rejected(final(history).made@, s),
        r is Err && r->Err_0 is TooSlow ==> !some_failed(final(history).replayed@) && !some_failed(
            final(history).made@,
        ) && valid_count(final(history).made@) == r->Err_0->valid,
        !counters.keep_going ==> final(history).made == old(history).made,
        r is Ok ==> slipped_distinct(final(bugs)@) && final(rejected).wf() && final(tracker).wf(),
        r is Ok ==> final(bugs)@.len() >= old(bugs)@.len(),
        r is Ok ==> !r->Ok_0.keep_going || r->Ok_0.valid >= settings.max_examples || r->Ok_0.iters
            >= example_cap(settings.max_examples),
        !counters.keep_going ==> r == Ok::<Counters, RunError>(counters) && final(bugs)@
            == old(bugs)@,
        r is Err ==> run_error_fits::<H>(
            r->Err_0,
            *settings,
            final(history).replayed@ + final(history).made@,
        ),
{
    let cap: u64 = settings.max_examples as u64 * 10 + 100;
    let mut c: Counters = counters;
    while c.keep_going && c.valid < settings.max_examples && c.iters < cap
        invariant
            cap == example_cap(settings.max_examples),
            slipped_distinct(bugs@),
            rejected.wf(),
            tracker.wf(),
            bugs@.len() >= old(bugs)@.len(),
            !counters.keep_going ==> c == counters && bugs@ == old(bugs)@ && history.made
                == old(history).made,
            history.replayed == old(history).replayed,
            counted(c, history.made@),
            c.iters <= cap,
            cap < 0x20_0000_0000,
            found(bugs@, history.replayed@, history.made@),
            one_at_most(bugs@, c, *settings),
            !settings.report_multiple_bugs && old(bugs)@.len() <= 1 ==> bugs@.len() <= 1,
            bugs@.len() == 0 && !c.keep_going && counters.keep_going ==> {
                ||| everything_tried(history.made@)
                ||| c.valid == 0 && c.invalid > 0
            },
            history.fetched == old(history).fetched,
            counters.keep_going ==> remembers(*tracker, history.made@) && history.made@.len()
                == c.iters + 1,
            c.keep_going ==> counters.keep_going,
            history.made@.len() >= old(history).made@.len(),
            made_in_order::<H>(history.made@, *settings),
            all_seen_failing::<H>(bugs@),
            all_known(history.replayed@, bugs@),
            all_known(history.made@, bugs@),
            bugs_from(bugs@, history.replayed@ + history.made@),
            old(history).made@.len() > 0 ==> bugs_from(bugs@, history.made@),
            old(history).made@.len() > 0 ==> made_along(
                |h: &mut H| *final(h),
                history.made@,
                *settings,
                start@,
                *harness,
                c,
            ),
            !counters.keep_going ==> !c.keep_going && *harness == *old(harness) && history.made@
                == old(history).made@ && bugs@ == old(bugs)@,
            counters.keep_going ==> old(history).made@.len() == 1,
            bounded(history.made@, *settings),
            forall|s: Seq<ChoiceModel>| #[trigger]
                rejected.ends(s) ==> some_rejected(history.made@, s),
        decreases cap - c.iters,
    {
        let ghost here = *harness;
        let ghost p = c;
        if c.iters > 0 && c.iters % 2048 == 0 {
            harness.breathe();
        }
        let ghost ready = *harness;
        assert(breathed_at(|h: &mut H| *final(h), c.iters, here, ready));
        let seed: u64 = settings.seed.wrapping_add(c.iters);
        let case = Case::new_generate(seed, settings.buffer_limit);
        let ghost given = case;
        let ghost remembered = *tracker;
        let (case, outcome) = run_example(harness, case, Some(&*tracker));
        let outcome = match outcome {
            Ok(o) => o,
            Err(raised) => {
                proof {
                    assert(example_run(
                        |h: &mut H| *final(h),
                        ready,
                        *harness,
                        Some(&remembered),
                        given,
                        case,
                        Err(raised),
                    ));
                    assert(raised_making(
                        |h: &mut H| *final(h),
                        history.made@,
                        *settings,
                        here,
                        *harness,
                        p,
                        raised,
                    ));
                    assert(broke_off_making(
                        |h: &mut H| *final(h),
                        history.made@,
                        *settings,
                        start@,
                        *harness,
                        raised,
                    ));
                }
                return Err(RunError::Raised(raised));
            },
        };
        let ghost before = history.made@;
        let ghost known = bugs@;
        let ghost example = example_of(outcome, case);
        history.note_made(&outcome, &case);
        proof {
            lemma_one_more(before, example);
            lemma_counts(history.made@);
            assert(ran::<H>(Some(&remembered), given, case, Ok(outcome)));
            assert(example_shown::<H>(example, Some(&remembered), given));
            assert(example_run(
                |h: &mut H| *final(h),
                ready,
                *harness,
                Some(&remembered),
                given,
                case,
                Ok(outcome),
            ));
            assert(shown_from(
                |h: &mut H| *final(h),
                ready,
                *harness,
                example,
                Some(&remembered),
                given,
            ));
            assert(history.made@.drop_last() =~= before);
            assert(history.replayed@ + history.made@ =~= (history.replayed@ + before).push(
                example,
            ));
            lemma_from_stays(known, before, example);
            lemma_from_stays(known, history.replayed@ + before, example);
            lemma_known_means_failed(known, before, outcome_origin(outcome));
            assert(seed == seed_at(settings.seed, c.iters as int));
            assert(random_shown::<H>(example, seed, settings.buffer_limit, before));
            assert(before.push(example).take(before.len() as int) =~= before);
            assert(made_at::<H>(before.push(example), before.len() as int, *settings));
            lemma_made_one_more::<H>(before, example, *settings);
        }
        let kind = sort_outcome(outcome, &case, bugs);
        proof {
            if kind is NewBug {
                assert(bugs@ =~= known.push(bugs@.last()));
                assert(seen_failing::<H>(models(bugs@.last().choices@), bugs@.last().failure));
                lemma_one_bug::<H>(known, bugs@, bugs@.last());
                assert(bugs@[known.len() as int] == bugs@.last());
                assert(history.made@[before.len() as int] == example);
                lemma_bug_from(known, bugs@, bugs@.last(), history.made@);
                lemma_failed_stays(
                    history.made@,
                    history.replayed@,
                    bugs@.last().failure.origin@,
                    models(bugs@.last().choices@),
                );
                lemma_bug_from(
                    known,
                    bugs@,
                    bugs@.last(),
                    history.replayed@ + history.made@,
                );
            }
            lemma_known_stays(before, example, known, bugs@);
            lemma_known_stays(history.replayed@, example, known, bugs@);
            assert(kind == kind_of(example, before));
        }
        if let Kind::Invalid { .. } = kind {
            if c.valid == 0 {
                let way_taken = node_seq(&case.nodes);
                proof {
                    assert(way(way_taken@.skip(0)) =~= crate::data::recorded(case.nodes@));
                }
                rejected.add(&way_taken, 0);
            }
        }
        tracker.track_example(&case.nodes);
        proof {
            lemma_remembers_one_more(remembered, *tracker, before, example);
        }
        let exhausted = tracker.exhausted();
        c = count_example(c, kind, settings, exhausted, bugs.len() > 0);
        proof {
            lemma_bugs_or_none(bugs@, history.made@);
            assert(remembers(*tracker, history.made@));
            assert(c == counted_on(
                p,
                kind,
                *settings,
                tracker.on && tracker.tree.all_seen(),
                some_failed(history.made@),
            ));
            assert(counted_next(p, history.made@, *settings, c));
        }
        let ghost behind = *harness;
        proof {
            if exhausted {
                assert(tracker.tree.all_seen());
                assert(everything_tried(history.made@));
            }
        }
        let slow = if !settings.too_slow_suppressed && c.valid < 10 && bugs.len() == 0 {
            harness.too_slow()
        } else {
            false
        };
        proof {
            assert(slow_asked(
                |h: &mut H| *final(h),
                history.made@,
                *settings,
                behind,
                *harness,
                slow,
            ));
            assert(made_next(
                |h: &mut H| *final(h),
                history.made@,
                *settings,
                here,
                *harness,
                p,
                c,
                slow,
            ));
        }
        if slow {
            return Err(RunError::TooSlow { valid: c.valid });
        }
    }
    Ok(c)
}

/// The choices of two reports have no order.
pub open spec fn no_order(x: Report, y: Report) -> bool {
    sequence_less(models(x.choices@), models(y.choices@)) is None
}

/// A report is the first one or one of the others.
pub open spec fn is_among(x: Report, first: Report, others: Seq<Report>) -> bool {
    x == first || exists|i: int| 0 <= i < others.len() && x == #[trigger] others[i]
}

/// The simplest of the reports, the first one of several that are equally simple.
fn simplest_report(first: Report, others: Vec<Report>) -> (r: Result<Report, Incomparable>)
    ensures
        others@.len() == 0 ==> r == Ok::<Report, Incomparable>(first),
        r is Ok ==> r->Ok_0 == first || exists|i: int|
            0 <= i < others@.len() && r->Ok_0 == #[trigger] others@[i],
        r is Ok ==> sequence_less(models(first.choices@), models(r->Ok_0.choices@)) != Some(true),
        r is Ok ==> forall|i: int|
            0 <= i < others@.len() ==> sequence_less(
                models((#[trigger] others@[i]).choices@),
                models(r->Ok_0.choices@),
            ) != Some(true),
        r is Ok ==> r->Ok_0 == first || sequence_less(
            models(r->Ok_0.choices@),
            models(first.choices@),
        ) == Some(true),
        r is Err ==> exists|x: Report, y: Report|
            is_among(x, first, others@) && is_among(y, first, others@) && #[trigger] no_order(x, y),
{
    proof {
        simpler_is_asymmetric(models(first.choices@), models(first.choices@));
    }
    let mut best = first;
    let mut rest = others;
    let ghost mut done: int = 0;
    let ghost all = others@;
    while rest.len() > 0
        invariant
            all == others@,
            0 <= done <= all.len(),
            rest@ == all.skip(done),
            best == first || exists|i: int| 0 <= i < all.len() && best == #[trigger] all[i],
            done == 0 ==> best == first,
            sequence_less(models(first.choices@), models(best.choices@)) != Some(true),
            best == first || sequence_less(models(best.choices@), models(first.choices@)) == Some(
                true,
            ),
            forall|i: int|
                0 <= i < done ==> sequence_less(
                    models((#[trigger] all[i]).choices@),
                    models(best.choices@),
                ) != Some(true),
        decreases rest@.len(),
    {
        let next = rest.remove(0);
        proof {
            assert(next == all[done]);
            assert(rest@ =~= all.skip(done + 1));
            done = done + 1;
        }
        match choices_lt(&next.choices, &best.choices) {
            Ok(true) => {
                proof {
                    let (old_best, new_best) = (models(best.choices@), models(next.choices@));
                    if best != first {
                        simpler_is_transitive(new_best, old_best, models(first.choices@));
                    }
                    simpler_is_asymmetric(new_best, new_best);
                    if sequence_less(models(first.choices@), new_best) == Some(true) {
                        simpler_is_transitive(models(first.choices@), new_best, old_best);
                    }
                    assert forall|i: int| 0 <= i < done implies sequence_less(
                        models((#[trigger] all[i]).choices@),
                        new_best,
                    ) != Some(true) by {
                        if i < done - 1 && sequence_less(models(all[i].choices@), new_best) == Some(
                            true,
                        ) {
                            simpler_is_transitive(models(all[i].choices@), new_best, old_best);
                        }
                    }
                }
                best = next;
            },
            Ok(false) => {},
            Err(e) => {
                assert(is_among(next, first, all) && is_among(best, first, all));
                assert(no_order(next, best));
                return Err(e);
            },
        }
    }
    Ok(best)
}

/// A failure of the run: of one of its examples, or one that came up while another failure
/// was shrunk.
pub open spec fn of_this_run<H: Harness>(
    examples: Seq<Example>,
    choices: Seq<ChoiceModel>,
    failure: Failure,
    buffer_limit: Option<u64>,
) -> bool {
    failed_in(examples, failure.origin@, choices) || came_up_shrinking::<H>(
        examples,
        choices,
        failure,
        buffer_limit,
    )
}

/// The choices were tried while a failure of an example was shrunk, and failed in another way.
pub open spec fn came_up_shrinking<H: Harness>(
    examples: Seq<Example>,
    choices: Seq<ChoiceModel>,
    failure: Failure,
    buffer_limit: Option<u64>,
) -> bool {
    &&& leads_to::<H>(choices, buffer_limit, failure)
    &&& exists|log: Seq<Trial>| #[trigger]
        log_of_run::<H>(log, buffer_limit, examples) && tried(log, 0, choices, false)
}

/// Each trial was one of shrinking a failure of an example.
pub open spec fn log_of_run<H: Harness>(
    log: Seq<Trial>,
    buffer_limit: Option<u64>,
    examples: Seq<Example>,
) -> bool {
    forall|i: int| 0 <= i < log.len() ==> #[trigger] tried_for::<H>(log[i], buffer_limit, examples)
}

/// A trial was one of shrinking a failure of an example.
pub open spec fn tried_for<H: Harness>(
    t: Trial,
    buffer_limit: Option<u64>,
    examples: Seq<Example>,
) -> bool {
    exists|o: OriginModel| failed_so(examples, o) && #[trigger] shows::<H>(t, buffer_limit, o)
}

proof fn lemma_log_goes_on<H: Harness>(
    now: Trials,
    then: Trials,
    origin: OriginModel,
    choices: Seq<ChoiceModel>,
    examples: Seq<Example>,
)
    requires
        log_of_run::<H>(then.log@, then.buffer_limit, examples),
        now.follows::<H>(then, origin),
        failed_in(examples, origin, choices),
    ensures
        log_of_run::<H>(now.log@, now.buffer_limit, examples),
{
    let k = choose|i: int|
        0 <= i < examples.len() && (#[trigger] examples[i]).outcome == OutcomeModel::Failed(origin)
            && examples[i].choices == choices;
    assert(examples[k].outcome == OutcomeModel::Failed(origin));
    assert(failed_so(examples, origin));
    assert forall|i: int| 0 <= i < now.log@.len() implies #[trigger] tried_for::<H>(
        now.log@[i],
        now.buffer_limit,
        examples,
    ) by {
        if i < then.log@.len() {
            assert(now.log@[i] == then.log@[i]);
            assert(tried_for::<H>(then.log@[i], then.buffer_limit, examples));
        } else {
            assert(shows::<H>(now.log@[i], now.buffer_limit, origin));
        }
    }
}

/// A run of the choices did not fail in another way.
pub open spec fn fails_alike<H: Harness>(
    choices: Seq<ChoiceModel>,
    buffer_limit: Option<u64>,
    origin: OriginModel,
) -> bool {
    exists|outcome: Outcome| #[trigger]
        comes_out::<H>(choices, buffer_limit, outcome) && (outcome is Interesting ==> failed_with(
            outcome,
            origin,
        ))
}

/// All failures of the examples are of one kind.
pub open spec fn one_kind(examples: Seq<Example>) -> bool {
    forall|i: int, j: int|
        0 <= i < examples.len() && 0 <= j < examples.len() && (#[trigger] examples[i]).outcome is Failed
            && (#[trigger] examples[j]).outcome is Failed ==> examples[i].outcome
            == examples[j].outcome
}

/// A failure was run once more, and did not fail in another way.
pub open spec fn checked_once_more<H: Harness>(
    examples: Seq<Example>,
    buffer_limit: Option<u64>,
) -> bool {
    exists|origin: OriginModel, choices: Seq<ChoiceModel>| #[trigger]
        failed_in(examples, origin, choices) && fails_alike::<H>(choices, buffer_limit, origin)
}

/// The same choices failed in one way as an example, and in another way when they were
/// played back.
pub open spec fn fails_differently<H: Harness>(
    examples: Seq<Example>,
    first: Failure,
    second: Failure,
    buffer_limit: Option<u64>,
) -> bool {
    &&& first.origin@ != second.origin@
    &&& exists|choices: Seq<ChoiceModel>|
        #[trigger] failed_in(examples, first.origin@, choices) && leads_to::<H>(
            choices,
            buffer_limit,
            second,
        )
}

/// The shrinking of a failure of the run halted because a choice could not be worked out.
pub open spec fn shrinking_halted<H: Harness>(
    examples: Seq<Example>,
    c: ChoiceError,
    settings: Settings,
) -> bool {
    exists|now: Trials, then: Trials, start: Seq<ChoiceModel>, first: Failure|
        {
            &&& #[trigger] halted_on::<H>(now, then, start, first, c)
            &&& now.buffer_limit == settings.buffer_limit
            &&& of_this_run::<H>(examples, start, first, settings.buffer_limit)
        }
}

/// The shrinking of a failure halted because a choice could not be worked out.
pub open spec fn halted_on<H: Harness>(
    now: Trials,
    then: Trials,
    start: Seq<ChoiceModel>,
    first: Failure,
    c: ChoiceError,
) -> bool {
    shrinking_halts::<H>(now, then, start, first.origin@, Halt::Choice(c))
}

/// Two failures of the run, both shrunk, have no order.
pub open spec fn failures_without_order<H: Harness>(
    settings: Settings,
    examples: Seq<Example>,
) -> bool {
    exists|x: Report, y: Report|
        {
            &&& #[trigger] no_order(x, y)
            &&& report_holds::<H>(x, settings.buffer_limit)
            &&& report_holds::<H>(y, settings.buffer_limit)
            &&& was_shrunk::<H>(models(x.choices@), x.failure, settings, examples) || was_shrunk::<H>(
                models(y.choices@),
                y.failure,
                settings,
                examples,
            )
        }
}

/// Which errors a run with these settings and these examples can end with, and when.
pub open spec fn run_error_fits<H: Harness>(
    e: RunError,
    settings: Settings,
    examples: Seq<Example>,
) -> bool {
    match e {
        RunError::Raised(raised) => raised_in_run::<H>(raised),
        RunError::Choice(c) => shrinking_halted::<H>(examples, c, settings),
        RunError::TooSlow { valid } => !settings.too_slow_suppressed && valid < 10,
        RunError::Rejected { count } => settings.filter_suppressed && count > 0,
        RunError::FilterTooMuch => !settings.filter_suppressed,
        RunError::TooLarge { count } => count > 0,
        RunError::Unsatisfiable => true,
        RunError::Flaky { first, second } => settings.max_shrinks > 0 && fails_differently::<H>(
            examples,
            first,
            second,
            settings.buffer_limit,
        ),
        RunError::Incomparable => !settings.report_multiple_bugs && failures_without_order::<H>(
            settings,
            examples,
        ),
    }
}

proof fn lemma_among_holds<H: Harness>(
    x: Report,
    first: Report,
    others: Seq<Report>,
    settings: Settings,
    examples: Seq<Example>,
)
    requires
        is_among(x, first, others),
        report_holds::<H>(first, settings.buffer_limit),
        reports_hold::<H>(others, settings.buffer_limit),
        all_shrunk::<H>(others, settings, examples),
    ensures
        report_holds::<H>(x, settings.buffer_limit),
        x == first || was_shrunk::<H>(models(x.choices@), x.failure, settings, examples),
{
    if x != first {
        let i = choose|i: int| 0 <= i < others.len() && x == #[trigger] others[i];
        assert(report_holds::<H>(others[i], settings.buffer_limit));
        assert(was_shrunk::<H>(models(others[i].choices@), others[i].failure, settings, examples));
    }
}

/// Reports a run that found one bug, and what came up while shrinking it. Only the
/// simplest failure is reported where one is enough.
fn report_single<H: Harness>(
    harness: &mut H,
    trials: &mut Trials,
    settings: &Settings,
    bug: Bug,
    from_db: bool,
    examples: Ghost<Seq<Example>>,
) -> (r: Result<RunResult, RunError>)
    requires
        failed_in(examples@, bug.failure.origin@, models(bug.choices@)),
        old(trials).wf(),
        old(trials).slipped@.len() == 0,
        old(trials).log@.len() == 0,
        old(trials).buffer_limit == settings.buffer_limit,
        seen_failing::<H>(models(bug.choices@), bug.failure),
    ensures
        r is Ok ==> reports_hold::<H>(r->Ok_0.reports@, settings.buffer_limit),
        r is Ok ==> all_saved::<H>(r->Ok_0.reports@),
        r is Ok && settings.report_multiple_bugs ==> reported(
            r->Ok_0.reports@,
            bug.failure.origin@,
        ),
        r is Ok && from_db ==> r->Ok_0.reports@.len() == 1 && saved_from(
            |h: &mut H| *final(h),
            *old(harness),
            *final(harness),
            models(r->Ok_0.minimal@),
        ),
        r is Ok && !from_db ==> all_shrunk::<H>(r->Ok_0.reports@, *settings, examples@),
        r is Ok && settings.report_multiple_bugs ==> models(r->Ok_0.minimal@) == models(
            r->Ok_0.reports@[0].choices@,
        ) && all_run_again::<H>(r->Ok_0.reports@, 1, settings.buffer_limit),
        r is Ok ==> saved::<H>(models(r->Ok_0.minimal@)),
        r is Ok ==> minimal_holds::<H>(r->Ok_0, *settings, examples@),
        r is Ok && from_db ==> r->Ok_0.report.passes@.len() == 0,
        r is Ok && from_db ==> reports_from(r->Ok_0.reports@, examples@),
        r is Ok ==> r->Ok_0.reports@.len() >= 1,
        r is Ok && !settings.report_multiple_bugs ==> r->Ok_0.reports@.len() == 1,
        r is Ok ==> r->Ok_0.report.total_shrinks <= settings.max_shrinks,
        r is Ok && from_db ==> models(r->Ok_0.minimal@) == models(bug.choices@)
            && r->Ok_0.reports@.len() == 1 && r->Ok_0.reports@[0].failure == bug.failure,
        r is Ok && !from_db ==> models(r->Ok_0.minimal@) == models(bug.choices@) || tried(
            final(trials).log@,
            old(trials).log@.len() as int,
            models(r->Ok_0.minimal@),
            true,
        ),
        r is Err ==> run_error_fits::<H>(r->Err_0, *settings, examples@),
        r is Err ==> r->Err_0 is Raised || r->Err_0 is Choice || r->Err_0 is Incomparable
            || r->Err_0 is Flaky,
        r is Err && r->Err_0 is Raised ==> raised_behind(
            |h: &mut H| *final(h),
            examples@,
            *settings,
            *old(harness),
            *final(harness),
            r->Err_0->Raised_0,
        ),
        from_db ==> r is Ok,
        !from_db && settings.max_shrinks > 0 && !(r is Err && (r->Err_0 is Flaky
            || r->Err_0 is Raised)) ==> fails_alike::<H>(
            models(bug.choices@),
            settings.buffer_limit,
            bug.failure.origin@,
        ),
        r is Ok ==> reports_distinct(r->Ok_0.reports@),
{
    if !from_db && settings.max_shrinks > 0 {
        let case = Case::new_for_choices(&bug.choices, fresh_seed(), settings.buffer_limit);
        let ghost given = case;
        let (_case, outcome) = run_one(harness, case, None);
        assert(played_back::<H>(models(bug.choices@), settings.buffer_limit, _case, outcome));
        match outcome {
            Err(raised) => {
                assert(ran_from(
                    |h: &mut H| *final(h),
                    *old(harness),
                    *harness,
                    None,
                    given,
                    _case,
                    Err(raised),
                ));
                assert(raised_once_more(
                    |h: &mut H| *final(h),
                    examples@,
                    *settings,
                    *old(harness),
                    *harness,
                    raised,
                ));
                return Err(RunError::Raised(raised));
            },
            Ok(Outcome::Interesting(second)) => {
                assert(comes_out::<H>(
                    models(bug.choices@),
                    settings.buffer_limit,
                    Outcome::Interesting(second),
                ));
                assert(leads_to::<H>(models(bug.choices@), settings.buffer_limit, second));
                if !second.origin.same(&bug.failure.origin) {
                    return Err(RunError::Flaky { first: bug.failure, second });
                }
            },
            Ok(other) => {
                assert(played_back::<H>(
                    models(bug.choices@),
                    settings.buffer_limit,
                    _case,
                    Ok(other),
                ));
                assert(comes_out::<H>(models(bug.choices@), settings.buffer_limit, other));
            },
        }
        assert(fails_alike::<H>(
            models(bug.choices@),
            settings.buffer_limit,
            bug.failure.origin@,
        ));
    }
    let origin = bug.failure.origin.copy();
    let mut report = ShrinkReport::new();
    let mut first = Report { failure: bug.failure, choices: bug.choices, flaky: false };
    if !from_db {
        let shrunk = match shrink(
            harness,
            trials,
            first.choices,
            first.failure,
            settings.max_shrinks,
        ) {
            Ok(s) => s,
            Err(e) => {
                proof {
                    if e is Choice {
                        assert(halted_on::<H>(
                            *trials,
                            *old(trials),
                            models(bug.choices@),
                            bug.failure,
                            e->Choice_0,
                        ));
                    } else {
                        assert(raised_on::<H>(
                            *trials,
                            *old(trials),
                            models(bug.choices@),
                            bug.failure,
                            e->Raised_0,
                        ));
                    }
                }
                return Err(halted(e));
            },
        };
        proof {
            assert(belongs::<H>(bug.failure, models(bug.choices@), settings.buffer_limit));
            assert(shrunk_from::<H>(
                shrunk,
                *trials,
                *old(trials),
                models(bug.choices@),
                bug.failure,
                settings.max_shrinks,
            ));
            assert(was_shrunk::<H>(models(shrunk.choices@), shrunk.failure, *settings, examples@));
            lemma_log_goes_on::<H>(
                *trials,
                *old(trials),
                bug.failure.origin@,
                models(bug.choices@),
                examples@,
            );
        }
        report = shrunk.report;
        first = Report { failure: shrunk.failure, choices: shrunk.choices, flaky: false };
    }
    let minimal = copy_choices(&first.choices);
    save_choices(harness, &first.choices);
    proof {
        assert(report_holds::<H>(first, settings.buffer_limit));
        assert(belongs::<H>(first.failure, models(minimal@), settings.buffer_limit));
        lemma_one_report::<H>(Seq::empty(), first, 1, *settings, examples@);
        simpler_is_asymmetric(models(first.choices@), models(first.choices@));
    }
    let seen: Vec<Origin> = vec![origin];
    assert(seen@[0]@ == first.failure.origin@);
    let slipped = match shrink_slipped(harness, trials, seen, settings, &mut report, examples) {
        Ok(v) => v,
        Err(e) => {
            return Err(e);
        },
    };
    if settings.report_multiple_bugs || slipped.len() == 0 {
        let mut reports: Vec<Report> = vec![first];
        let mut more = slipped;
        proof {
            assert(reports@ =~= Seq::<Report>::empty().push(first));
            lemma_joined_reports::<H>(reports@, more@, 1, *settings, examples@);
        }
        reports.append(&mut more);
        proof {
            assert(reports@[0].failure.origin@ == bug.failure.origin@);
            assert forall|i: int, j: int| 0 <= i < j < reports@.len() implies (
            #[trigger] reports@[i]).failure.origin@ != (
            #[trigger] reports@[j]).failure.origin@ by {
                assert(reports@[j] == slipped@[j - 1]);
                if i > 0 {
                    assert(reports@[i] == slipped@[i - 1]);
                }
            }
        }
        return Ok(RunResult { reports, minimal, report });
    }
    match simplest_report(first, slipped) {
        Ok(best) => {
            proof {
                if best != first {
                    let i = choose|i: int| 0 <= i < slipped@.len() && best == #[trigger] slipped@[i];
                    assert(report_holds::<H>(slipped@[i], settings.buffer_limit));
                    assert(saved::<H>(models(slipped@[i].choices@)));
                    assert(was_shrunk::<H>(
                        models(slipped@[i].choices@),
                        slipped@[i].failure,
                        *settings,
                        examples@,
                    ));
                }
                lemma_one_report::<H>(Seq::empty(), best, 1, *settings, examples@);
            }
            let reports: Vec<Report> = vec![best];
            assert(reports@ =~= Seq::<Report>::empty().push(best));
            Ok(RunResult { reports, minimal, report })
        },
        Err(_) => {
            proof {
                let (x, y) = choose|x: Report, y: Report|
                    is_among(x, first, slipped@) && is_among(y, first, slipped@)
                        && #[trigger] no_order(x, y);
                lemma_among_holds::<H>(x, first, slipped@, *settings, examples@);
                lemma_among_holds::<H>(y, first, slipped@, *settings, examples@);
                if x == first && y == first {
                    simpler_is_asymmetric(models(first.choices@), models(first.choices@));
                }
            }
            Err(RunError::Incomparable)
        },
    }
}

/// Reports a run that found several bugs, each one shrunk on its own.
fn report_several<H: Harness>(
    harness: &mut H,
    trials: &mut Trials,
    settings: &Settings,
    bugs: Vec<Bug>,
    from_db: bool,
    examples: Ghost<Seq<Example>>,
) -> (r: Result<RunResult, RunError>)
    requires
        bugs_from(bugs@, examples@),
        slipped_distinct(bugs@),
        old(trials).wf(),
        old(trials).slipped@.len() == 0,
        old(trials).log@.len() == 0,
        old(trials).buffer_limit == settings.buffer_limit,
        all_seen_failing::<H>(bugs@),
    ensures
        r is Ok ==> reports_hold::<H>(r->Ok_0.reports@, settings.buffer_limit),
        r is Ok ==> bugs_reported(bugs@, r->Ok_0.reports@),
        r is Ok && from_db ==> *final(harness) == *old(harness),
        r is Ok && !from_db ==> all_saved::<H>(r->Ok_0.reports@),
        r is Ok && !from_db ==> all_shrunk::<H>(r->Ok_0.reports@, *settings, examples@),
        r is Ok && !from_db ==> all_run_again::<H>(r->Ok_0.reports@, 0, settings.buffer_limit),
        r is Ok && from_db ==> r->Ok_0.report.passes@.len() == 0,
        r is Ok && from_db ==> reports_from(r->Ok_0.reports@, examples@),
        r is Ok ==> r->Ok_0.minimal@.len() == 0,
        r is Ok ==> r->Ok_0.reports@.len() >= bugs@.len(),
        r is Ok && from_db ==> r->Ok_0.reports@.len() == bugs@.len() && forall|i: int|
            0 <= i < bugs@.len() ==> (#[trigger] r->Ok_0.reports@[i]).failure == bugs@[i].failure,
        r is Ok ==> r->Ok_0.report.total_shrinks <= settings.max_shrinks,
        r is Err ==> run_error_fits::<H>(r->Err_0, *settings, examples@),
        r is Err ==> r->Err_0 is Raised || r->Err_0 is Choice || r->Err_0 is Incomparable
            || r->Err_0 is Flaky,
        r is Err && r->Err_0 is Raised ==> raised_behind(
            |h: &mut H| *final(h),
            examples@,
            *settings,
            *old(harness),
            *final(harness),
            r->Err_0->Raised_0,
        ),
        from_db ==> r is Ok,
        r is Ok ==> reports_distinct(r->Ok_0.reports@),
{
    let mut reports: Vec<Report> = Vec::new();
    let mut origins: Vec<Origin> = Vec::new();
    let mut report = ShrinkReport::new();
    let mut rest = bugs;
    let ghost all = bugs@;
    let ghost mut done: int = 0;
    while rest.len() > 0
        invariant
            trials.wf(),
            all == bugs@,
            0 <= done <= all.len(),
            rest@ == all.skip(done),
            reports@.len() == done,
            slipped_distinct(all),
            origins@.len() == done,
            forall|i: int|
                0 <= i < done ==> (#[trigger] origins@[i])@ == all[i].failure.origin@,
            report.total_shrinks <= settings.max_shrinks,
            trials.buffer_limit == settings.buffer_limit,
            all_lead::<H>(trials.slipped@, settings.buffer_limit),
            all_tried(trials.slipped@, trials.log@),
            log_of_run::<H>(trials.log@, settings.buffer_limit, examples@),
            all_seen_failing::<H>(all),
            bugs_from(all, examples@),
            from_db ==> *harness == *old(harness),
            reports_hold::<H>(reports@, settings.buffer_limit),
            forall|i: int|
                0 <= i < done ==> (#[trigger] reports@[i]).failure.origin@
                    == all[i].failure.origin@,
            !from_db ==> all_saved::<H>(reports@),
            !from_db ==> all_shrunk::<H>(reports@, *settings, examples@),
            !from_db ==> all_run_again::<H>(reports@, 0, settings.buffer_limit),
            from_db ==> report.passes@.len() == 0,
            from_db ==> reports_from(reports@, examples@),
            from_db ==> forall|i: int|
                0 <= i < done ==> (#[trigger] reports@[i]).failure == all[i].failure,
        decreases rest@.len(),
    {
        let ghost before = reports@;
        let bug = rest.remove(0);
        proof {
            assert(bug == all[done]);
            assert(rest@ =~= all.skip(done + 1));
            assert(seen_failing::<H>(models(all[done].choices@), all[done].failure));
            assert(failed_in(
                examples@,
                all[done].failure.origin@,
                models(all[done].choices@),
            ));
            done = done + 1;
        }
        origins.push(bug.failure.origin.copy());
        if from_db {
            let rep = Report { failure: bug.failure, choices: bug.choices, flaky: false };
            reports.push(rep);
            proof {
                assert forall|i: int| 0 <= i < reports@.len() implies #[trigger] failed_in(
                    examples@,
                    reports@[i].failure.origin@,
                    models(reports@[i].choices@),
                ) by {
                    if i < before.len() {
                        assert(failed_in(
                            examples@,
                            before[i].failure.origin@,
                            models(before[i].choices@),
                        ));
                    }
                }
                assert(report_holds::<H>(rep, settings.buffer_limit));
                lemma_one_report::<H>(before, rep, 0, *settings, examples@);
            }
        } else {
            let ghost then = *trials;
            match shrink_confirmed(harness, trials, bug, settings.max_shrinks) {
                Ok((shrunk, flaky)) => {
                    save_choices(harness, &shrunk.choices);
                    proof {
                        assert(belongs::<H>(
                            bug.failure,
                            models(bug.choices@),
                            settings.buffer_limit,
                        ));
                        assert(shrunk_from::<H>(
                            shrunk,
                            *trials,
                            then,
                            models(bug.choices@),
                            bug.failure,
                            settings.max_shrinks,
                        ));
                        assert(was_shrunk::<H>(
                            models(shrunk.choices@),
                            shrunk.failure,
                            *settings,
                            examples@,
                        ));
                        lemma_log_goes_on::<H>(
                            *trials,
                            then,
                            bug.failure.origin@,
                            models(bug.choices@),
                            examples@,
                        );
                    }
                    report = shrunk.report;
                    let rep = Report { failure: shrunk.failure, choices: shrunk.choices, flaky };
                    reports.push(rep);
                    proof {
                        assert(report_holds::<H>(rep, settings.buffer_limit));
                        lemma_one_report::<H>(before, rep, 0, *settings, examples@);
                    }
                },
                Err(e) => {
                    proof {
                        if e is Choice {
                            assert(halted_on::<H>(
                                *trials,
                                then,
                                models(bug.choices@),
                                bug.failure,
                                e->Choice_0,
                            ));
                        } else {
                            assert(raised_on::<H>(
                                *trials,
                                then,
                                models(bug.choices@),
                                bug.failure,
                                e->Raised_0,
                            ));
                        }
                    }
                    return Err(halted(e));
                },
            }
        }
    }
    proof {
        assert forall|i: int, j: int| 0 <= i < j < reports@.len() implies (
        #[trigger] reports@[i]).failure.origin@ != (#[trigger] reports@[j]).failure.origin@ by {
            assert(all[i].failure.origin@ != all[j].failure.origin@);
        }
    }
    if !from_db {
        let ghost first = reports@;
        match shrink_slipped(harness, trials, origins, settings, &mut report, examples) {
            Ok(v) => {
                let mut more = v;
                proof {
                    lemma_joined_reports::<H>(reports@, more@, 0, *settings, examples@);
                }
                reports.append(&mut more);
                proof {
                    assert forall|i: int, j: int| 0 <= i < j < reports@.len() implies (
                    #[trigger] reports@[i]).failure.origin@ != (
                    #[trigger] reports@[j]).failure.origin@ by {
                        if j < first.len() {
                            assert(reports@[i] == first[i] && reports@[j] == first[j]);
                        } else {
                            assert(reports@[j] == v@[j - first.len()]);
                            if i < first.len() {
                                assert(reports@[i] == first[i]);
                                assert(origins@[i]@ == first[i].failure.origin@);
                            } else {
                                assert(reports@[i] == v@[i - first.len()]);
                            }
                        }
                    }
                }
            },
            Err(e) => {
                return Err(e);
            },
        }
    }
    proof {
        assert forall|i: int| 0 <= i < all.len() implies reported(
            reports@,
            (#[trigger] all[i]).failure.origin@,
        ) by {
            assert(reports@[i].failure.origin@ == all[i].failure.origin@);
        }
    }
    Ok(RunResult { reports, minimal: Vec::new(), report })
}

proof fn lemma_one_bug_of_a_kind(bugs: Seq<Bug>, replayed: Seq<Example>, made: Seq<Example>)
    requires
        bugs_from(bugs, replayed + made),
        slipped_distinct(bugs),
        bugs.len() > 0,
        !some_failed(replayed),
        one_kind(made),
    ensures
        bugs.len() == 1,
        failed_in(made, bugs[0].failure.origin@, models(bugs[0].choices@)),
{
    let all = replayed + made;
    assert forall|k: int| 0 <= k < bugs.len() implies failed_in(
        made,
        (#[trigger] bugs[k]).failure.origin@,
        models(bugs[k].choices@),
    ) by {
        let (o, c) = (bugs[k].failure.origin@, models(bugs[k].choices@));
        assert(failed_in(all, o, c));
        let i = choose|i: int|
            0 <= i < all.len() && (#[trigger] all[i]).outcome == OutcomeModel::Failed(o)
                && all[i].choices == c;
        if i < replayed.len() {
            assert(replayed[i].outcome is Failed);
        } else {
            assert(made[i - replayed.len()] == all[i]);
        }
    }
    if bugs.len() > 1 {
        let (a, b) = (bugs[0], bugs[1]);
        assert(failed_in(made, a.failure.origin@, models(a.choices@)));
        assert(failed_in(made, b.failure.origin@, models(b.choices@)));
        assert(a.failure.origin@ != b.failure.origin@);
    }
    assert(failed_in(made, bugs[0].failure.origin@, models(bugs[0].choices@)));
}

/// Runs a test: plays back what was saved, tries the simplest example, makes random
/// ones, and shrinks what fails. Something is reported if, and only if, one of the examples
/// failed, and what is reported is the failure of a run of the choices reported with it.
#[verifier::rlimit(60)]
pub fn run_native<H: Harness>(harness: &mut H, settings: &Settings) -> (r: Run)
    ensures
        result_fits(|h: &mut H| *final(h), r, *settings, *old(harness), *final(harness)),
        r.result is Ok && r.result->Ok_0.reports@.len() == 0 ==> r.result->Ok_0.minimal@.len() == 0
            && r.result->Ok_0.report.passes@.len() == 0,
        r.result is Ok ==> r.result->Ok_0.report.total_shrinks <= settings.max_shrinks,
        r.result is Err ==> run_error_fits::<H>(
            r.result->Err_0,
            *settings,
            r.history.replayed@ + r.history.made@,
        ),
{
    let mut history = History::new();
    let mut trials = Trials::new(true, settings.buffer_limit);
    let mut rejected = TreeNode::new();
    let mut tracker = Tracker::new();
    let mut bugs: Vec<Bug> = Vec::new();
    let start = Counters {
        valid: 0,
        invalid: 0,
        overrun: 0,
        iters: 0,
        call_count: 0,
        first_bug_at: None,
        last_bug_at: 0,
        keep_going: true,
    };
    let (mut c, from_db) = match replay_saved(harness, settings, &mut bugs, start, &mut history) {
        Ok(p) => p,
        Err(e) => {
            return Run { history, result: Err(e) };
        },
    };
    let ghost replayed_state = *harness;
    if bugs.len() == 0 {
        let simplest = Case::new_simplest(settings.buffer_limit);
        let ghost given = simplest;
        let ghost remembered = tracker;
        let (case, outcome) = run_example(harness, simplest, None);
        let outcome = match outcome {
            Ok(o) => o,
            Err(raised) => {
                let run = Run { history, result: Err(RunError::Raised(raised)) };
                proof {
                    assert(example_run(
                        |h: &mut H| *final(h),
                        replayed_state,
                        *harness,
                        None,
                        given,
                        case,
                        Err(raised),
                    ));
                    assert(broke_off_making(
                        |h: &mut H| *final(h),
                        run.history.made@,
                        *settings,
                        replayed_state,
                        *harness,
                        raised,
                    ));
                    assert(replayed_from(
                        |h: &mut H| *final(h),
                        run.history.fetched@,
                        run.history.replayed@,
                        settings.buffer_limit,
                        *old(harness),
                        replayed_state,
                    ));
                    assert(broke_off(
                        |h: &mut H| *final(h),
                        run,
                        *settings,
                        *old(harness),
                        *harness,
                        raised,
                    ));
                }
                return run;
            },
        };
        let ghost before = history.made@;
        let ghost known = bugs@;
        let ghost example = example_of(outcome, case);
        history.note_made(&outcome, &case);
        proof {
            lemma_one_more(before, example);
            assert(before =~= Seq::<Example>::empty());
            assert(ran::<H>(None, given, case, Ok(outcome)));
            assert(example_shown::<H>(example, None, given));
            assert(made_at::<H>(before.push(example), 0, *settings));
            lemma_made_one_more::<H>(before, example, *settings);
        }
        let kind = sort_outcome(outcome, &case, &mut bugs);
        proof {
            if kind is NewBug {
                assert(bugs@ =~= known.push(bugs@.last()));
                assert(seen_failing::<H>(models(bugs@.last().choices@), bugs@.last().failure));
                lemma_one_bug::<H>(known, bugs@, bugs@.last());
            }
            if kind is NewBug {
                assert(bugs@[known.len() as int] == bugs@.last());
            }
            lemma_known_stays(before, example, known, bugs@);
            lemma_known_stays(history.replayed@, example, known, bugs@);
            assert(history.made@[0] == example);
            if kind is NewBug {
                assert(failed_in(
                    history.made@,
                    bugs@.last().failure.origin@,
                    models(bugs@.last().choices@),
                ));
                lemma_bug_from(known, bugs@, bugs@.last(), history.made@);
            }
            lemma_from_joined(bugs@, history.replayed@, history.made@);
            assert(example_run(
                |h: &mut H| *final(h),
                replayed_state,
                *harness,
                None,
                given,
                case,
                Ok(outcome),
            ));
            assert(shown_from(
                |h: &mut H| *final(h),
                replayed_state,
                *harness,
                example,
                None,
                given,
            ));
            assert(made_first(
                |h: &mut H| *final(h),
                history.made@[0],
                *settings,
                replayed_state,
                *harness,
            ));
            assert(kind == kind_of(example, Seq::empty()));
            assert(history.made@.drop_last() =~= Seq::<Example>::empty());
        }
        if let Kind::Invalid { .. } = kind {
            let way_taken = node_seq(&case.nodes);
            proof {
                assert(way(way_taken@.skip(0)) =~= crate::data::recorded(case.nodes@));
            }
            rejected.add(&way_taken, 0);
        }
        c = tally(c, kind);
        tracker.track_example(&case.nodes);
        proof {
            lemma_remembers_one_more(remembered, tracker, before, example);
        }
    }
    c.keep_going = bugs.len() == 0 || (settings.report_multiple_bugs && !from_db);
    proof {
        assert(history.replayed@ + Seq::<Example>::empty() =~= history.replayed@);
        assert(history.made@.len() == 0 ==> history.made@ =~= Seq::<Example>::empty());
    }
    c = match generate(
        harness,
        settings,
        &mut bugs,
        &mut rejected,
        &mut tracker,
        c,
        &mut history,
        Ghost(replayed_state),
    ) {
        Ok(c) => c,
        Err(e) => {
            let run = Run { history, result: Err(e) };
            proof {
                assert(replayed_from(
                    |h: &mut H| *final(h),
                    run.history.fetched@,
                    run.history.replayed@,
                    settings.buffer_limit,
                    *old(harness),
                    replayed_state,
                ));
                if e is Raised {
                    assert(broke_off(
                        |h: &mut H| *final(h),
                        run,
                        *settings,
                        *old(harness),
                        *harness,
                        e->Raised_0,
                    ));
                }
                if e is TooSlow {
                    assert(went_on(|h: &mut H| *final(h), run, *settings, replayed_state, *harness));
                    assert(went(|h: &mut H| *final(h), run, *settings, *old(harness), *harness));
                }
            }
            return run;
        },
    };
    let ghost counted = c;
    proof {
        lemma_counts(history.made@);
    }
    if bugs.len() == 0 {
        let all_rejected = rejected.exhausted();
        proof {
            if all_rejected {
                assert(rejected.all_seen());
                assert(everything_rejected(history.made@));
            }
        }
        let result = match verdict_without_bugs(&c, all_rejected, settings.filter_suppressed) {
            Ok(()) => Ok(
                RunResult {
                    reports: Vec::new(),
                    minimal: Vec::new(),
                    report: ShrinkReport::new(),
                },
            ),
            Err(e) => Err(e),
        };
        let run = Run { history, result };
        proof {
            assert(!some_failed(history.replayed@));
            assert(!goes_further(counted, *settings));
            assert(ended(|h: &mut H| *final(h), run, *settings, *harness, *harness, counted));
            assert(made_along(
                |h: &mut H| *final(h),
                run.history.made@,
                *settings,
                replayed_state,
                *harness,
                counted,
            ));
            assert(went_on(|h: &mut H| *final(h), run, *settings, replayed_state, *harness));
            assert(replayed_from(
                |h: &mut H| *final(h),
                run.history.fetched@,
                run.history.replayed@,
                settings.buffer_limit,
                *old(harness),
                replayed_state,
            ));
            assert(went(|h: &mut H| *final(h), run, *settings, *old(harness), *harness));
        }
        return run;
    }
    let ghost found_bugs = bugs@;
    let ghost generated = *harness;
    let examples = Ghost(history.replayed@ + history.made@);
    proof {
        assert(failed_in(
            examples@,
            bugs@[0].failure.origin@,
            models(bugs@[0].choices@),
        ));
    }
    let result = if bugs.len() == 1 {
        report_single(harness, &mut trials, settings, bugs.remove(0), from_db, examples)
    } else {
        report_several(harness, &mut trials, settings, bugs, from_db, examples)
    };
    proof {
        if result is Ok && settings.report_multiple_bugs {
            let reports = result->Ok_0.reports@;
            if found_bugs.len() == 1 {
                assert forall|i: int| 0 <= i < found_bugs.len() implies reported(
                    reports,
                    (#[trigger] found_bugs[i]).failure.origin@,
                ) by {
                    assert(found_bugs[i] == found_bugs[0]);
                }
            }
            lemma_known_and_reported(history.replayed@, found_bugs, reports);
            lemma_known_and_reported(history.made@, found_bugs, reports);
        }
    }
    proof {
        if some_failed(history.made@) && one_kind(history.made@) && settings.max_shrinks > 0 {
            lemma_one_bug_of_a_kind(found_bugs, history.replayed@, history.made@);
            if !(result is Err && (result->Err_0 is Flaky || result->Err_0 is Raised)) {
                assert(failed_in(
                    history.made@,
                    found_bugs[0].failure.origin@,
                    models(found_bugs[0].choices@),
                ));
                assert(checked_once_more::<H>(history.made@, settings.buffer_limit));
            }
        }
    }
    let run = Run { history, result };
    proof {
        let reached = if some_failed(history.replayed@) {
            at_the_start()
        } else {
            counted
        };
        assert(made_along(
            |h: &mut H| *final(h),
            run.history.made@,
            *settings,
            replayed_state,
            generated,
            reached,
        ));
        if run.result is Err && run.result->Err_0 is Raised {
            assert(replayed_from(
                |h: &mut H| *final(h),
                run.history.fetched@,
                run.history.replayed@,
                settings.buffer_limit,
                *old(harness),
                replayed_state,
            ));
            assert(raised_reporting(
                |h: &mut H| *final(h),
                run,
                *settings,
                *old(harness),
                *harness,
                run.result->Err_0->Raised_0,
            ));
        }
        assert(ended(|h: &mut H| *final(h), run, *settings, generated, *harness, reached));
        assert(went_on(|h: &mut H| *final(h), run, *settings, replayed_state, *harness));
        assert(replayed_from(
            |h: &mut H| *final(h),
            run.history.fetched@,
            run.history.replayed@,
            settings.buffer_limit,
            *old(harness),
            replayed_state,
        ));
        assert(went(|h: &mut H| *final(h), run, *settings, *old(harness), *harness));
    }
    run
}

// ---- laws -------------------------------------------------------------------

/// An example that was not run because its choices were known was made before.
pub proof fn skipped_examples_were_made_before<H: Harness>(
    made: Seq<Example>,
    i: int,
    settings: Settings,
)
    requires
        made_in_order::<H>(made, settings),
        0 <= i < made.len(),
        made[i].outcome is Redundant,
    ensures
        some_made(made.take(i), made[i].choices),
{
    assert(made_at::<H>(made, i, settings));
}

/// The failures that a run reports are failures of runs of the choices that it reports with
/// them, however the run went.
pub proof fn reported_failures_belong_to_their_choices<H: Harness>(
    fut: spec_fn(&mut H) -> H,
    run: Run,
    settings: Settings,
    before: H,
    left: H,
    i: int,
)
    requires
        result_fits(fut, run, settings, before, left),
        run.result is Ok,
        0 <= i < run.result->Ok_0.reports@.len(),
    ensures
        belongs::<H>(
            run.result->Ok_0.reports@[i].failure,
            models(run.result->Ok_0.reports@[i].choices@),
            settings.buffer_limit,
        ),
{
    assert(report_holds::<H>(run.result->Ok_0.reports@[i], settings.buffer_limit));
}

/// The test depends on its choices alone: choices that failed when they were played back, or
/// when they were made in the same room, fail in the same way whenever they are played back.
pub open spec fn deterministic<H: Harness>(buffer_limit: Option<u64>) -> bool {
    &&& forall|choices: Seq<ChoiceModel>, f: Failure| #[trigger]
        leads_to::<H>(choices, buffer_limit, f) ==> always_fails::<H>(
            choices,
            buffer_limit,
            f.origin@,
        )
    &&& forall|tracker: Option<&Tracker>, case: Case, after: Case, f: Failure|
        case.max_length == crate::data::room(buffer_limit) && #[trigger] ran::<H>(
            tracker,
            case,
            after,
            Ok(Outcome::Interesting(f)),
        ) ==> always_fails::<H>(crate::data::recorded(after.nodes@), buffer_limit, f.origin@)
}

/// Whenever the choices are played back, they fail with the origin.
pub open spec fn always_fails<H: Harness>(
    choices: Seq<ChoiceModel>,
    buffer_limit: Option<u64>,
    origin: OriginModel,
) -> bool {
    forall|after: Case, outcome: Result<Outcome, Raised>| #[trigger]
        played_back::<H>(choices, buffer_limit, after, outcome) ==> outcome is Ok && failed_with(
            outcome->Ok_0,
            origin,
        )
}

/// Everything that fails does so with this origin.
pub open spec fn one_origin<H: Harness>(buffer_limit: Option<u64>, origin: OriginModel) -> bool {
    forall|f: Failure, choices: Seq<ChoiceModel>| #[trigger]
        belongs::<H>(f, choices, buffer_limit) ==> f.origin@ == origin
}

proof fn lemma_made_always_fails<H: Harness>(
    replayed: Seq<Example>,
    made: Seq<Example>,
    settings: Settings,
    choices: Seq<ChoiceModel>,
    origin: OriginModel,
)
    requires
        deterministic::<H>(settings.buffer_limit),
        made_in_order::<H>(made, settings),
        !some_failed(replayed),
        failed_in(replayed + made, origin, choices),
    ensures
        always_fails::<H>(choices, settings.buffer_limit, origin),
{
    let all = replayed + made;
    let i = choose|i: int|
        0 <= i < all.len() && (#[trigger] all[i]).outcome == OutcomeModel::Failed(origin)
            && all[i].choices == choices;
    if i < replayed.len() {
        assert(replayed[i].outcome is Failed);
    }
    let j = i - replayed.len();
    let e = made[j];
    assert(all[i] == e);
    assert(made_at::<H>(made, j, settings));
    let (case, tracker) = choose|case: Case, tracker: Option<&Tracker>|
        case.max_length == crate::data::room(settings.buffer_limit) && #[trigger] example_shown::<
            H,
        >(e, tracker, case);
    let (after, o) = choose|after: Case, o: Outcome|
        #[trigger] ran::<H>(tracker, case, after, Ok(o)) && e == example_of(o, after);
    assert(o is Interesting);
    assert(ran::<H>(tracker, case, after, Ok(Outcome::Interesting(o->Interesting_0))));
}

proof fn lemma_shrunk_always_fails<H: Harness>(
    replayed: Seq<Example>,
    made: Seq<Example>,
    settings: Settings,
    choices: Seq<ChoiceModel>,
    failure: Failure,
)
    requires
        deterministic::<H>(settings.buffer_limit),
        made_in_order::<H>(made, settings),
        !some_failed(replayed),
        was_shrunk::<H>(choices, failure, settings, replayed + made),
    ensures
        always_fails::<H>(choices, settings.buffer_limit, failure.origin@),
{
    let examples = replayed + made;
    let (s, now, then, start, first) = choose|
        s: Shrunk,
        now: Trials,
        then: Trials,
        start: Seq<ChoiceModel>,
        first: Failure,
    |
        {
            &&& #[trigger] shrunk_from::<H>(s, now, then, start, first, settings.max_shrinks)
            &&& belongs::<H>(first, start, settings.buffer_limit)
            &&& of_this_run::<H>(examples, start, first, settings.buffer_limit)
            &&& now.buffer_limit == settings.buffer_limit
            &&& models(s.choices@) == choices
            &&& s.failure == failure
        };
    if !leads_to::<H>(choices, settings.buffer_limit, failure) {
        assert(choices == start && failure == first);
        if failed_in(examples, first.origin@, start) {
            lemma_made_always_fails::<H>(replayed, made, settings, start, first.origin@);
        }
    }
}

proof fn lemma_run_in_turn<H: Harness>(
    fut: spec_fn(&mut H) -> H,
    before: H,
    left: H,
    tracker: Option<&Tracker>,
    case: Case,
    after: Case,
    outcome: Result<Outcome, Raised>,
)
    requires
        ran_from(fut, before, left, tracker, case, after, outcome),
    ensures
        ran::<H>(tracker, case, after, outcome),
{
    let (s, given, back, draws) = choose|
        s: &mut H,
        given: ConjectureData,
        back: ConjectureData,
        draws: Result<(), Raised>,
    |
        {
            &&& #[trigger] call_ensures(H::draw_arguments, (s, given), (back, draws))
            &&& *s == before
            &&& given.case() == case
            &&& match draws {
                Err(raised) => fut(s) == left && ended_by_draw(
                    back.case(),
                    raised,
                    after,
                    outcome,
                ),
                Ok(_) => if known_to(tracker, back.case()) {
                    fut(s) == left && ended_as_known(back.case(), after, outcome)
                } else {
                    called_from::<H>(fut, fut(s), left, back.case(), after, outcome)
                },
            }
        };
    if draws is Ok && !known_to(tracker, back.case()) {
        assert(called_from::<H>(fut, fut(s), left, back.case(), after, outcome));
        assert(was_called::<H>(back.case(), after, outcome));
    }
}

/// Setting up an example raised this.
pub open spec fn raised_setting_up<H: Harness>(e: Raised) -> bool {
    exists|h: &mut H| #[trigger] call_ensures(H::set_up, (h,), Err(e))
}

pub(crate) proof fn lemma_example_played_back<H: Harness>(
    fut: spec_fn(&mut H) -> H,
    before: H,
    left: H,
    case: Case,
    choices: Seq<ChoiceModel>,
    buffer_limit: Option<u64>,
    after: Case,
    outcome: Result<Outcome, Raised>,
)
    requires
        example_run(fut, before, left, None, case, after, outcome),
        case.only_replays(choices, buffer_limit),
    ensures
        played_back::<H>(choices, buffer_limit, after, outcome) || (outcome is Err
            && raised_setting_up::<H>(outcome->Err_0)),
{
    let (begun, a) = choose|begun: Result<(), Raised>, a: H| #[trigger]
        set_up_gave(fut, before, a, begun) && match begun {
            Err(e) => left == a && outcome == Err::<Outcome, Raised>(e),
            Ok(_) => exists|b: H| #[trigger]
                ran_from(fut, a, b, None, case, after, outcome) && torn_down(fut, b, left),
        };
    match begun {
        Ok(_) => {
            let b = choose|b: H| #[trigger]
                ran_from(fut, a, b, None, case, after, outcome) && torn_down(fut, b, left);
            lemma_run_in_turn::<H>(fut, a, b, None, case, after, outcome);
        },
        Err(e) => {
            assert(begun == Err::<(), Raised>(e));
        },
    }
}

/// A test that depends on its choices alone fails again from what was saved: where a run that
/// found a failure saved its choices, and nothing else is fetched by a later run, that one
/// plays them back once, makes no examples, shrinks nothing, and reports one failure, of the
/// same origin. Only where the example cannot be set up does it end otherwise.
pub proof fn saved_failures_come_back<H: Harness>(
    fut: spec_fn(&mut H) -> H,
    first: Run,
    settings: Settings,
    before: H,
    left: H,
    i: int,
    second: Run,
    later_settings: Settings,
    later: H,
    end: H,
)
    requires
        result_fits(fut, first, settings, before, left),
        result_fits(fut, second, later_settings, later, end),
        later_settings.buffer_limit == settings.buffer_limit,
        deterministic::<H>(settings.buffer_limit),
        first.result is Ok,
        !some_failed(first.history.replayed@),
        0 <= i < first.result->Ok_0.reports@.len(),
        all_encodable(models(first.result->Ok_0.reports@[i].choices@)),
        second.history.fetched@.len() == 1,
        second.history.fetched@[0]@ == encoded_all(
            models(first.result->Ok_0.reports@[i].choices@),
        ),
    ensures
        saved::<H>(models(first.result->Ok_0.reports@[i].choices@)),
        match second.result {
            Ok(r) => {
                let origin = first.result->Ok_0.reports@[i].failure.origin@;
                &&& second.history.replayed@.len() == 1
                &&& second.history.replayed@[0].outcome == OutcomeModel::Failed(origin)
                &&& second.history.made@.len() == 0
                &&& r.report.passes@.len() == 0
                &&& r.reports@.len() == 1
                &&& r.reports@[0].failure.origin@ == origin
            },
            Err(e) => e is Raised && raised_setting_up::<H>(e->Raised_0),
        },
{
    let rep = first.result->Ok_0.reports@[i];
    let choices = models(rep.choices@);
    let limit = settings.buffer_limit;
    let origin = rep.failure.origin@;
    assert(saved::<H>(choices));
    assert(was_shrunk::<H>(
        choices,
        rep.failure,
        settings,
        first.history.replayed@ + first.history.made@,
    ));
    lemma_shrunk_always_fails::<H>(
        first.history.replayed@,
        first.history.made@,
        settings,
        choices,
        rep.failure,
    );
    choices_survive_their_bytes(choices);
    let fetched = second.history.fetched@;
    let replayed = second.history.replayed@;
    if exists|b: H| #[trigger] replayed_from(fut, fetched, replayed, limit, later, b) {
        let b = choose|b: H| #[trigger] replayed_from(fut, fetched, replayed, limit, later, b);
        lemma_one_played_back::<H>(fut, fetched, replayed, limit, later, b, choices, origin);
        assert(replayed[0].outcome is Failed);
        assert(some_failed(replayed));
        if second.result is Ok {
            let all = replayed + second.history.made@;
            assert(all =~= replayed);
            let r = second.result->Ok_0;
            assert(failed_in(all, r.reports@[0].failure.origin@, models(r.reports@[0].choices@)));
        }
    }
    if second.result is Err && second.result->Err_0 is Raised {
        let e = second.result->Err_0->Raised_0;
        if broke_off_replaying(fut, fetched, replayed, limit, later, end, e) {
            let (a, b, k) = choose|a: H, b: H, k: int|
                {
                    &&& #[trigger] fetched_from(fut, later, a, fetched)
                    &&& #[trigger] replayed_along(fut, fetched.take(k), replayed, limit, a, b)
                    &&& 0 <= k < fetched.len()
                    &&& raised_replaying(fut, fetched[k], limit, b, end, e)
                };
            let (case, after) = choose|case: Case, after: Case|
                {
                    &&& #[trigger] example_run(fut, b, end, None, case, after, Err(e))
                    &&& decoded_all(fetched[k]@) is Ok
                    &&& case.only_replays(decoded_all(fetched[k]@)->Ok_0, limit)
                };
            lemma_example_played_back::<H>(fut, b, end, case, choices, limit, after, Err(e));
        }
    }
}

proof fn lemma_one_played_back<H: Harness>(
    fut: spec_fn(&mut H) -> H,
    fetched: Seq<Vec<u8>>,
    replayed: Seq<Example>,
    buffer_limit: Option<u64>,
    before: H,
    left: H,
    choices: Seq<ChoiceModel>,
    origin: OriginModel,
)
    requires
        replayed_from(fut, fetched, replayed, buffer_limit, before, left),
        fetched.len() == 1,
        decoded_all(fetched[0]@) == Ok::<Seq<ChoiceModel>, DecodeError>(choices),
        always_fails::<H>(choices, buffer_limit, origin),
    ensures
        replayed.len() == 1,
        replayed[0].outcome == OutcomeModel::Failed(origin),
{
    let a = choose|a: H| #[trigger]
        fetched_from(fut, before, a, fetched) && replayed_along(
            fut,
            fetched,
            replayed,
            buffer_limit,
            a,
            left,
        );
    let e = replayed.last();
    let b = choose|b: H| #[trigger]
        replay_next(fut, fetched.last(), choices, e, buffer_limit, b, left) && replayed_along(
            fut,
            fetched.drop_last(),
            replayed.drop_last(),
            buffer_limit,
            a,
            b,
        );
    assert(replayed_along(
        fut,
        fetched.drop_last(),
        replayed.drop_last(),
        buffer_limit,
        a,
        b,
    ));
    let (case, d) = choose|case: Case, d: H|
        {
            &&& case.only_replays(choices, buffer_limit)
            &&& #[trigger] shown_from(fut, b, d, e, None, case)
        };
    let (after, o) = choose|after: Case, o: Outcome|
        #[trigger] example_run(fut, b, d, None, case, after, Ok(o)) && e == example_of(o, after);
    lemma_example_played_back::<H>(fut, b, d, case, choices, buffer_limit, after, Ok(o));
}

/// A test that depends on its choices alone and has one bug is reported with what belongs
/// together, however much is shrunk: there is one report, its choices are the minimal ones,
/// its failure is that of a run of them, and playing them back always fails with its origin.
pub proof fn one_bug_is_reported_with_its_choices<H: Harness>(
    fut: spec_fn(&mut H) -> H,
    run: Run,
    settings: Settings,
    before: H,
    left: H,
    origin: OriginModel,
)
    requires
        result_fits(fut, run, settings, before, left),
        run.history.fetched@.len() == 0,
        run.result is Ok,
        run.result->Ok_0.reports@.len() > 0,
        one_origin::<H>(settings.buffer_limit, origin),
        deterministic::<H>(settings.buffer_limit),
    ensures
        run.result->Ok_0.reports@.len() == 1,
        models(run.result->Ok_0.minimal@) == models(run.result->Ok_0.reports@[0].choices@),
        belongs::<H>(
            run.result->Ok_0.reports@[0].failure,
            models(run.result->Ok_0.minimal@),
            settings.buffer_limit,
        ),
        run.result->Ok_0.reports@[0].failure.origin@ == origin,
        always_fails::<H>(models(run.result->Ok_0.minimal@), settings.buffer_limit, origin),
{
    let r = run.result->Ok_0;
    let limit = settings.buffer_limit;
    let replayed = run.history.replayed@;
    let b = choose|b: H| #[trigger]
        replayed_from(fut, run.history.fetched@, replayed, limit, before, b) && went_on(
            fut,
            run,
            settings,
            b,
            left,
        );
    assert(replayed_from(fut, run.history.fetched@, replayed, limit, before, b));
    assert(replayed.len() == 0);
    assert(report_holds::<H>(r.reports@[0], limit));
    if r.reports@.len() > 1 {
        assert(report_holds::<H>(r.reports@[1], limit));
        assert(r.reports@[0].failure.origin@ != r.reports@[1].failure.origin@);
    }
    let f = choose|f: Failure|
        {
            &&& #[trigger] belongs::<H>(f, models(r.minimal@), limit)
            &&& failed_in(replayed + run.history.made@, f.origin@, models(r.minimal@))
                || was_shrunk::<H>(
                models(r.minimal@),
                f,
                settings,
                replayed + run.history.made@,
            )
            &&& if models(r.minimal@) == models(r.reports@[0].choices@) {
                f == r.reports@[0].failure
            } else {
                &&& !settings.report_multiple_bugs
                &&& sequence_less(models(r.reports@[0].choices@), models(r.minimal@)) == Some(true)
                &&& f.origin@ != r.reports@[0].failure.origin@
            }
        };
    if failed_in(replayed + run.history.made@, f.origin@, models(r.minimal@)) {
        lemma_made_always_fails::<H>(
            replayed,
            run.history.made@,
            settings,
            models(r.minimal@),
            f.origin@,
        );
    } else {
        lemma_shrunk_always_fails::<H>(
            replayed,
            run.history.made@,
            settings,
            models(r.minimal@),
            f,
        );
    }
}

} // verus!
