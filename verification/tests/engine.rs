use hypothesis_fast::choice::{choices_equal, Choice};
use hypothesis_fast::codec::encode_choices;
use hypothesis_fast::data::ConjectureData;
use hypothesis_fast::engine::{
    add_bug, confirmed, count_example, run_native, shrink_confirmed, tally, verdict_without_bugs,
    Counters, Harness, Kind, RunError, Settings,
};
use hypothesis_fast::floats::FloatBounds;
use hypothesis_fast::integer::Int;
use hypothesis_fast::provider::Numerics;
use hypothesis_fast::runner::{
    after_call, after_draw, note_draw, origin_of, record_created_call, reproduce_native,
    reproduced, Failure, Origin, Outcome, Raised, Subject,
};
use hypothesis_fast::shrinker::{
    delete_pass, minimize_duplicated_choices, minimize_individual_choices, minimize_pairs_to_zero,
    shrink, trial_fails, Bug, Halt, Pass, ShrinkReport, Trials,
};
use rand::rngs::StdRng;

/// Draws integers between zero and a limit until one is zero, and fails where their
/// sum is large.
struct Sums {
    drawn: Vec<i64>,
    threshold: i64,
    calls: u64,
    saved: Vec<Vec<u8>>,
    slow: bool,
    reject: bool,
}

fn sums(threshold: i64) -> Sums {
    Sums { drawn: vec![], threshold, calls: 0, saved: vec![], slow: false, reject: false }
}

fn num(v: i64) -> Int {
    Int::of(v)
}

impl Numerics for Sums {
    fn p_continue(&mut self, _min_size: u64, _max_size: u64) -> u64 {
        0.5f64.to_bits()
    }

    fn propose_integer(&mut self, _rng: &mut StdRng, _min: &Int, _max: &Int) -> Option<Int> {
        None
    }

    fn pick_weight(&mut self, _rng: &mut StdRng, _weights: &Vec<(Int, u64)>) -> Option<usize> {
        None
    }

    fn plus_one(&mut self, f: u64) -> u64 {
        (f64::from_bits(f) + 1.0).to_bits()
    }

    fn minus_one(&mut self, f: u64) -> u64 {
        (f64::from_bits(f) - 1.0).to_bits()
    }

    fn mix(&mut self, _f: u64, bounds: &FloatBounds) -> u64 {
        bounds.min_value
    }
}

impl Subject for Sums {
    fn draw_arguments(&mut self, data: ConjectureData) -> (ConjectureData, Result<(), Raised>) {
        self.drawn.clear();
        let mut data = data;
        loop {
            let (next, r) =
                data.draw_integer(self, Some(num(0)), Some(num(50)), &vec![], &vec![], num(0));
            data = next;
            match r {
                Ok(v) => {
                    let v = v.to_i64().unwrap();
                    if v == 0 {
                        return (data, Ok(()));
                    }
                    self.drawn.push(v);
                }
                Err(s) => {
                    return (data, Err(Raised::StopTest { testcounter: Some(s.testcounter) }));
                }
            }
        }
    }

    fn call_test(&mut self, data: ConjectureData) -> (ConjectureData, Result<(), Raised>) {
        self.calls += 1;
        if self.reject {
            return (data, Err(Raised::UnsatisfiedAssumption));
        }
        let sum: i64 = self.drawn.iter().sum();
        if sum >= self.threshold {
            return (data, Err(Raised::Error(failure(3, sum as u64))));
        }
        (data, Ok(()))
    }
}

impl Harness for Sums {
    fn set_up(&mut self) -> Result<(), Raised> {
        Ok(())
    }

    fn tear_down(&mut self) {}

    fn too_slow(&mut self) -> bool {
        self.slow
    }

    fn breathe(&mut self) {}

    fn fetch(&mut self) -> Vec<Vec<u8>> {
        self.saved.clone()
    }

    fn save(&mut self, value: &Vec<u8>) {
        self.saved.push(value.clone());
    }

    fn delete(&mut self, value: &Vec<u8>) {
        self.saved.retain(|v| v != value);
    }
}

fn origin(line: i64) -> Origin {
    Origin { kind: "AssertionError".to_string(), line }
}

fn failure(line: i64, id: u64) -> Failure {
    Failure { origin: origin(line), id }
}

fn settings() -> Settings {
    Settings {
        max_examples: 100,
        seed: 1,
        report_multiple_bugs: true,
        filter_suppressed: false,
        too_slow_suppressed: false,
        invalid_cap: 50,
        max_shrinks: 500,
        buffer_limit: None,
    }
}

fn integers(v: &[i64]) -> Vec<Choice> {
    v.iter().map(|n| Choice::Integer(num(*n))).collect()
}

#[test]
fn stopped_draws_are_rejected() {
    let r = after_draw(Raised::StopTest { testcounter: None });
    assert!(matches!(r, Ok(Outcome::Invalid)));
    assert!(matches!(after_draw(Raised::UnsatisfiedAssumption), Ok(Outcome::Invalid)));
    assert!(matches!(after_draw(Raised::Control { id: 4 }), Err(Raised::Control { id: 4 })));
    assert!(matches!(after_draw(Raised::Error(failure(1, 1))), Err(Raised::Error(_))));
}

#[test]
fn calls_are_sorted_out() {
    assert!(matches!(after_call(Ok(()), 0, true), Ok(Outcome::Valid)));
    let stop = |n| Err(Raised::StopTest { testcounter: n });
    assert!(matches!(after_call(stop(Some(3)), 3, true), Ok(Outcome::Valid)));
    assert!(matches!(after_call(stop(None), 3, false), Ok(Outcome::Invalid)));
    assert!(matches!(after_call(stop(Some(4)), 3, true), Err(Raised::StopTest { .. })));
    let r = after_call(Err(Raised::Error(failure(9, 2))), 0, true);
    assert!(matches!(r, Ok(Outcome::Interesting(_))));
    let r = after_call(Err(Raised::UnsatisfiedAssumption), 0, true);
    assert!(matches!(r, Ok(Outcome::Invalid)));
    let r = after_call(Err(Raised::Control { id: 1 }), 0, true);
    assert!(matches!(r, Err(Raised::Control { id: 1 })));
}

#[test]
fn origins_are_the_deepest_lines() {
    let kind = "ValueError".to_string();
    assert_eq!(origin_of(&kind, &vec![Some(3), Some(8), None]).line, 8);
    assert_eq!(origin_of(&kind, &vec![]).line, -1);
    assert_eq!(origin_of(&kind, &vec![Some(1)]).kind, "ValueError");
    assert!(origin(4).same(&origin(4)));
    assert!(!origin(4).same(&origin(5)));
}

#[test]
fn failures_are_reproduced() {
    let mut s = sums(60);
    let (case, r) = reproduce_native(&mut s, &integers(&[40, 30, 0]), 1);
    assert_eq!(r.unwrap().unwrap().id, 70);
    assert!(case.frozen);
    let (_, r) = reproduce_native(&mut s, &integers(&[4, 0]), 1);
    assert!(r.unwrap().is_none());
    let (_, r) = reproduce_native(&mut s, &integers(&[4]), 1);
    assert!(r.unwrap().is_none());
    assert!(matches!(reproduced(Ok(Outcome::Redundant)), Ok(None)));
}

#[test]
fn draws_are_noted() {
    assert_eq!(note_draw(1, &None, "5"), "Draw 1: 5");
    assert_eq!(note_draw(12, &Some("x".to_string()), "[]"), "Draw 12 (x): []");
    assert!(record_created_call(Some(true)));
    assert!(!record_created_call(Some(false)));
    assert!(!record_created_call(None));
}

#[test]
fn trials_are_tried() {
    let mut s = sums(60);
    let mut t = Trials::new(true, None);
    assert_eq!(trial_fails(&mut s, &mut t, &integers(&[40, 30, 0]), &origin(3)).ok(), Some(true));
    assert_eq!(trial_fails(&mut s, &mut t, &integers(&[40, 0]), &origin(3)).ok(), Some(false));
    assert_eq!(t.calls, 2);
    let other = trial_fails(&mut s, &mut t, &integers(&[40, 30, 0]), &origin(99)).ok();
    assert_eq!(other, Some(false));
    assert_eq!(t.slipped.len(), 1);
}

#[test]
fn needless_choices_are_deleted() {
    let mut s = sums(60);
    let mut t = Trials::new(false, None);
    let (c, shrank) =
        delete_pass(&mut s, &mut t, integers(&[5, 50, 7, 50, 9, 0]), &origin(3)).ok().unwrap();
    assert!(shrank);
    assert!(c.len() < 6);
    let (again, shrank) = delete_pass(&mut s, &mut t, c.clone(), &origin(3)).ok().unwrap();
    assert!(choices_equal(&again, &c) || shrank);
}

#[test]
fn failures_are_shrunk_to_the_smallest() {
    let mut s = sums(60);
    let mut t = Trials::new(true, None);
    let start = integers(&[31, 44, 27, 3, 0]);
    let r = shrink(&mut s, &mut t, start, failure(3, 105), 500).ok().unwrap();
    assert_eq!(r.failure.id, 60);
    assert!(r.settled);
    assert_eq!(r.choices.len(), 3);
    assert!(r.report.total_calls() > 0);
}

#[test]
fn shrinking_stops_at_its_cap() {
    let mut s = sums(60);
    let mut t = Trials::new(true, None);
    let start = integers(&[31, 44, 27, 3, 0]);
    let r = shrink(&mut s, &mut t, start.clone(), failure(3, 105), 0).ok().unwrap();
    assert!(r.report.capped);
    assert!(choices_equal(&r.choices, &start));
    let r = shrink(&mut s, &mut t, start, failure(3, 105), 1).ok().unwrap();
    assert_eq!(r.report.total_shrinks, 1);
}

#[test]
fn passes_are_accounted_for() {
    let mut r = ShrinkReport::new();
    r.record_pass(Pass::AdaptiveExampleDeletion, 4, true);
    r.record_pass(Pass::AdaptiveExampleDeletion, 3, false);
    r.record_pass(Pass::RedistributeNumericPairs, 2, true);
    assert_eq!(r.passes.len(), 2);
    assert_eq!(r.passes[0].calls, 7);
    assert_eq!(r.passes[0].shrinks, 1);
    assert_eq!(r.total_shrinks, 2);
    assert_eq!(r.total_calls(), 9);
    assert_eq!(Pass::MinimizeIndividualChoices.name(), "minimize_individual_choices");
    assert_eq!(Pass::MinimizeDuplicatedChoices.name(), "minimize_duplicated_choices");
}

#[test]
fn runs_find_and_shrink_a_bug() {
    let mut s = sums(60);
    let r = run_native(&mut s, &settings()).result.unwrap();
    assert_eq!(r.reports.len(), 1);
    assert_eq!(r.reports[0].failure.id, 60);
    assert!(!r.reports[0].flaky);
    assert!(choices_equal(&r.minimal, &r.reports[0].choices));
    assert_eq!(s.saved, vec![encode_choices(&r.minimal)]);
}

#[test]
fn runs_replay_what_was_saved() {
    let mut s = sums(60);
    s.saved.push(encode_choices(&integers(&[50, 10, 0])));
    let mut few = settings();
    few.max_examples = 1;
    let r = run_native(&mut s, &few).result.unwrap();
    assert_eq!(r.reports[0].failure.id, 60);
}

#[test]
fn runs_pass_without_a_bug() {
    let mut s = sums(1_000_000);
    let r = run_native(&mut s, &settings()).result.unwrap();
    assert!(r.reports.is_empty());
    assert!(r.minimal.is_empty());
    assert!(s.calls >= 100);
}

#[test]
fn runs_complain_about_filters() {
    let mut s = sums(1_000_000);
    s.reject = true;
    let r = run_native(&mut s, &settings()).result;
    let e = r.err().unwrap();
    assert!(matches!(e, RunError::FilterTooMuch));
    assert!(e.message("test_x").contains("filter_too_much"));
    let mut lenient = settings();
    lenient.filter_suppressed = true;
    let r = run_native(&mut s, &lenient).result;
    assert!(matches!(r, Err(RunError::Rejected { .. })));
}

#[test]
fn runs_complain_about_slowness() {
    let mut s = sums(1_000_000);
    s.slow = true;
    assert!(matches!(run_native(&mut s, &settings()).result, Err(RunError::TooSlow { .. })));
}

#[test]
fn bugs_of_one_origin_are_one_bug() {
    let mut bugs = vec![];
    assert!(add_bug(&mut bugs, Bug { failure: failure(1, 1), choices: vec![] }));
    assert!(!add_bug(&mut bugs, Bug { failure: failure(1, 2), choices: vec![] }));
    assert!(add_bug(&mut bugs, Bug { failure: failure(2, 3), choices: vec![] }));
    assert_eq!(bugs.len(), 2);
}

#[test]
fn examples_are_counted() {
    let start = Counters {
        valid: 0,
        invalid: 0,
        overrun: 0,
        iters: 0,
        call_count: 0,
        first_bug_at: None,
        last_bug_at: 0,
        keep_going: true,
    };
    let c = tally(start, Kind::Valid);
    assert_eq!(c.valid, 1);
    let c = count_example(start, Kind::Invalid { overran: true }, &settings(), false, false);
    assert_eq!((c.invalid, c.overrun, c.iters), (1, 1, 1));
    assert!(c.keep_going);
    let c = count_example(start, Kind::Valid, &settings(), true, false);
    assert!(!c.keep_going);
    let full = Counters { invalid: 5, overrun: 5, ..start };
    let r = verdict_without_bugs(&full, false, false);
    assert!(matches!(r, Err(RunError::TooLarge { count: 5 })));
    let some = Counters { invalid: 5, overrun: 1, ..start };
    let r = verdict_without_bugs(&some, true, false);
    assert!(matches!(r, Err(RunError::Unsatisfiable)));
}

/// Is interrupted in every call of the test.
struct Interrupted(Sums);

impl Numerics for Interrupted {
    fn p_continue(&mut self, min_size: u64, max_size: u64) -> u64 {
        self.0.p_continue(min_size, max_size)
    }

    fn propose_integer(&mut self, rng: &mut StdRng, min: &Int, max: &Int) -> Option<Int> {
        self.0.propose_integer(rng, min, max)
    }

    fn pick_weight(&mut self, rng: &mut StdRng, weights: &Vec<(Int, u64)>) -> Option<usize> {
        self.0.pick_weight(rng, weights)
    }

    fn plus_one(&mut self, f: u64) -> u64 {
        self.0.plus_one(f)
    }

    fn minus_one(&mut self, f: u64) -> u64 {
        self.0.minus_one(f)
    }

    fn mix(&mut self, f: u64, bounds: &FloatBounds) -> u64 {
        self.0.mix(f, bounds)
    }
}

impl Subject for Interrupted {
    fn draw_arguments(&mut self, data: ConjectureData) -> (ConjectureData, Result<(), Raised>) {
        self.0.draw_arguments(data)
    }

    fn call_test(&mut self, data: ConjectureData) -> (ConjectureData, Result<(), Raised>) {
        (data, Err(Raised::Control { id: 17 }))
    }
}

#[test]
fn interrupted_trials_are_counted() {
    let mut s = Interrupted(sums(60));
    let mut trials = Trials::new(true, None);
    let r = trial_fails(&mut s, &mut trials, &integers(&[3, 0]), &origin(3));
    assert!(matches!(r, Err(Halt::Raised(Raised::Control { id: 17 }))));
    assert_eq!(trials.calls, 1);
    assert!(trials.slipped.is_empty());

    let (case, _) = reproduce_native(&mut sums(60), &integers(&[40, 30, 0]), 1);
    let mut trials = Trials::new(true, None);
    let canonical = case.choices();
    let r =
        minimize_individual_choices(&mut s, &mut trials, &canonical, &case.nodes, &origin(3));
    assert!(matches!(r, Err(Halt::Raised(Raised::Control { id: 17 }))));
    assert_eq!(trials.calls, 1);
}

#[test]
fn nothing_to_lower_is_nothing_to_try() {
    let mut s = Interrupted(sums(60));
    let (case, _) = reproduce_native(&mut sums(60), &integers(&[0]), 1);
    let mut trials = Trials::new(true, None);
    let canonical = case.choices();
    let r =
        minimize_individual_choices(&mut s, &mut trials, &canonical, &case.nodes, &origin(3));
    assert!(matches!(r, Ok(None)));
    assert_eq!(trials.calls, 0);
}

#[test]
fn shrunk_examples_are_run_again() {
    let bug = || Bug { failure: failure(3, 70), choices: integers(&[40, 30, 0]) };
    let mut trials = Trials::new(true, None);
    let r = shrink_confirmed(&mut sums(60), &mut trials, bug(), 0);
    assert!(matches!(r, Ok((_, false))));
    let mut trials = Trials::new(true, None);
    let r = shrink_confirmed(&mut sums(1000), &mut trials, bug(), 0);
    assert!(matches!(r, Ok((_, true))));
    let mut trials = Trials::new(true, None);
    let r = shrink_confirmed(&mut Interrupted(sums(60)), &mut trials, bug(), 0);
    assert!(matches!(r, Err(Halt::Raised(Raised::Control { id: 17 }))));
    assert_eq!(trials.calls, 0);
}

#[test]
fn runs_are_confirmed_by_their_origin() {
    let run = |line| Ok(Outcome::Interesting(failure(line, 1)));
    assert!(matches!(confirmed(run(3), &origin(3)), Ok(true)));
    assert!(matches!(confirmed(run(4), &origin(3)), Ok(false)));
    assert!(matches!(confirmed(Ok(Outcome::Valid), &origin(3)), Ok(false)));
    let r = confirmed(Err(Raised::Control { id: 2 }), &origin(3));
    assert!(matches!(r, Err(Raised::Control { id: 2 })));
}

#[test]
fn shrunk_failures_belong_to_their_choices() {
    let start = integers(&[31, 44, 27, 3, 0]);
    for cap in 1..12 {
        let mut t = Trials::new(true, None);
        let r = shrink(&mut sums(60), &mut t, start.clone(), failure(3, 105), cap).ok().unwrap();
        let (_, found) = reproduce_native(&mut sums(60), &r.choices, 1);
        assert_eq!(found.unwrap().unwrap().id, r.failure.id);
        assert_eq!(r.failure.origin.line, 3);
        assert!(r.choices.len() <= start.len());
        assert!(!r.lost);
    }
}

/// Fails always, with the line that is given.
struct Elsewhere(Sums, i64);

impl Numerics for Elsewhere {
    fn p_continue(&mut self, min_size: u64, max_size: u64) -> u64 {
        self.0.p_continue(min_size, max_size)
    }

    fn propose_integer(&mut self, rng: &mut StdRng, min: &Int, max: &Int) -> Option<Int> {
        self.0.propose_integer(rng, min, max)
    }

    fn pick_weight(&mut self, rng: &mut StdRng, weights: &Vec<(Int, u64)>) -> Option<usize> {
        self.0.pick_weight(rng, weights)
    }

    fn plus_one(&mut self, f: u64) -> u64 {
        self.0.plus_one(f)
    }

    fn minus_one(&mut self, f: u64) -> u64 {
        self.0.minus_one(f)
    }

    fn mix(&mut self, f: u64, bounds: &FloatBounds) -> u64 {
        self.0.mix(f, bounds)
    }
}

impl Subject for Elsewhere {
    fn draw_arguments(&mut self, data: ConjectureData) -> (ConjectureData, Result<(), Raised>) {
        self.0.draw_arguments(data)
    }

    fn call_test(&mut self, data: ConjectureData) -> (ConjectureData, Result<(), Raised>) {
        self.0.calls += 1;
        (data, Err(Raised::Error(failure(self.1, 1))))
    }
}

#[test]
fn shrinking_does_not_slip_to_another_bug() {
    let start = integers(&[31, 44, 0]);
    let mut s = Elsewhere(sums(60), 4);
    let mut t = Trials::new(true, None);
    let r = shrink(&mut s, &mut t, start.clone(), failure(3, 75), 5).ok().unwrap();
    assert!(r.lost && !r.settled);
    assert!(choices_equal(&r.choices, &start));
    assert_eq!(r.failure.origin.line, 3);
    assert_eq!(s.0.calls, 1);
}

#[test]
fn trials_tell_how_a_run_came_out() {
    let mut t = Trials::new(true, None);
    let mut s = sums(60);
    assert_eq!(trial_fails(&mut s, &mut t, &integers(&[40, 30, 0]), &origin(3)).ok(), Some(true));
    assert_eq!(trial_fails(&mut s, &mut t, &integers(&[40, 10, 0]), &origin(3)).ok(), Some(false));
    assert_eq!(trial_fails(&mut s, &mut t, &integers(&[40, 30, 0]), &origin(9)).ok(), Some(false));
    assert_eq!(s.calls, 3);
    assert_eq!(t.slipped.len(), 1);
    assert_eq!(t.slipped[0].failure.origin.line, 3);
}

#[test]
fn the_simplest_example_comes_first() {
    let mut s = sums(0);
    let r = run_native(&mut s, &settings()).result.unwrap();
    assert_eq!(r.reports[0].failure.id, 0);
    assert!(choices_equal(&r.reports[0].choices, &integers(&[0])));
}

/// Draws one truth value and notes it when it is called.
struct Flips {
    drawn: bool,
    called: Vec<bool>,
    numbers: Sums,
}

impl Numerics for Flips {
    fn p_continue(&mut self, min_size: u64, max_size: u64) -> u64 {
        self.numbers.p_continue(min_size, max_size)
    }

    fn propose_integer(&mut self, rng: &mut StdRng, min: &Int, max: &Int) -> Option<Int> {
        self.numbers.propose_integer(rng, min, max)
    }

    fn pick_weight(&mut self, rng: &mut StdRng, weights: &Vec<(Int, u64)>) -> Option<usize> {
        self.numbers.pick_weight(rng, weights)
    }

    fn plus_one(&mut self, f: u64) -> u64 {
        self.numbers.plus_one(f)
    }

    fn minus_one(&mut self, f: u64) -> u64 {
        self.numbers.minus_one(f)
    }

    fn mix(&mut self, f: u64, bounds: &FloatBounds) -> u64 {
        self.numbers.mix(f, bounds)
    }
}

impl Subject for Flips {
    fn draw_arguments(&mut self, data: ConjectureData) -> (ConjectureData, Result<(), Raised>) {
        let (data, r) = data.draw_boolean(self, 0.5f64.to_bits(), None);
        match r {
            Ok(b) => {
                self.drawn = b;
                (data, Ok(()))
            }
            Err(s) => (data, Err(Raised::StopTest { testcounter: Some(s.testcounter) })),
        }
    }

    fn call_test(&mut self, data: ConjectureData) -> (ConjectureData, Result<(), Raised>) {
        self.called.push(self.drawn);
        (data, Ok(()))
    }
}

impl Harness for Flips {
    fn set_up(&mut self) -> Result<(), Raised> {
        Ok(())
    }

    fn tear_down(&mut self) {}

    fn too_slow(&mut self) -> bool {
        false
    }

    fn breathe(&mut self) {}

    fn fetch(&mut self) -> Vec<Vec<u8>> {
        vec![]
    }

    fn save(&mut self, _value: &Vec<u8>) {}

    fn delete(&mut self, _value: &Vec<u8>) {}
}

#[test]
fn finite_spaces_are_run_through_once() {
    let mut s = Flips { drawn: false, called: vec![], numbers: sums(1) };
    let r = run_native(&mut s, &settings()).result.unwrap();
    assert!(r.reports.is_empty());
    assert_eq!(s.called, vec![false, true]);
}

#[test]
fn saved_failures_are_called_once() {
    let mut s = sums(60);
    s.saved.push(encode_choices(&integers(&[50, 10, 0])));
    s.saved.push(encode_choices(&integers(&[1, 0])));
    s.saved.push(vec![255, 255]);
    let r = run_native(&mut s, &settings()).result.unwrap();
    assert_eq!(s.calls, 2);
    assert_eq!(r.reports.len(), 1);
    assert!(r.report.passes.is_empty());
    assert!(s.saved.iter().all(|b| *b == encode_choices(&integers(&[50, 10, 0]))));
}

#[test]
fn what_one_run_saves_fails_in_the_next() {
    let mut s = sums(60);
    let found = run_native(&mut s, &settings()).result.unwrap();
    assert_eq!(found.reports.len(), 1);
    s.calls = 0;
    let again = run_native(&mut s, &settings()).result.unwrap();
    assert_eq!(s.calls, 1);
    assert_eq!(again.reports.len(), 1);
    assert!(again.reports[0].failure.origin.same(&found.reports[0].failure.origin));
    assert!(choices_equal(&again.minimal, &found.minimal));
    assert!(again.report.passes.is_empty());
}

#[test]
fn one_bug_comes_with_its_choices_however_much_is_shrunk() {
    for max_shrinks in [0, 1, 2, 5, 500] {
        for report_multiple_bugs in [false, true] {
            let mut s = sums(60);
            let wanted = Settings { max_shrinks, report_multiple_bugs, ..settings() };
            let r = run_native(&mut s, &wanted).result.unwrap();
            assert_eq!(r.reports.len(), 1);
            assert!(choices_equal(&r.minimal, &r.reports[0].choices));
            let sum: i64 = r
                .minimal
                .iter()
                .map(|c| match c {
                    Choice::Integer(n) => n.to_i64().unwrap(),
                    _ => panic!("only integers are drawn"),
                })
                .sum();
            assert!(sum >= 60);
            assert_eq!(r.reports[0].failure.id, sum as u64);
        }
    }
}

/// Draws a truth value, counts what is done with it, and fails on a true one if it is told to.
struct Counting {
    flips: Flips,
    begun: u64,
    ended: u64,
    fails: bool,
}

fn counting(fails: bool) -> Counting {
    let flips = Flips { drawn: false, called: vec![], numbers: sums(1) };
    Counting { flips, begun: 0, ended: 0, fails }
}

impl Numerics for Counting {
    fn p_continue(&mut self, min_size: u64, max_size: u64) -> u64 {
        self.flips.p_continue(min_size, max_size)
    }

    fn propose_integer(&mut self, rng: &mut StdRng, min: &Int, max: &Int) -> Option<Int> {
        self.flips.propose_integer(rng, min, max)
    }

    fn pick_weight(&mut self, rng: &mut StdRng, weights: &Vec<(Int, u64)>) -> Option<usize> {
        self.flips.pick_weight(rng, weights)
    }

    fn plus_one(&mut self, f: u64) -> u64 {
        self.flips.plus_one(f)
    }

    fn minus_one(&mut self, f: u64) -> u64 {
        self.flips.minus_one(f)
    }

    fn mix(&mut self, f: u64, bounds: &FloatBounds) -> u64 {
        self.flips.mix(f, bounds)
    }
}

impl Subject for Counting {
    fn draw_arguments(&mut self, data: ConjectureData) -> (ConjectureData, Result<(), Raised>) {
        self.flips.draw_arguments(data)
    }

    fn call_test(&mut self, data: ConjectureData) -> (ConjectureData, Result<(), Raised>) {
        let (data, r) = self.flips.call_test(data);
        if self.fails && self.flips.drawn {
            return (data, Err(Raised::Error(failure(4, 1))));
        }
        (data, r)
    }
}

impl Harness for Counting {
    fn set_up(&mut self) -> Result<(), Raised> {
        self.begun += 1;
        Ok(())
    }

    fn tear_down(&mut self) {
        self.ended += 1;
    }

    fn too_slow(&mut self) -> bool {
        false
    }

    fn breathe(&mut self) {}

    fn fetch(&mut self) -> Vec<Vec<u8>> {
        vec![]
    }

    fn save(&mut self, _value: &Vec<u8>) {}

    fn delete(&mut self, _value: &Vec<u8>) {}
}

#[test]
fn examples_are_set_up_and_taken_down() {
    let mut s = counting(false);
    assert!(run_native(&mut s, &settings()).result.is_ok());
    assert_eq!(s.flips.called, vec![false, true]);
    assert!(s.begun >= 2);
    assert_eq!(s.begun, s.ended);
}

#[test]
fn one_failure_is_enough_where_one_is_wanted() {
    let mut s = counting(true);
    let mut one = settings();
    one.report_multiple_bugs = false;
    let r = run_native(&mut s, &one).result.unwrap();
    assert_eq!(r.reports.len(), 1);
    assert!(choices_equal(&r.reports[0].choices, &r.minimal));
    assert!(choices_equal(&r.minimal, &vec![Choice::Boolean(true)]));
    assert_eq!(s.begun, s.ended);
}

#[test]
fn equal_seeds_give_equal_runs() {
    let run = |seed: u64| {
        let mut s = sums(1_000_000);
        let mut chosen = settings();
        chosen.seed = seed;
        assert!(run_native(&mut s, &chosen).result.is_ok());
        (s.calls, s.drawn)
    };
    assert_eq!(run(3), run(3));
}
