use hypothesis_fast::choice::{choice_equal, Choice, Constraints};
use hypothesis_fast::data::{
    prefix_choice_count, simplest_choice, Case, ConjectureData, PrefixEntry, Status, StopTest,
    Trail,
};
use hypothesis_fast::floats::FloatBounds;
use hypothesis_fast::integer::Int;
use hypothesis_fast::intervalset::IntervalSet;
use hypothesis_fast::provider::{
    clamp_bigint, fresh_seed, growth, permitted_candidates, resolve_range, uniform_from_words,
    uniform_int, unit_less, Numerics,
};
use hypothesis_fast::tree::{choice_max_children, Tracker};
use rand::rngs::StdRng;
use rand::SeedableRng;

struct Floats;

impl Numerics for Floats {
    fn p_continue(&mut self, _min_size: u64, _max_size: u64) -> u64 {
        0.5f64.to_bits()
    }

    fn propose_integer(&mut self, _rng: &mut StdRng, _min: &Int, _max: &Int) -> Option<Int> {
        None
    }

    fn pick_weight(&mut self, _rng: &mut StdRng, _weights: &Vec<(Int, u64)>) -> Option<usize> {
        None
    }

    fn plus_one(&mut self, f: u64) -> u64 {
        (f64::from_bits(f) + 1.0).to_bits()
    }

    fn minus_one(&mut self, f: u64) -> u64 {
        (f64::from_bits(f) - 1.0).to_bits()
    }

    fn mix(&mut self, _f: u64, bounds: &FloatBounds) -> u64 {
        bounds.min_value
    }
}

fn num(v: i64) -> Int {
    Int::of(v)
}

fn draw_int(case: &mut Case, lo: i64, hi: i64) -> Result<Int, StopTest> {
    case.draw_integer(&mut Floats, Some(num(lo)), Some(num(hi)), &vec![], &vec![], num(0))
}

#[test]
fn simplest_choices_are_small() {
    let k = Constraints::Integer {
        min_value: Some(num(5)),
        max_value: Some(num(9)),
        shrink_towards: num(0),
    };
    assert!(choice_equal(&simplest_choice(&k).unwrap(), &Choice::Integer(num(5))));
    let k = Constraints::Boolean { p: 0.5f64.to_bits() };
    assert!(choice_equal(&simplest_choice(&k).unwrap(), &Choice::Boolean(false)));
    let k = Constraints::Bytes { min_size: 2, max_size: 9 };
    assert!(choice_equal(&simplest_choice(&k).unwrap(), &Choice::Bytes(vec![0, 0])));
}

#[test]
fn the_simplest_case_draws_the_simplest_choices() {
    let mut case = Case::new_simplest(None);
    assert_eq!(draw_int(&mut case, 3, 10).unwrap().to_i64(), Some(3));
    assert_eq!(case.draw_boolean(&mut Floats, 0.5f64.to_bits(), None), Ok(false));
    let bytes = case.draw_bytes(&mut Floats, 1, 4).unwrap();
    assert_eq!(bytes, vec![0]);
    let digits = IntervalSet::of_intervals(vec![(48, 57)]);
    assert_eq!(case.draw_string(&mut Floats, &digits, 2, 5).unwrap(), vec![48, 48]);
    assert_eq!(case.choices().len(), 4);
}

#[test]
fn recorded_choices_are_replayed() {
    let mut case = Case::new_generate(7, None);
    let a = draw_int(&mut case, 0, 1000).unwrap();
    let b = draw_int(&mut case, -1000, 0).unwrap();
    let mut again = Case::new_for_choices(&case.choices(), 99, None);
    assert!(draw_int(&mut again, 0, 1000).unwrap().same(&a));
    assert!(draw_int(&mut again, -1000, 0).unwrap().same(&b));
    assert!(draw_int(&mut again, 0, 1).is_err());
    assert_eq!(again.status, Status::Overrun);
}

#[test]
fn choices_that_do_not_fit_are_replaced() {
    let mut case = Case::new_for_choices(&vec![Choice::Integer(num(500))], 1, None);
    assert_eq!(draw_int(&mut case, 0, 10).unwrap().to_i64(), Some(0));
    assert!(case.replay.misaligned);
}

#[test]
fn templates_are_counted() {
    let prefix = vec![
        PrefixEntry::Value(Choice::Boolean(true)),
        PrefixEntry::Simplest { count: Some(2) },
    ];
    assert_eq!(prefix_choice_count(&prefix), Some(3));
    assert_eq!(prefix_choice_count(&vec![PrefixEntry::Simplest { count: None }]), None);
    let mut case = Case::for_choices(prefix, 1, None);
    assert_eq!(case.draw_boolean(&mut Floats, 0.5f64.to_bits(), None), Ok(true));
    assert_eq!(draw_int(&mut case, 4, 8).unwrap().to_i64(), Some(4));
    assert_eq!(draw_int(&mut case, 4, 8).unwrap().to_i64(), Some(4));
    assert!(draw_int(&mut case, 4, 8).is_err());
}

#[test]
fn forced_values_are_drawn() {
    let mut case = Case::new_generate(3, None);
    assert_eq!(case.draw_boolean(&mut Floats, 0.5f64.to_bits(), Some(true)), Ok(true));
    assert!(case.nodes[0].was_forced);
    assert_eq!(case.choose_below(&mut Floats, 10, Some(7)), Ok(7));
    assert!(case.choose_below(&mut Floats, 3, None).unwrap() < 3);
}

#[test]
fn sure_booleans_are_sure() {
    let mut case = Case::new_generate(3, None);
    for _ in 0..20 {
        assert_eq!(case.draw_boolean(&mut Floats, 0.0f64.to_bits(), None), Ok(false));
        assert_eq!(case.draw_boolean(&mut Floats, 1.0f64.to_bits(), None), Ok(true));
    }
}

#[test]
fn cases_end_when_they_are_full() {
    let mut case = Case::new_generate(3, Some(4));
    assert!(draw_int(&mut case, 0, 1).is_ok());
    assert!(draw_int(&mut case, 0, 1).is_ok());
    let r = draw_int(&mut case, 0, 1);
    assert_eq!(r.err(), Some(StopTest { testcounter: 0 }));
    assert!(case.frozen);
    assert!(case.status_is_overrun());
}

#[test]
fn spans_are_closed_when_a_case_ends() {
    let mut case = Case::new_generate(3, None);
    assert!(case.start_span(17).is_ok());
    assert!(draw_int(&mut case, 0, 1).is_ok());
    case.freeze();
    assert_eq!(case.spans.open, 0);
    assert_eq!(
        case.spans.trail,
        vec![
            Trail::Start(0),
            Trail::Start(1),
            Trail::Choice,
            Trail::Stop { discard: false },
            Trail::Stop { discard: false },
        ]
    );
    assert!(case.start_span(1).is_err());
    assert!(case.note("late").is_err());
}

#[test]
fn discarded_spans_are_noticed() {
    let mut case = Case::new_generate(3, None);
    assert!(case.start_span(5).is_ok());
    case.stop_span(true);
    assert!(case.spans.has_discards);
    assert!(!case.deeper_than(1));
    assert!(case.note("hello").is_ok());
    assert_eq!(case.output, "hello");
}

#[test]
fn cases_are_marked() {
    let mut case = Case::new_generate(3, None);
    let stop = case.mark_invalid();
    assert_eq!(stop, StopTest { testcounter: 0 });
    assert_eq!(case.status, Status::Invalid);
    let mut case = Case::new_generate(3, None);
    case.mark_interesting(12);
    assert_eq!(case.status, Status::Interesting);
    assert_eq!(case.interesting_origin, Some(12));
    let mut case = Case::new_generate(3, None);
    case.mark_overrun();
    assert!(!case.status_is_valid());
    let data = ConjectureData::new_generate(4, None);
    assert!(data.status_is_valid());
    assert!(data.choices().is_empty());
}

#[test]
fn random_draws_stay_within_their_bounds() {
    let mut case = Case::new_generate(11, None);
    for _ in 0..100 {
        let v = draw_int(&mut case, -5, 5).unwrap().to_i64().unwrap();
        assert!((-5..=5).contains(&v));
    }
    let bounds = FloatBounds {
        min_value: 1.0f64.to_bits(),
        max_value: 2.0f64.to_bits(),
        allow_nan: false,
        smallest_nonzero_magnitude: 1,
    };
    for _ in 0..20 {
        let f = f64::from_bits(case.draw_float(&mut Floats, bounds).unwrap());
        assert!((1.0..=2.0).contains(&f));
    }
}

#[test]
fn seeds_fix_what_is_drawn() {
    let run = |seed: u64| -> Vec<Option<i64>> {
        let mut case = Case::new_generate(seed, None);
        (0..8).map(|_| draw_int(&mut case, 0, 1_000_000).unwrap().to_i64()).collect()
    };
    assert_eq!(run(5), run(5));
    assert_ne!(run(5), run(6));
    assert!((0..8).any(|_| fresh_seed() != fresh_seed()));
}

#[test]
fn uniform_integers_fill_their_range() {
    let mut rng = StdRng::seed_from_u64(1);
    let mut seen = [false; 4];
    for _ in 0..200 {
        let v = uniform_int(&mut rng, &num(10), &num(13)).to_i64().unwrap();
        seen[(v - 10) as usize] = true;
    }
    assert_eq!(seen, [true; 4]);
    let r = uniform_from_words(&vec![5], &num(9), 4).unwrap();
    assert_eq!(r.to_i64(), Some(5));
    assert!(uniform_from_words(&vec![15], &num(9), 4).is_none());
}

#[test]
fn ranges_are_made_finite() {
    let (lo, hi) = resolve_range(&None, &None);
    assert!(lo.less(&num(0)) && num(0).less(&hi));
    assert_eq!(clamp_bigint(&num(0), num(9), &num(5)).to_i64(), Some(5));
    assert_eq!(clamp_bigint(&num(0), num(-9), &num(5)).to_i64(), Some(0));
    let kept = permitted_candidates(&vec![num(1), num(20)], &Some(num(0)), &Some(num(5)));
    assert_eq!(kept.len(), 1);
    assert_eq!(kept[0].to_i64(), Some(1));
}

#[test]
fn chances_are_compared_exactly() {
    assert!(unit_less(0, 0.5f64.to_bits()));
    assert!(!unit_less(u64::MAX, 0.5f64.to_bits()));
    assert!(!unit_less(0, 0.0f64.to_bits()));
    let _ = growth(0, 1, 5);
}

#[test]
fn small_spaces_are_exhausted() {
    let k = Constraints::Boolean { p: 0.5f64.to_bits() };
    assert_eq!(choice_max_children(&k), Some(2));
    let mut tracker = Tracker::new();
    assert!(!tracker.exhausted());
    for b in [false, true] {
        let mut case = Case::new_generate(1, None);
        assert_eq!(case.draw_boolean(&mut Floats, 0.5f64.to_bits(), Some(b)), Ok(b));
        assert!(!tracker.is_redundant(&case.nodes));
        tracker.track_example(&case.nodes);
        assert!(tracker.is_redundant(&case.nodes));
    }
    assert!(tracker.exhausted());
}
