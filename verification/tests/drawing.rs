use hypothesis_fast::choice::{choices_equal, Choice};
use hypothesis_fast::data::{Case, ConjectureData, StopTest};
use hypothesis_fast::drawing::{
    boundary_weights, draw_in_span, draw_node, filter_sample_len, sampled_from_elements, Budget, DrawError,
    Entry, Host, Many, NamedValue, Value,
};
use hypothesis_fast::floats::FloatBounds;
use hypothesis_fast::foreign::{draw_node_foreign, ForeignData, ForeignError};
use hypothesis_fast::integer::Int;
use hypothesis_fast::intervalset::IntervalSet;
use hypothesis_fast::provider::Numerics;
use hypothesis_fast::runner::Raised;
use hypothesis_fast::strategy::{
    Alphabet, Atom, FixedItem, NamedNode, Ratio, StrategyNode, COLLECTION_DEFAULT_MAX_SIZE,
};
use rand::rngs::StdRng;

/// Function 1 doubles, 2 accepts even numbers, 3 makes a list strategy, 4 accepts
/// nothing.
struct Python {
    shared: Vec<(String, i64)>,
    retries: u64,
}

fn python() -> Python {
    Python { shared: vec![], retries: 0 }
}

fn num(v: i64) -> Int {
    Int::of(v)
}

fn as_i64(v: &Value) -> i64 {
    match v {
        Value::Int(n) => n.to_i64().unwrap(),
        Value::Atom(Atom::Int(n)) => *n,
        _ => panic!("a number was expected"),
    }
}

impl Numerics for Python {
    fn p_continue(&mut self, _min_size: u64, _max_size: u64) -> u64 {
        0.7f64.to_bits()
    }

    fn propose_integer(&mut self, _rng: &mut StdRng, _min: &Int, _max: &Int) -> Option<Int> {
        None
    }

    fn pick_weight(&mut self, _rng: &mut StdRng, _weights: &Vec<(Int, u64)>) -> Option<usize> {
        None
    }

    fn plus_one(&mut self, f: u64) -> u64 {
        (f64::from_bits(f) + 1.0).to_bits()
    }

    fn minus_one(&mut self, f: u64) -> u64 {
        (f64::from_bits(f) - 1.0).to_bits()
    }

    fn mix(&mut self, _f: u64, bounds: &FloatBounds) -> u64 {
        bounds.min_value
    }
}

impl Host for Python {
    fn apply(&mut self, _func: u64, v: Value) -> Result<Value, Raised> {
        Ok(Value::Int(num(as_i64(&v) * 2)))
    }

    fn accepts(&mut self, func: u64, v: &Value) -> Result<bool, Raised> {
        Ok(func == 2 && as_i64(v) % 2 == 0)
    }

    fn expand(&mut self, _func: u64, v: Value) -> Result<StrategyNode, Raised> {
        let n = as_i64(&v) as u64;
        Ok(StrategyNode::Binary { min: n, max: n })
    }

    fn resolve(&mut self, thunk: u64) -> Result<StrategyNode, Raised> {
        if thunk == 0 {
            Ok(StrategyNode::Deferred { thunk: 0 })
        } else {
            Ok(StrategyNode::Booleans)
        }
    }

    fn key(&mut self, _func: u64, v: &Value) -> Result<Value, Raised> {
        Ok(Value::Int(num(as_i64(v))))
    }

    fn is_seen(&mut self, seen: &Vec<Value>, v: &Value) -> Result<bool, Raised> {
        Ok(seen.iter().any(|s| as_i64(s) == as_i64(v)))
    }

    fn is_key(&mut self, entries: &Vec<Entry>, key: &Value) -> Result<bool, Raised> {
        Ok(entries.iter().any(|e| as_i64(&e.key) == as_i64(key)))
    }

    fn build(
        &mut self,
        target: u64,
        args: Vec<Value>,
        kwargs: Vec<NamedValue>,
    ) -> Result<Value, Raised> {
        Ok(Value::Int(num(target as i64 + args.len() as i64 * 10 + kwargs.len() as i64)))
    }

    fn composite(
        &mut self,
        _func: u64,
        _left: Budget,
        data: ConjectureData,
    ) -> (ConjectureData, Result<Value, Raised>) {
        let (data, r) = data.draw_boolean(self, 0.5f64.to_bits(), None);
        match r {
            Ok(b) => (data, Ok(Value::Bool(b))),
            Err(StopTest { testcounter }) => {
                (data, Err(Raised::StopTest { testcounter: Some(testcounter) }))
            }
        }
    }

    fn foreign(
        &mut self,
        id: u64,
        _left: Budget,
        data: ConjectureData,
    ) -> (ConjectureData, Result<Value, Raised>) {
        (data, Ok(Value::Atom(Atom::Host(id))))
    }

    fn function(
        &mut self,
        id: u64,
        _result: &StrategyNode,
        _pure: bool,
    ) -> Result<Value, Raised> {
        Ok(Value::Atom(Atom::Host(id)))
    }

    fn random(
        &mut self,
        _use_true_random: bool,
        _note_method_calls: bool,
    ) -> Result<Value, Raised> {
        Ok(Value::Atom(Atom::Host(0)))
    }

    fn narrow(&mut self, f: u64, width: u32) -> u64 {
        if width == 32 {
            ((f64::from_bits(f) as f32) as f64).to_bits()
        } else {
            f
        }
    }

    fn shared(&mut self, key: &String) -> Option<Value> {
        self.shared.iter().find(|(k, _)| k == key).map(|(_, v)| Value::Int(num(*v)))
    }

    fn keep_shared(&mut self, key: &String, v: &Value) {
        self.shared.push((key.clone(), as_i64(v)));
    }

    fn retried(&mut self, _base: &StrategyNode, _func: u64) {
        self.retries += 1;
    }
}

fn ints(lo: i64, hi: i64) -> StrategyNode {
    StrategyNode::Integers { min: Some(num(lo)), max: Some(num(hi)) }
}

fn draw(node: &StrategyNode, seed: u64) -> Result<Value, DrawError> {
    assert!(node.check());
    let mut case = Case::new_generate(seed, None);
    draw_node(&mut python(), &mut case, node, Budget::full())
}

fn simplest(node: &StrategyNode) -> Value {
    let mut case = Case::new_simplest(None);
    draw_node(&mut python(), &mut case, node, Budget::full()).ok().unwrap()
}

fn digits() -> Alphabet {
    Alphabet::new(IntervalSet::of_intervals(vec![(48, 57)])).unwrap()
}

fn list(elem: StrategyNode, min: u64, max: u64) -> StrategyNode {
    StrategyNode::Lists {
        elem: Box::new(elem),
        min,
        max,
        unique_by: vec![],
        swap_domain: None,
    }
}

#[test]
fn numbers_are_drawn_within_their_bounds() {
    for seed in 0..50 {
        let v = as_i64(&draw(&ints(-3, 3), seed).ok().unwrap());
        assert!((-3..=3).contains(&v));
        let f = StrategyNode::Floats {
            min: 0.0f64.to_bits(),
            max: 1.0f64.to_bits(),
            allow_nan: false,
            allow_inf: false,
            snm: 1,
            width: 64,
        };
        match draw(&f, seed).ok().unwrap() {
            Value::Float(b) => assert!((0.0..=1.0).contains(&f64::from_bits(b))),
            _ => panic!("a float was expected"),
        }
    }
    assert!(!ints(3, 2).check());
}

#[test]
fn the_simplest_values_are_drawn() {
    assert_eq!(as_i64(&simplest(&ints(2, 9))), 2);
    assert!(matches!(simplest(&StrategyNode::Booleans), Value::Bool(false)));
    assert!(matches!(simplest(&StrategyNode::NoneVal), Value::Atom(Atom::Nil)));
    assert!(matches!(simplest(&list(ints(0, 5), 0, 9)), Value::List(v) if v.is_empty()));
    let text = StrategyNode::Text { alphabet: digits(), min: 2, max: 4 };
    assert!(matches!(simplest(&text), Value::Text(t) if t == vec![48, 48]));
    let dates = StrategyNode::Dates { min_ord: 1, max_ord: 3_652_059 };
    assert!(matches!(simplest(&dates), Value::Date { ordinal: 730_120 }));
}

#[test]
fn collections_have_their_sizes() {
    for seed in 0..40 {
        match draw(&list(ints(0, 9), 2, 4), seed).ok().unwrap() {
            Value::List(v) => assert!(v.len() >= 2 && v.len() <= 4),
            _ => panic!("a list was expected"),
        }
        let sets = StrategyNode::Sets { elem: Box::new(ints(0, 99)), min: 1, max: 3, frozen: true };
        match draw(&sets, seed).ok().unwrap() {
            Value::Collection { items, frozen } => {
                assert!(frozen && !items.is_empty() && items.len() <= 3);
                let mut seen: Vec<i64> = items.iter().map(as_i64).collect();
                seen.sort();
                seen.dedup();
                assert_eq!(seen.len(), items.len());
            }
            _ => panic!("a set was expected"),
        }
        let d = StrategyNode::Dictionaries {
            keys: Box::new(ints(0, 99)),
            values: Box::new(StrategyNode::Booleans),
            min: 1,
            max: 3,
        };
        match draw(&d, seed).ok().unwrap() {
            Value::Dict(entries) => assert!((1..=3).contains(&entries.len())),
            _ => panic!("a dictionary was expected"),
        }
    }
}

#[test]
fn unique_lists_take_from_their_domain() {
    let node = StrategyNode::Lists {
        elem: Box::new(ints(0, 2)),
        min: 3,
        max: 3,
        unique_by: vec![0],
        swap_domain: Some(vec![Atom::Int(0), Atom::Int(1), Atom::Int(2)]),
    };
    for seed in 0..20 {
        match draw(&node, seed).ok().unwrap() {
            Value::List(v) => {
                let mut seen: Vec<i64> = v.iter().map(as_i64).collect();
                seen.sort();
                assert_eq!(seen, vec![0, 1, 2]);
            }
            _ => panic!("a list was expected"),
        }
    }
}

#[test]
fn tuples_and_fixed_dictionaries_have_all_their_parts() {
    let t = StrategyNode::Tuples(vec![ints(1, 1), StrategyNode::Booleans]);
    assert!(matches!(draw(&t, 1), Ok(Value::Tuple(v)) if v.len() == 2));
    let d = StrategyNode::FixedDict {
        items: vec![FixedItem { key: Atom::Int(7), value: ints(3, 3) }],
    };
    match draw(&d, 1).ok().unwrap() {
        Value::Dict(e) => {
            assert_eq!(as_i64(&e[0].key), 7);
            assert_eq!(as_i64(&e[0].value), 3);
        }
        _ => panic!("a dictionary was expected"),
    }
}

#[test]
fn functions_are_applied() {
    let m = StrategyNode::Mapped { base: Box::new(ints(4, 4)), func: 1 };
    assert_eq!(as_i64(&draw(&m, 1).ok().unwrap()), 8);
    let f = StrategyNode::Filtered { base: Box::new(ints(0, 9)), func: 2 };
    for seed in 0..20 {
        assert_eq!(as_i64(&draw(&f, seed).ok().unwrap()) % 2, 0);
    }
    let never = StrategyNode::Filtered { base: Box::new(ints(0, 9)), func: 4 };
    assert!(matches!(draw(&never, 1), Err(DrawError::Stop(_))));
    let flat = StrategyNode::Flatmapped { base: Box::new(ints(3, 3)), func: 3 };
    assert!(matches!(draw(&flat, 1), Ok(Value::Bytes(b)) if b.len() == 3));
    let b = StrategyNode::Builds {
        target: 100,
        args: vec![StrategyNode::Booleans],
        kwargs: vec![NamedNode { name: "x".to_string(), node: StrategyNode::NoneVal }],
    };
    assert_eq!(as_i64(&draw(&b, 1).ok().unwrap()), 111);
}

#[test]
fn samples_are_drawn() {
    let s = StrategyNode::SampledFrom {
        elements: vec![Atom::Int(5), Atom::Int(6)],
        is_tuple: false,
    };
    assert!((5..=6).contains(&as_i64(&draw(&s, 3).ok().unwrap())));
    let range = StrategyNode::SampledFromRange {
        start: num(10),
        stop: num(20),
        step: num(5),
        len: num(2),
    };
    let v = as_i64(&draw(&range, 3).ok().unwrap());
    assert!(v == 10 || v == 15);
    assert_eq!(filter_sample_len(&s), Some(2));
    assert_eq!(sampled_from_elements(&range).unwrap().len(), 2);
    assert!(sampled_from_elements(&ints(0, 1)).is_none());
    let odd = StrategyNode::Filtered { base: Box::new(s), func: 2 };
    assert_eq!(as_i64(&draw(&odd, 3).ok().unwrap()), 6);
}

#[test]
fn deferred_strategies_are_resolved() {
    let again = StrategyNode::Deferred { thunk: 1 };
    assert!(matches!(draw(&again, 1), Ok(Value::Bool(_))));
    let endless = StrategyNode::Deferred { thunk: 0 };
    assert!(matches!(draw(&endless, 1), Err(DrawError::DeferredToItself) | Err(DrawError::Stop(_))));
}

#[test]
fn mistakes_are_reported_when_drawn() {
    let bad = StrategyNode::Invalid { msg: "oops".to_string(), resolution_failed: true };
    assert!(matches!(draw(&bad, 1), Err(DrawError::Invalid { msg, resolution_failed: true })
        if msg == "oops"));
    assert!(matches!(draw(&StrategyNode::Nothing, 1), Err(DrawError::Stop(_))));
}

#[test]
fn hosts_draw_what_is_theirs() {
    assert!(matches!(draw(&StrategyNode::Composite { func: 0 }, 1), Ok(Value::Bool(_))));
    let f = StrategyNode::Foreign { id: 8 };
    assert!(matches!(draw(&f, 1), Ok(Value::Atom(Atom::Host(8)))));
    let node = StrategyNode::Shared {
        base: Box::new(ints(0, 1000)),
        key: "k".to_string(),
        shown: "'k'".to_string(),
    };
    let mut host = python();
    let mut case = Case::new_generate(5, None);
    let a = draw_node(&mut host, &mut case, &node, Budget::full()).ok().unwrap();
    let b = draw_node(&mut host, &mut case, &node, Budget::full()).ok().unwrap();
    assert_eq!(as_i64(&a), as_i64(&b));
    assert!(matches!(draw(&StrategyNode::Data, 1), Ok(Value::Data)));
}

#[test]
fn special_values_are_drawn() {
    for seed in 0..20 {
        let u = StrategyNode::Uuids { version: Some(4), allow_nil: false };
        assert!(matches!(draw(&u, seed), Ok(Value::Uuid { version: Some(4), .. })));
        let t = StrategyNode::Times { min_us: 5, max_us: 7 };
        assert!(matches!(draw(&t, seed), Ok(Value::Time { us, .. }) if (5..=7).contains(&us)));
        let d = StrategyNode::Datetimes { min_ord: 10, max_ord: 12 };
        assert!(matches!(draw(&d, seed), Ok(Value::Datetime { ordinal, .. })
            if (10..=12).contains(&ordinal)));
        let p = StrategyNode::Permutations(vec![Atom::Int(1), Atom::Int(2), Atom::Int(3)]);
        match draw(&p, seed).ok().unwrap() {
            Value::List(v) => {
                let mut seen: Vec<i64> = v.iter().map(as_i64).collect();
                seen.sort();
                assert_eq!(seen, vec![1, 2, 3]);
            }
            _ => panic!("a list was expected"),
        }
        let ip = StrategyNode::IpAddresses {
            v6: Some(false),
            net_range: Some((num(16), num(31))),
        };
        assert!(matches!(draw(&ip, seed), Ok(Value::Ip { v6: false, number })
            if (16..=31).contains(&number.to_i64().unwrap())));
        let f = StrategyNode::Fractions {
            min: Some(Ratio { num: num(0), den: num(1) }),
            max: Some(Ratio { num: num(1), den: num(1) }),
            max_denom: 10,
        };
        match draw(&f, seed).ok().unwrap() {
            Value::Fraction { num: n, den } => {
                assert!(!n.is_negative() && !den.less(&n));
            }
            _ => panic!("a fraction was expected"),
        }
    }
}

#[test]
fn drawn_values_are_replayed() {
    let node = list(ints(0, 1000), 1, 8);
    let mut case = Case::new_generate(9, None);
    let a = draw_node(&mut python(), &mut case, &node, Budget::full()).ok().unwrap();
    let choices: Vec<Choice> = case.choices();
    let mut again = Case::new_for_choices(&choices, 1, None);
    let b = draw_node(&mut python(), &mut again, &node, Budget::full()).ok().unwrap();
    match (a, b) {
        (Value::List(x), Value::List(y)) => {
            let x: Vec<i64> = x.iter().map(as_i64).collect();
            let y: Vec<i64> = y.iter().map(as_i64).collect();
            assert_eq!(x, y);
        }
        _ => panic!("lists were expected"),
    }
    assert!(choices_equal(&again.choices(), &choices));
    assert!(!again.replay.misaligned);
}

#[test]
fn sizes_are_decided_one_by_one() {
    let mut case = Case::new_simplest(None);
    let mut many = Many::new(&mut python(), 2, 4);
    assert_eq!(many.more(&mut python(), &mut case).ok(), Some(true));
    assert_eq!(many.more(&mut python(), &mut case).ok(), Some(true));
    assert_eq!(many.more(&mut python(), &mut case).ok(), Some(false));
    let mut many = Many::new(&mut python(), 1, COLLECTION_DEFAULT_MAX_SIZE);
    assert_eq!(many.more(&mut python(), &mut case).ok(), Some(true));
    assert!(many.reject(&mut case).is_ok());
    assert_eq!((many.count, many.rejections), (0, 1));
    let w = boundary_weights(&Some(num(0)), &Some(num(1_000_000)));
    assert!(w.iter().any(|(v, _)| v.to_i64() == Some(0)));
    assert!(boundary_weights(&Some(num(0)), &Some(num(3))).is_empty());
}

/// Another engine that always draws the smallest.
struct Smallest;

impl ForeignData for Smallest {
    fn draw_integer(&mut self, min: &Option<Int>, _max: &Option<Int>) -> Result<Int, Raised> {
        Ok(match min {
            Some(n) => n.clone(),
            None => num(0),
        })
    }

    fn draw_boolean(&mut self, _p: u64, forced: Option<bool>) -> Result<bool, Raised> {
        Ok(forced.unwrap_or(false))
    }

    fn draw_float(&mut self, bounds: &FloatBounds) -> Result<u64, Raised> {
        Ok(bounds.min_value)
    }

    fn draw_bytes(&mut self, min_size: u64, _max_size: u64) -> Result<Vec<u8>, Raised> {
        Ok(vec![0; min_size as usize])
    }

    fn draw_string(
        &mut self,
        intervals: &IntervalSet,
        min_size: u64,
        _max_size: u64,
    ) -> Result<Vec<u32>, Raised> {
        Ok(vec![intervals.intervals[0].0 as u32; min_size as usize])
    }

    fn composite(&mut self, _func: u64) -> Result<Value, Raised> {
        Ok(Value::Bool(true))
    }

    fn draw(&mut self, id: u64) -> Result<Value, Raised> {
        Ok(Value::Atom(Atom::Host(id)))
    }

    fn mark_invalid(&mut self) -> Raised {
        Raised::UnsatisfiedAssumption
    }
}

fn from_elsewhere(node: &StrategyNode) -> Result<Value, ForeignError> {
    draw_node_foreign(&mut Smallest, &mut python(), node)
}

#[test]
fn strategies_are_drawn_from_elsewhere() {
    assert_eq!(as_i64(&from_elsewhere(&ints(4, 9)).ok().unwrap()), 4);
    assert!(matches!(from_elsewhere(&list(ints(0, 5), 2, 9)), Ok(Value::List(v)) if v.len() == 2));
    let t = StrategyNode::Text { alphabet: digits(), min: 1, max: 4 };
    assert!(matches!(from_elsewhere(&t), Ok(Value::Text(t)) if t == vec![48]));
    assert!(matches!(
        from_elsewhere(&StrategyNode::Nothing),
        Err(ForeignError::Raised(Raised::UnsatisfiedAssumption))
    ));
    let d = StrategyNode::Dates { min_ord: 1, max_ord: 2 };
    assert!(matches!(from_elsewhere(&d), Err(ForeignError::Unsupported)));
    let m = StrategyNode::Mapped { base: Box::new(ints(4, 4)), func: 1 };
    assert_eq!(as_i64(&from_elsewhere(&m).ok().unwrap()), 8);
}

#[test]
fn choices_spell_what_is_drawn() {
    let node = StrategyNode::Tuples(vec![
        ints(0, 9),
        StrategyNode::OneOf(vec![StrategyNode::Booleans, ints(5, 6)]),
        list(StrategyNode::Booleans, 0, 3),
    ]);
    let choices = vec![
        Choice::Integer(num(4)),
        Choice::Integer(num(1)),
        Choice::Integer(num(6)),
        Choice::Boolean(true),
        Choice::Boolean(true),
        Choice::Boolean(false),
    ];
    for _ in 0..2 {
        let mut case = Case::new_for_choices(&choices, 1, None);
        let v = draw_node(&mut python(), &mut case, &node, Budget::full()).unwrap();
        match v {
            Value::Tuple(parts) => {
                assert_eq!(as_i64(&parts[0]), 4);
                assert_eq!(as_i64(&parts[1]), 6);
                match &parts[2] {
                    Value::List(items) => {
                        assert_eq!(items.len(), 1);
                        assert!(matches!(items[0], Value::Bool(true)));
                    }
                    _ => panic!("a list was expected"),
                }
            }
            _ => panic!("a tuple was expected"),
        }
        assert_eq!(case.nodes.len(), 6);
    }
}

#[test]
fn draws_have_their_spans() {
    let data = ConjectureData::new_simplest(None);
    let (data, drawn) = draw_in_span(&mut python(), data, &ints(3, 9), 17, Budget::full());
    assert_eq!(as_i64(&drawn.unwrap()), 3);
    assert_eq!(data.as_case().spans.open, 1);
    let bad = StrategyNode::Binary { min: 4, max: 3 };
    let (data, drawn) = draw_in_span(&mut python(), data, &bad, 17, Budget::full());
    assert!(matches!(drawn, Err(DrawError::BadStrategy)));
    assert_eq!(data.as_case().nodes.len(), 1);
}

#[test]
fn what_is_played_back_is_drawn() {
    let span = StrategyNode::Timedeltas { min_us: num(2), max_us: num(7) };
    let play = |v: &[i64]| {
        let choices: Vec<Choice> = v.iter().map(|n| Choice::Integer(num(*n))).collect();
        let mut case = Case::new_for_choices(&choices, 0, None);
        match draw_node(&mut python(), &mut case, &span, Budget::full()).ok().unwrap() {
            Value::Timedelta { days, microseconds } => {
                (days.to_i64().unwrap(), microseconds.to_i64().unwrap())
            }
            _ => panic!("a span of time was expected"),
        }
    };
    assert_eq!(play(&[0, 9]), (0, 2));
    assert_eq!(play(&[0, 5]), (0, 5));
    assert_eq!(play(&[3, 7]), (0, 7));
}

#[test]
fn long_ranges_stay_lazy() {
    let far = Int::of(10).power(100);
    let range = StrategyNode::SampledFromRange {
        start: num(0),
        stop: far.clone(),
        step: num(1),
        len: far,
    };
    assert_eq!(as_i64(&simplest(&range)), 0);
}

#[test]
fn sizes_may_be_as_large_as_they_like() {
    let l = list(ints(0, 1), 0, 1 << 61);
    assert!(matches!(draw(&l, 3), Ok(Value::List(_))));
    assert!(matches!(from_elsewhere(&l), Ok(Value::List(v)) if v.is_empty()));
    let l = list(ints(0, 1), 0, u64::MAX);
    assert!(matches!(draw(&l, 4), Ok(Value::List(_))));
    let s = StrategyNode::Slices { size: i64::MAX as u64 };
    assert!(matches!(draw(&s, 5), Ok(Value::Slice { .. })));
}

/// Another engine that counts what it is asked, and answers with a number of its own.
struct Stubborn {
    asked: u64,
    given_up: u64,
    number: i64,
}

impl ForeignData for Stubborn {
    fn draw_integer(&mut self, _min: &Option<Int>, _max: &Option<Int>) -> Result<Int, Raised> {
        self.asked += 1;
        Ok(num(self.number))
    }

    fn draw_boolean(&mut self, _p: u64, _forced: Option<bool>) -> Result<bool, Raised> {
        Err(Raised::Control { id: 8 })
    }

    fn draw_float(&mut self, _bounds: &FloatBounds) -> Result<u64, Raised> {
        Ok(f64::NAN.to_bits())
    }

    fn draw_bytes(&mut self, _min_size: u64, _max_size: u64) -> Result<Vec<u8>, Raised> {
        Ok(vec![1, 2, 3])
    }

    fn draw_string(
        &mut self,
        _intervals: &IntervalSet,
        _min_size: u64,
        _max_size: u64,
    ) -> Result<Vec<u32>, Raised> {
        Ok(vec![97])
    }

    fn composite(&mut self, _func: u64) -> Result<Value, Raised> {
        Err(Raised::Control { id: 9 })
    }

    fn draw(&mut self, _id: u64) -> Result<Value, Raised> {
        Err(Raised::Control { id: 10 })
    }

    fn mark_invalid(&mut self) -> Raised {
        self.given_up += 1;
        Raised::StopTest { testcounter: Some(77) }
    }
}

#[test]
fn filters_elsewhere_are_tried_three_times() {
    let mut other = Stubborn { asked: 0, given_up: 0, number: 5 };
    let node = StrategyNode::Filtered { base: Box::new(ints(0, 9)), func: 4 };
    let r = draw_node_foreign(&mut other, &mut python(), &node);
    assert!(matches!(
        r,
        Err(ForeignError::Raised(Raised::StopTest { testcounter: Some(77) }))
    ));
    assert_eq!((other.asked, other.given_up), (3, 1));
}

#[test]
fn answers_from_elsewhere_are_handed_on() {
    let ask = |node: &StrategyNode, number: i64| {
        let mut other = Stubborn { asked: 0, given_up: 0, number };
        draw_node_foreign(&mut other, &mut python(), node)
    };
    assert_eq!(as_i64(&ask(&ints(0, 9), 5).ok().unwrap()), 5);
    assert_eq!(as_i64(&ask(&ints(0, 4), 5).ok().unwrap()), 5);
    let sample = StrategyNode::SampledFrom {
        elements: vec![Atom::Int(30), Atom::Int(40)],
        is_tuple: false,
    };
    assert_eq!(as_i64(&ask(&sample, 1).ok().unwrap()), 40);
    assert!(matches!(ask(&sample, 2), Err(ForeignError::Mismatch)));
    let bytes = |max| StrategyNode::Binary { min: 0, max };
    assert!(matches!(ask(&bytes(3), 0), Ok(Value::Bytes(b)) if b == vec![1, 2, 3]));
    assert!(matches!(ask(&bytes(2), 0), Ok(Value::Bytes(b)) if b == vec![1, 2, 3]));
    let text = StrategyNode::Text { alphabet: digits(), min: 1, max: 4 };
    assert!(matches!(ask(&text, 0), Ok(Value::Text(_))));
    assert!(matches!(
        ask(&StrategyNode::Booleans, 0),
        Err(ForeignError::Raised(Raised::Control { id: 8 }))
    ));
    assert!(matches!(
        ask(&StrategyNode::Foreign { id: 1 }, 0),
        Err(ForeignError::Raised(Raised::Control { id: 10 }))
    ));
}

#[test]
fn repetitions_elsewhere_are_given_up_after_some() {
    let refused = |node: &StrategyNode| {
        let mut other = Stubborn { asked: 0, given_up: 0, number: 1 };
        let r = draw_node_foreign(&mut other, &mut python(), node);
        assert!(matches!(
            r,
            Err(ForeignError::Raised(Raised::StopTest { testcounter: Some(77) }))
        ));
        assert_eq!(other.given_up, 1);
        other.asked
    };
    let elem = || Box::new(ints(0, 9));
    // one element is kept, three are passed over, and the next one is one too many
    let set = StrategyNode::Sets { elem: elem(), min: 2, max: 2, frozen: false };
    assert_eq!(refused(&set), 5);
    let unique = StrategyNode::Lists {
        elem: elem(),
        min: 2,
        max: 2,
        unique_by: vec![6],
        swap_domain: None,
    };
    assert_eq!(refused(&unique), 5);
    let dict = StrategyNode::Dictionaries { keys: elem(), values: elem(), min: 2, max: 2 };
    assert_eq!(refused(&dict), 10);
    let atoms: Vec<Atom> = vec![4, 4, 4, 4, 4, 4, 4].into_iter().map(Atom::Int).collect();
    let domain = StrategyNode::Lists {
        elem: elem(),
        min: 2,
        max: 2,
        unique_by: vec![],
        swap_domain: Some(atoms),
    };
    assert_eq!(refused(&domain), 5);
    let one = StrategyNode::Sets { elem: elem(), min: 1, max: 1, frozen: true };
    let mut other = Stubborn { asked: 0, given_up: 0, number: 1 };
    assert!(matches!(
        draw_node_foreign(&mut other, &mut python(), &one),
        Ok(Value::Collection { items, frozen: true }) if items.len() == 1
    ));
    assert_eq!((other.asked, other.given_up), (1, 0));
}

#[test]
fn overruns_come_only_without_room() {
    let node = list(ints(0, 9), 3, 3);
    let mut wide = Case::new_simplest(None);
    assert!(draw_node(&mut python(), &mut wide, &node, Budget::full()).is_ok());
    let mut narrow = Case::new_simplest(Some(2));
    assert!(matches!(
        draw_node(&mut python(), &mut narrow, &node, Budget::full()),
        Err(DrawError::Stop(_))
    ));
    assert!(narrow.nodes.len() <= 2);
}

fn sample(v: &[i64]) -> StrategyNode {
    StrategyNode::SampledFrom {
        elements: v.iter().map(|n| Atom::Int(*n)).collect(),
        is_tuple: false,
    }
}

#[test]
fn choices_pick_from_filtered_samples() {
    let play = |base: StrategyNode, v: &[i64]| {
        let choices: Vec<Choice> = v.iter().map(|n| Choice::Integer(num(*n))).collect();
        let mut case = Case::new_for_choices(&choices, 0, None);
        let node = StrategyNode::Filtered { base: Box::new(base), func: 2 };
        let r = draw_node(&mut python(), &mut case, &node, Budget::full());
        (r.ok().map(|v| as_i64(&v)), case.choices().len())
    };
    let five = [1, 2, 3, 4, 6];
    assert_eq!(play(sample(&five), &[3]), (Some(4), 1));
    assert_eq!(play(sample(&five), &[0, 4]), (Some(6), 2));
    assert_eq!(play(sample(&five), &[0, 2, 0, 0]), (Some(2), 4));
    assert_eq!(play(sample(&five), &[0, 2, 0, 2]), (Some(6), 4));
    let long = [1, 2, 3, 5, 7, 9, 11];
    assert_eq!(play(sample(&long), &[0, 2, 3, 3, 0]), (Some(2), 5));
    assert_eq!(play(sample(&[1, 3]), &[0, 1, 0]), (None, 3));
}

#[test]
fn fractions_without_a_numerator_are_given_up() {
    let third = || Some(Ratio { num: num(1), den: num(3) });
    let node = StrategyNode::Fractions { min: third(), max: third(), max_denom: 9 };
    let play = |den: i64| {
        let choices = vec![Choice::Integer(num(den)), Choice::Integer(num(0))];
        let mut case = Case::new_for_choices(&choices, 0, None);
        draw_node(&mut python(), &mut case, &node, Budget::full())
    };
    assert!(matches!(play(2), Err(DrawError::Stop(_))));
    match play(6) {
        Ok(Value::Fraction { num: n, den }) => {
            assert_eq!((n.to_i64(), den.to_i64()), (Some(2), Some(6)));
        }
        _ => panic!("a fraction was expected"),
    }
}

#[test]
fn a_single_span_of_time_is_drawn() {
    let span = 3 * 86_400_000_000 + 5;
    let node = StrategyNode::Timedeltas { min_us: num(span), max_us: num(span) };
    for seed in 0..5 {
        match draw(&node, seed) {
            Ok(Value::Timedelta { days, microseconds }) => {
                assert_eq!((days.to_i64(), microseconds.to_i64()), (Some(3), Some(5)));
            }
            _ => panic!("a span of time was expected"),
        }
    }
}

#[test]
fn refusals_are_told_and_noted() {
    let node = StrategyNode::Filtered { base: Box::new(ints(0, 9)), func: 2 };
    let play = |v: &[i64]| {
        let choices: Vec<Choice> = v.iter().map(|n| Choice::Integer(num(*n))).collect();
        let mut case = Case::new_for_choices(&choices, 0, None);
        let mut host = python();
        let v = draw_node(&mut host, &mut case, &node, Budget::full()).ok().unwrap();
        (as_i64(&v), host.retries, case.spans.has_discards)
    };
    assert_eq!(play(&[4]), (4, 0, false));
    assert_eq!(play(&[1, 3, 6]), (6, 1, true));
}

#[test]
fn seeds_determine_what_is_made_up() {
    let node = list(StrategyNode::Booleans, 0, 20);
    let made = |seed: u64| {
        let mut case = Case::new_generate(seed, None);
        draw_node(&mut python(), &mut case, &node, Budget::full()).ok().unwrap();
        case.choices()
    };
    assert!(choices_equal(&made(5), &made(5)));
    assert!((6..20).any(|seed| !choices_equal(&made(5), &made(seed))));
}
