use hypothesis_fast::arguments::Mistake;
use hypothesis_fast::builds::{explain_build, BadCall, Explanation};
use hypothesis_fast::choice::Constraints;
use hypothesis_fast::combine::{example_warning, truth_warning, PatternMethod};
use hypothesis_fast::data::Status;
use hypothesis_fast::floats::FloatBounds;
use hypothesis_fast::integer::Int;
use hypothesis_fast::intervalset::IntervalSet;
use hypothesis_fast::nodes::Names;
use hypothesis_fast::repr::repr_node;
use hypothesis_fast::scalars::{range_len, FloatsError};
use hypothesis_fast::strategy::{Alphabet, Atom, FixedItem, NamedNode, Ratio, StrategyNode};
use hypothesis_fast::walk::{copy_node, mentions, Mention};

fn num(v: i64) -> Int {
    Int::of(v)
}

fn names() -> Names {
    let list = |prefix: &str| (0..9).map(|i| format!("{prefix}{i}")).collect();
    Names { objects: list("object"), types: list("type"), functions: list("func") }
}

fn ints(lo: i64, hi: i64) -> StrategyNode {
    StrategyNode::Integers { min: Some(num(lo)), max: Some(num(hi)) }
}

fn digits() -> Alphabet {
    Alphabet::new(IntervalSet::from_pairs(vec![(48, 57)])).unwrap()
}

fn everything() -> Vec<StrategyNode> {
    let mapped = StrategyNode::Mapped { base: Box::new(ints(0, 3)), func: 4 };
    vec![
        ints(1, 9),
        StrategyNode::Integers { min: None, max: None },
        StrategyNode::Booleans,
        StrategyNode::Floats {
            min: 0,
            max: 1f64.to_bits(),
            allow_nan: false,
            allow_inf: false,
            snm: 1,
            width: 64,
        },
        StrategyNode::NoneVal,
        StrategyNode::Just(Atom::Host(1)),
        StrategyNode::Nothing,
        StrategyNode::SampledFrom { elements: vec![Atom::Int(1), Atom::Host(2)], is_tuple: true },
        StrategyNode::SampledFromRange {
            start: num(0),
            stop: num(10),
            step: num(3),
            len: num(4),
        },
        StrategyNode::OneOf(vec![ints(0, 1), StrategyNode::Booleans]),
        StrategyNode::Tuples(vec![StrategyNode::NoneVal, mapped]),
        StrategyNode::Lists {
            elem: Box::new(ints(0, 5)),
            min: 1,
            max: 3,
            unique_by: vec![],
            swap_domain: Some(vec![Atom::Int(2)]),
        },
        StrategyNode::Deferred { thunk: 7 },
        StrategyNode::Sets { elem: Box::new(ints(0, 5)), min: 0, max: 2, frozen: true },
        StrategyNode::Dictionaries {
            keys: Box::new(ints(0, 5)),
            values: Box::new(StrategyNode::Booleans),
            min: 0,
            max: 2,
        },
        StrategyNode::FixedDict {
            items: vec![FixedItem { key: Atom::Host(3), value: StrategyNode::Booleans }],
        },
        StrategyNode::Text { alphabet: digits(), min: 0, max: 4 },
        StrategyNode::Characters { alphabet: digits(), repr: "characters()".to_string() },
        StrategyNode::Binary { min: 2, max: 3 },
        StrategyNode::Filtered { base: Box::new(ints(0, 3)), func: 5 },
        StrategyNode::Flatmapped { base: Box::new(ints(0, 3)), func: 6 },
        StrategyNode::Uuids { version: Some(4), allow_nil: false },
        StrategyNode::Permutations(vec![Atom::Int(1), Atom::Int(2)]),
        StrategyNode::Builds {
            target: 8,
            args: vec![ints(0, 1)],
            kwargs: vec![NamedNode { name: "x".to_string(), node: StrategyNode::Booleans }],
        },
        StrategyNode::Composite { func: 2 },
        StrategyNode::Dates { min_ord: 1, max_ord: 5 },
        StrategyNode::Times { min_us: 0, max_us: 5 },
        StrategyNode::Datetimes { min_ord: 1, max_ord: 5 },
        StrategyNode::Timedeltas { min_us: num(-5), max_us: num(5) },
        StrategyNode::ComplexNumbers { allow_nan: true },
        StrategyNode::IpAddresses { v6: Some(false), net_range: Some((num(0), num(9))) },
        StrategyNode::Slices { size: 4 },
        StrategyNode::Fractions {
            min: Some(Ratio { num: num(1), den: num(3) }),
            max: None,
            max_denom: 7,
        },
        StrategyNode::Decimals { min: None, max: None, places: Some(2) },
        StrategyNode::Data,
        StrategyNode::Functions { id: 1, result: Box::new(ints(0, 1)), pure: true },
        StrategyNode::Randoms { use_true_random: true, note_method_calls: false },
        StrategyNode::Invalid { msg: "no".to_string(), resolution_failed: true },
        StrategyNode::Shared {
            base: Box::new(ints(0, 1)),
            key: "k".to_string(),
            shown: "'k'".to_string(),
        },
        StrategyNode::Foreign { id: 3 },
    ]
}

#[test]
fn copies_are_alike() {
    for node in everything() {
        let copy = copy_node(&node);
        assert_eq!(format!("{node:?}"), format!("{copy:?}"));
        assert_eq!(repr_node(&node, &names()), repr_node(&copy, &names()));
    }
}

#[test]
fn mentions_come_from_left_to_right() {
    let node = StrategyNode::Tuples(everything());
    let found = mentions(&node);
    assert_eq!(found, mentions(&copy_node(&node)));
    let expected = [1, 2, 4, 3, 5, 6, 8, 2, 1, 3];
    let mut objects = Vec::new();
    let mut thunks = Vec::new();
    for m in found {
        match m {
            Mention::Object(id) => objects.push(id),
            Mention::Thunk(id) => thunks.push(id),
        }
    }
    assert_eq!(objects, expected);
    assert_eq!(thunks, [7]);
}

#[test]
fn progressions_have_their_lengths() {
    let len = |a: i64, b: i64, s: i64| range_len(&num(a), &num(b), &num(s)).to_i64().unwrap();
    assert_eq!(len(0, 10, 3), 4);
    assert_eq!(len(0, 9, 3), 3);
    assert_eq!(len(5, 5, 1), 0);
    assert_eq!(len(10, 0, -4), 3);
    assert_eq!(len(0, 10, -1), 0);
    assert_eq!(len(0, 10, 0), 0);
}

#[test]
fn failing_calls_are_explained() {
    let mut call = BadCall {
        bare: true,
        generic: false,
        renamed: true,
        no_type_check: true,
        shown: "UserId".to_string(),
    };
    match explain_build(&call) {
        Explanation::Invalid(e) => {
            assert_eq!(e.kind, Mistake::InvalidArgument);
            assert_eq!(
                e.msg,
                "Calling UserId with no arguments raised an error - try using \
                 from_type(UserId) instead of builds(UserId)"
            );
        }
        _ => panic!("a mistake was expected"),
    }
    call.bare = false;
    assert!(matches!(explain_build(&call), Explanation::WrongCall(_)));
    call.no_type_check = false;
    assert!(matches!(explain_build(&call), Explanation::Stands));
}

#[test]
fn intervals_are_checked() {
    assert!(IntervalSet::checked(vec![(3, 2)]).is_none());
    assert!(IntervalSet::checked(vec![(0, i64::MAX)]).is_none());
    let set = IntervalSet::checked(vec![(5, 6), (1, 2)]).unwrap();
    assert_eq!(set.intervals, vec![(5, 6), (1, 2)]);
    assert!(!set.is_normal());
    assert!(IntervalSet::checked(vec![(1, 2), (5, 6)]).unwrap().is_normal());
    assert!(IntervalSet::checked(vec![]).unwrap().is_normal());
    let far = i64::MAX - 1;
    let top = IntervalSet::checked(vec![(far - 2, far)]).unwrap();
    let bottom = IntervalSet::checked(vec![(-far, 2 - far)]).unwrap();
    assert!(top.union_fits(&bottom));
    let both = top.union(&bottom);
    assert_eq!(both.intervals, vec![(-far, 2 - far), (far - 2, far)]);
    assert_eq!(both.alphabet_len(), 6);
    assert_eq!(both.difference(&top).intervals, vec![(-far, 2 - far)]);
    assert_eq!(both.intersection(&top).intervals, vec![(far - 2, far)]);
    assert!(IntervalSet::checked(vec![(-far, far)]).is_none());
    let low = IntervalSet::checked(vec![(-far, 0)]).unwrap();
    assert!(!low.union_fits(&IntervalSet::checked(vec![(1, far)]).unwrap()));
    assert!(low.union_fits(&low));
}

#[test]
fn statuses_have_their_codes() {
    for code in 0..4u8 {
        assert_eq!(Status::of_code(code).unwrap().code(), code);
    }
    assert!(Status::of_code(4).is_none());
    assert_eq!(Status::Interesting.code(), 3);
}

#[test]
fn kinds_have_their_names() {
    let bounds = FloatBounds {
        min_value: 0,
        max_value: 0,
        allow_nan: false,
        smallest_nonzero_magnitude: 1,
    };
    assert_eq!(Constraints::Boolean { p: 0 }.kind(), "boolean");
    assert_eq!(Constraints::Bytes { min_size: 0, max_size: 1 }.kind(), "bytes");
    assert_eq!(Constraints::Float(bounds).kind(), "float");
    assert_eq!(PatternMethod::named("fullmatch"), PatternMethod::Fullmatch);
    assert_eq!(PatternMethod::named("full"), PatternMethod::Other);
}

#[test]
fn warnings_show_the_strategy() {
    assert_eq!(
        truth_warning("integers()"),
        "bool(integers()) is always True, did you mean to draw a value?"
    );
    assert!(example_warning("text()").ends_with("(strategy: text())"));
}

#[test]
fn mistakes_tell_their_numbers() {
    let e = FloatsError::SubnormalsAboveMax { value: 7, width: 64 };
    assert_eq!(e.numbers(), (Some(7), Some((-f64::MIN_POSITIVE).to_bits())));
    assert_eq!(FloatsError::CannotExcludeMin { given: None }.numbers(), (None, None));
    assert_eq!(FloatsError::MinIsNan.numbers(), (None, None));
}
