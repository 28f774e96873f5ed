use hypothesis_fast::choice::{
    choice_equal, choice_from_index, choice_permitted, choice_to_index, choices_equal, Choice,
    ChoiceError, Constraints,
};
use hypothesis_fast::codec::{
    can_encode, choices_from_bytes, decode, encode_choice, encode_choices, one_choice_size,
    pack_uleb128, uleb128_len, unpack_uleb128, DecodeError,
};
use hypothesis_fast::database::{bytes_before, InMemoryExampleDatabase};
use hypothesis_fast::engine::choices_lt;
use hypothesis_fast::floats::FloatBounds;
use hypothesis_fast::integer::Int;
use hypothesis_fast::intervalset::{IntervalError, IntervalSet};

fn num(v: i64) -> Int {
    Int::of(v)
}

fn text(s: &str) -> Choice {
    Choice::Text(s.chars().map(|c| c as u32).collect())
}

fn integers(lo: i64, hi: i64) -> Constraints {
    Constraints::Integer {
        min_value: Some(num(lo)),
        max_value: Some(num(hi)),
        shrink_towards: num(0),
    }
}

fn any_float() -> FloatBounds {
    FloatBounds {
        min_value: f64::NEG_INFINITY.to_bits(),
        max_value: f64::INFINITY.to_bits(),
        allow_nan: true,
        smallest_nonzero_magnitude: 1,
    }
}

#[test]
fn choices_are_compared_by_kind_and_value() {
    assert!(choice_equal(&Choice::Integer(num(3)), &Choice::Integer(num(3))));
    assert!(!choice_equal(&Choice::Boolean(true), &Choice::Integer(num(1))));
    assert!(!choice_equal(&Choice::Float(0.0f64.to_bits()), &Choice::Float((-0.0f64).to_bits())));
    assert!(choice_equal(&text("ab"), &text("ab")));
    assert!(choices_equal(&vec![text("a")], &vec![text("a")]));
    assert!(!choices_equal(&vec![text("a")], &vec![]));
}

#[test]
fn choices_survive_their_index() {
    let k = integers(-10, 10);
    for v in -10..11i64 {
        let i = choice_to_index(&Choice::Integer(num(v)), &k).unwrap();
        let back = choice_from_index(&i, &k, 0).unwrap();
        assert!(choice_equal(&back, &Choice::Integer(num(v))));
    }
    let simplest = choice_from_index(&num(0), &k, 0).unwrap();
    assert!(choice_equal(&simplest, &Choice::Integer(num(0))));
    assert_eq!(choice_to_index(&simplest, &k).unwrap().to_i64(), Some(0));
    let k = Constraints::Bytes { min_size: 1, max_size: 4 };
    let simplest = choice_from_index(&num(0), &k, 0).unwrap();
    assert!(choice_equal(&simplest, &Choice::Bytes(vec![0])));
    assert_eq!(choice_to_index(&simplest, &k).unwrap().to_i64(), Some(0));
    let c = Choice::Bytes(vec![7, 0, 255]);
    let i = choice_to_index(&c, &k).unwrap();
    assert!(choice_equal(&choice_from_index(&i, &k, 0).unwrap(), &c));
    let k = Constraints::Float(any_float());
    let c = Choice::Float((-2.5f64).to_bits());
    let i = choice_to_index(&c, &k).unwrap();
    assert!(choice_equal(&choice_from_index(&i, &k, 0).unwrap(), &c));
    let k = Constraints::Text {
        intervals: IntervalSet::of_intervals(vec![(48, 57), (97, 122)]),
        min_size: 0,
        max_size: 10,
    };
    let c = text("z0a");
    let i = choice_to_index(&c, &k).unwrap();
    assert!(choice_equal(&choice_from_index(&i, &k, 0).unwrap(), &c));
}

#[test]
fn choices_of_another_kind_are_refused() {
    let r = choice_to_index(&Choice::Boolean(true), &integers(0, 3));
    assert!(matches!(r, Err(ChoiceError::WrongKind)));
    let r = choice_permitted(&Choice::Boolean(true), &integers(0, 3));
    assert!(matches!(r, Err(ChoiceError::WrongKind)));
}

#[test]
fn indices_beyond_the_buffer_are_refused() {
    let k = Constraints::Text {
        intervals: IntervalSet::of_intervals(vec![(97, 97)]),
        min_size: 0,
        max_size: 100_000,
    };
    assert!(matches!(choice_from_index(&num(8192), &k, 0), Err(ChoiceError::TooLarge)));
    let r = choice_to_index(&text("b"), &k);
    assert!(matches!(r, Err(ChoiceError::Interval(IntervalError::NotInList { value: 98 }))));
}

#[test]
fn choices_are_permitted_within_their_bounds() {
    assert_eq!(choice_permitted(&Choice::Integer(num(3)), &integers(0, 3)).ok(), Some(true));
    assert_eq!(choice_permitted(&Choice::Integer(num(4)), &integers(0, 3)).ok(), Some(false));
    let sure = Constraints::Boolean { p: 1.0f64.to_bits() };
    assert_eq!(choice_permitted(&Choice::Boolean(false), &sure).ok(), Some(false));
    assert_eq!(choice_permitted(&Choice::Boolean(true), &sure).ok(), Some(true));
    let k = Constraints::Bytes { min_size: 2, max_size: 3 };
    assert_eq!(choice_permitted(&Choice::Bytes(vec![1]), &k).ok(), Some(false));
}

#[test]
fn numbers_are_packed_in_groups_of_seven_bits() {
    let mut out = vec![];
    pack_uleb128(300, &mut out);
    assert_eq!(out, vec![0xAC, 0x02]);
    assert_eq!(uleb128_len(300), 2);
    assert_eq!(uleb128_len(0), 1);
    assert_eq!(unpack_uleb128(&out, 0), (2, 300));
}

#[test]
fn choices_survive_their_bytes() {
    let all = vec![
        Choice::Boolean(true),
        Choice::Boolean(false),
        Choice::Integer(num(-129)),
        Choice::Integer(num(0)),
        Choice::Float(1.5f64.to_bits()),
        Choice::Bytes(vec![0; 40]),
        text("h\u{e9}llo \u{1F600}"),
    ];
    assert!(can_encode(&all));
    let bytes = encode_choices(&all);
    let back = decode(&bytes).unwrap();
    assert!(choices_equal(&all, &back));
    let total: u64 = all.iter().map(one_choice_size).sum();
    assert_eq!(total, bytes.len() as u64);
}

#[test]
fn bytes_of_choices_are_fixed() {
    let mut out = vec![];
    encode_choice(&Choice::Boolean(true), &mut out);
    assert_eq!(out, vec![1]);
    out.clear();
    encode_choice(&Choice::Integer(num(1)), &mut out);
    assert_eq!(out, vec![0b010_00001, 1]);
    out.clear();
    encode_choice(&Choice::Float(1.0f64.to_bits()), &mut out);
    assert_eq!(out, vec![0b001_01000, 0x3F, 0xF0, 0, 0, 0, 0, 0, 0]);
    out.clear();
    encode_choice(&Choice::Bytes(vec![9; 40]), &mut out);
    assert_eq!(&out[..2], &[0b011_11111, 40]);
}

#[test]
fn broken_bytes_are_refused() {
    assert!(matches!(decode(&vec![0b001_00001, 0]), Err(DecodeError::ExpectedFloat)));
    assert!(matches!(decode(&vec![0b010_00101, 1]), Err(DecodeError::Truncated)));
    assert!(matches!(decode(&vec![0b101_00000]), Err(DecodeError::BadTag)));
    assert!(matches!(decode(&vec![0b100_00001, 0xFF]), Err(DecodeError::BadText)));
    assert!(choices_from_bytes(&vec![0b010_00101, 1]).is_none());
    assert!(choices_from_bytes(&vec![]).unwrap().is_empty());
}

#[test]
fn saved_examples_are_kept_in_order() {
    let mut db = InMemoryExampleDatabase::new();
    let key = vec![1u8];
    db.save(&key, &vec![2, 2]);
    db.save(&key, &vec![1]);
    db.save(&key, &vec![2]);
    db.save(&key, &vec![1]);
    assert_eq!(db.fetch(&key), vec![vec![1], vec![2], vec![2, 2]]);
    db.delete(&key, &vec![2]);
    assert_eq!(db.fetch(&key), vec![vec![1], vec![2, 2]]);
    assert!(db.fetch(&vec![9]).is_empty());
}

#[test]
fn saved_examples_are_moved() {
    let mut db = InMemoryExampleDatabase::new();
    db.save(&vec![1], &vec![5]);
    db.move_value(&vec![1], &vec![2], &vec![5]);
    assert!(db.fetch(&vec![1]).is_empty());
    assert_eq!(db.fetch(&vec![2]), vec![vec![5]]);
    db.move_value(&vec![1], &vec![2], &vec![7]);
    assert_eq!(db.fetch(&vec![2]), vec![vec![5], vec![7]]);
}

#[test]
fn bytes_are_ordered() {
    assert!(bytes_before(&vec![1], &vec![1, 0]));
    assert!(bytes_before(&vec![1, 9], &vec![2]));
    assert!(!bytes_before(&vec![1], &vec![1]));
}

#[test]
fn shorter_choices_are_simpler() {
    let one = vec![Choice::Integer(num(100))];
    let two = vec![Choice::Integer(num(0)), Choice::Integer(num(0))];
    assert_eq!(choices_lt(&one, &two).ok(), Some(true));
    assert_eq!(choices_lt(&two, &one).ok(), Some(false));
    let less = vec![Choice::Integer(num(99))];
    assert_eq!(choices_lt(&less, &one).ok(), Some(true));
    assert_eq!(choices_lt(&one, &one).ok(), Some(false));
    assert!(choices_lt(&vec![Choice::Bytes(vec![1])], &one).is_err());
}

#[test]
fn interval_sets_hold_their_members() {
    let s = IntervalSet::of_intervals(vec![(10, 12), (1, 3), (4, 5)]);
    assert_eq!(s.intervals, vec![(1, 5), (10, 12)]);
    assert_eq!(s.alphabet_len(), 8);
    assert!(s.contains_cp(11));
    assert!(!s.contains_cp(6));
    assert_eq!(s.ordinal_of(10), Ok(5));
    assert_eq!(s.ordinal_of(7), Err(IntervalError::NotInList { value: 7 }));
    assert_eq!(s.getitem(0), Ok(1));
    assert_eq!(s.getitem(7), Ok(12));
    assert_eq!(s.getitem(-1), Ok(12));
    assert_eq!(s.getitem(8), Err(IntervalError::InvalidIndex { index: 8, size: 8 }));
    assert_eq!(s.index_above(6), 5);
}

#[test]
fn interval_sets_are_combined() {
    let a = IntervalSet::of_intervals(vec![(0, 10), (20, 30)]);
    let b = IntervalSet::of_intervals(vec![(5, 25)]);
    assert_eq!(a.union(&b).intervals, vec![(0, 30)]);
    assert_eq!(a.difference(&b).intervals, vec![(0, 4), (26, 30)]);
    assert_eq!(a.intersection(&b).intervals, vec![(5, 10), (20, 25)]);
    assert_eq!(
        a.difference(&b).alphabet_len() + a.intersection(&b).alphabet_len(),
        a.alphabet_len()
    );
    let far = IntervalSet::checked(vec![(1 << 61, (1 << 61) + 4)]).unwrap();
    assert_eq!(far.alphabet_len(), 5);
    assert!(IntervalSet::checked(vec![(4, 3)]).is_none());
    let s = IntervalSet::from_string(&vec![98, 97, 120, 97]);
    assert_eq!(s.intervals, vec![(97, 98), (120, 120)]);
    assert!(s.equal(&s.copy()));
    assert!(!s.equal(&a));
}

#[test]
fn interval_sets_are_walked() {
    let s = IntervalSet::of_intervals(vec![(1, 2), (5, 6)]);
    let mut it = s.iter();
    let mut seen = vec![];
    while let Some(x) = it.advance() {
        seen.push(x);
    }
    assert_eq!(seen, vec![1, 2, 5, 6]);
}

#[test]
fn digits_come_first_when_shrinking() {
    let s = IntervalSet::of_intervals(vec![(32, 126)]);
    assert_eq!(s.shrink_order_index_of_cp(48), Ok(0));
    assert_eq!(s.cp_in_shrink_order(0), Ok(48));
    assert_eq!(s.cp_in_shrink_order(1), Ok(49));
    for i in 0..95i64 {
        let c = s.cp_in_shrink_order(i).unwrap();
        assert_eq!(s.shrink_order_index_of_cp(c), Ok(i));
    }
    assert!(s.shrink_order_index_of_cp(10).is_err());
}
