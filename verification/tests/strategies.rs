use hypothesis_fast::arguments::{
    check_ordered_sample, check_strategy, collection_sizes, deferred_invalid,
    deferred_resolution_failed, invalid_argument, is_strategy, not_a_first_class_strategy,
    parse_size, resolution_failed_err, strat_is_empty, take_strategies, Kind, Mistake, Sample,
    SizeArg, StrategyArg,
};
use hypothesis_fast::builds::{builds, Target};
use hypothesis_fast::calendar::{
    date_inject_candidates, ordinal_of, td_to_us, time_from_us, time_to_us, year_of, TimeOfDay,
};
use hypothesis_fast::combine::{
    as_filter_node, base_is_list, build_typed_collection, chain_filter_node, example_again,
    example_allowed, example_warns, filter, flatmap_strategy, flatten_filtered, map_strategy,
    or_strategies, pack_is_collection_ish, rebuild_collection_node, shown_max_size,
    try_regex_rewrite, unchain, unwrap_wrapped, warn_suspicious_string_method, CaseMethod,
    ExampleError, Form, Pack, PatternMethod, RegexPlan, Surroundings,
};
use hypothesis_fast::constructors::{
    binary, check_bool_flag, check_dt_type, complex_numbers, dates, datetimes, dictionaries,
    dt_attr, fixed_dictionaries, frozensets, ip_addresses, iterables, permutations, randoms,
    recursion_depth, recursive_layer, sets, timedeltas, times, uuids, DtClass, FlagArg,
    MappingArg, MappingEntry, Moment, NetworkArg, Span,
};
use hypothesis_fast::filters::{
    analyze_coll_filter, coll_class_filter_set, CollRw, Comparison, Condition, FloatConditions,
    IntegerBounds, MathTest,
};
use hypothesis_fast::integer::Int;
use hypothesis_fast::nodes::{
    filter_rewrite_empty, node_has_reusable_values, node_is_empty, node_validate, validate_child,
    Facts, Names,
};
use hypothesis_fast::repr::{child_repr, fn_repr, nice_repr, record_filter_retry_event, repr_node};
use hypothesis_fast::scalars::{
    coerce_float_bound, coerce_integer_bound, decimals, finite_unique_domain, floats_params,
    fractions, integers, lists, one_of, ordered_int_domain, sampled_from, sampled_from_len, slices,
    tuples, unpacks, DenominatorArg, EndPoint, FloatsArgs, FloatsError, FractionArg, ListsArgs,
    Narrowed, SampleSource, UniqueBy,
};
use hypothesis_fast::strategy::{Atom, Ratio, StrategyNode, COLLECTION_DEFAULT_MAX_SIZE};

fn num(v: i64) -> Int {
    Int::of(v)
}

fn ints(lo: i64, hi: i64) -> StrategyNode {
    StrategyNode::Integers { min: Some(num(lo)), max: Some(num(hi)) }
}

fn names() -> Names {
    Names {
        objects: vec!["'a'".to_string(), "<obj>".to_string()],
        types: vec!["str".to_string(), "Thing".to_string()],
        functions: vec!["f".to_string(), "lambda x: x > 3".to_string()],
    }
}

fn facts() -> Facts {
    Facts { thunks: vec![], emptying: vec![] }
}

fn shown(n: &StrategyNode) -> String {
    repr_node(n, &names())
}

fn says(n: &StrategyNode) -> &str {
    match n {
        StrategyNode::Invalid { msg, .. } => msg,
        _ => panic!("a mistake was expected"),
    }
}

fn condition(id: u64) -> Condition {
    Condition {
        id,
        math: None,
        integer: None,
        float: None,
        date: None,
        identity: false,
        nonempty: false,
        content: false,
    }
}

fn bounded(id: u64, min: Option<i64>, max: Option<i64>, len: bool) -> Condition {
    let mut c = condition(id);
    c.integer = Some(IntegerBounds {
        min: min.map(num),
        max: max.map(num),
        len,
        remainder: None,
    });
    c
}

#[test]
fn sizes_are_parsed() {
    assert_eq!(parse_size(&SizeArg::Absent, "min_size", 4), Ok(4));
    assert_eq!(parse_size(&SizeArg::Number(3), "min_size", 4), Ok(3));
    assert_eq!(
        parse_size(&SizeArg::Number(-3), "min_size", 4),
        Err("min_size=-3 must be non-negative".to_string())
    );
    assert_eq!(
        parse_size(&SizeArg::Other("'x'".to_string()), "max_size", 4),
        Err("max_size='x' must be an integer or None".to_string())
    );
}

#[test]
fn collection_sizes_are_checked() {
    let n = |v| SizeArg::Number(v);
    let ok = collection_sizes(&n(1), &SizeArg::Absent, Kind::Lists, false, "x");
    assert_eq!(ok, Ok((1, COLLECTION_DEFAULT_MAX_SIZE)));
    assert_eq!(
        collection_sizes(&n(3), &n(2), Kind::Lists, false, "x"),
        Err("min_size=3 cannot be greater than max_size=2".to_string())
    );
    assert_eq!(
        collection_sizes(&n(9000), &SizeArg::Absent, Kind::Sets, false, "x"),
        Err(
            "Cannot create a sets of min_size=9000: it can never generate an example, because \
             min_size is larger than the maximum buffer size 8192"
                .to_string()
        )
    );
    assert_eq!(
        collection_sizes(&n(1), &SizeArg::Absent, Kind::Lists, true, "nothing()"),
        Err(
            "Cannot create non-empty lists with elements drawn from strategy nothing() because \
             it has no values"
                .to_string()
        )
    );
    assert_eq!(
        collection_sizes(&SizeArg::Absent, &n(2), Kind::Frozensets, true, "nothing()"),
        Err(
            "Cannot create a frozensets of max_size=2, because no elements can be drawn from the \
             element strategy nothing()"
                .to_string()
        )
    );
    assert_eq!(collection_sizes(&SizeArg::Absent, &n(2), Kind::Text, true, ""), Ok((0, 2)));
}

#[test]
fn mistakes_have_their_kind() {
    assert_eq!(invalid_argument("x".to_string()).kind, Mistake::InvalidArgument);
    assert_eq!(resolution_failed_err("x".to_string()).kind, Mistake::ResolutionFailed);
    assert!(not_a_first_class_strategy("map").msg.starts_with("Cannot call map on a DataStrategy."));
    assert!(matches!(
        deferred_resolution_failed("m".to_string()),
        StrategyNode::Invalid { resolution_failed: true, .. }
    ));
    assert!(matches!(
        deferred_invalid("m".to_string()),
        StrategyNode::Invalid { resolution_failed: false, .. }
    ));
}

fn stranger(shown: &str, of_type: &str) -> StrategyArg {
    StrategyArg::Other { shown: shown.to_string(), of_type: of_type.to_string() }
}

#[test]
fn strangers_are_refused() {
    assert!(is_strategy(&StrategyArg::Strategy(StrategyNode::Booleans)));
    assert!(!is_strategy(&stranger("1", "int")));
    let e = check_strategy(&stranger("1", "int"), "lists() elements").err().unwrap();
    assert_eq!(e.msg, "Expected a SearchStrategy but got lists() elements=1 (type=int)");
    let args = vec![StrategyArg::Strategy(StrategyNode::Booleans), stranger("1", "int")];
    assert!(take_strategies(args, "x=").is_err());
    let e = tuples(vec![stranger("1", "int")]).err().unwrap();
    assert_eq!(e.msg, "Expected a SearchStrategy but got tuples() argument=1 (type=int)");
}

#[test]
fn samples_need_an_order() {
    assert!(check_ordered_sample(Sample::Ordered, "[]", "sampled_from").is_ok());
    assert!(check_ordered_sample(Sample::Array(1), "a", "sampled_from").is_ok());
    let e = check_ordered_sample(Sample::Array(2), "a", "sampled_from").err().unwrap();
    assert!(e.msg.contains("2-dimensional array"));
    let e = check_ordered_sample(Sample::Unordered, "{1}", "sampled_from").err().unwrap();
    assert!(e.msg.starts_with("Cannot sample from {1}, not an ordered collection."));
}

#[test]
fn integer_strategies_check_their_bounds() {
    assert!(matches!(integers(Some(num(1)), Some(num(1))), StrategyNode::Integers { .. }));
    let bad = integers(Some(num(2)), Some(num(1)));
    assert_eq!(says(&bad), "min_value=2 cannot be greater than max_value=1");
}

fn end_point(itself: bool, truncated: Option<i64>, exact: bool) -> EndPoint {
    EndPoint {
        shown: "0.5".to_string(),
        of_type: "float".to_string(),
        itself,
        truncated: truncated.map(num),
        exact,
    }
}

#[test]
fn end_points_are_coerced() {
    let r = coerce_integer_bound(&end_point(true, Some(4), true), "min_value").unwrap();
    assert_eq!(r.to_i64(), Some(4));
    let e = coerce_integer_bound(&end_point(true, Some(0), false), "min_value").err().unwrap();
    assert_eq!(
        e.msg,
        "min_value=0.5 of type float cannot be exactly represented as an integer."
    );
    let e = coerce_integer_bound(&end_point(false, None, false), "min_value").err().unwrap();
    assert_eq!(e.msg, "Invalid end point min_value=0.5");
    assert_eq!(coerce_float_bound(Some(3), "x", "min_value").ok(), Some(3));
    let e = coerce_float_bound(None, "'x'", "min_value").err().unwrap();
    assert_eq!(e.msg, "min_value='x' must be a real number.");
}

fn float_args() -> FloatsArgs {
    FloatsArgs {
        min: None,
        max: None,
        allow_nan: None,
        allow_infinity: None,
        allow_subnormal: None,
        width: 64,
        exclude_min: false,
        exclude_max: false,
    }
}

fn not_narrow() -> Narrowed {
    Narrowed { min: 0, max: 0, above_min: 0, below_max: 0 }
}

fn bits(f: f64) -> Option<u64> {
    Some(f.to_bits())
}

#[test]
fn floats_have_defaults() {
    match floats_params(&float_args(), &not_narrow()).unwrap() {
        StrategyNode::Floats { min, max, allow_nan, allow_inf, snm, width } => {
            assert_eq!(min, f64::NEG_INFINITY.to_bits());
            assert_eq!(max, f64::INFINITY.to_bits());
            assert!(allow_nan && allow_inf);
            assert_eq!((snm, width), (1, 64));
        }
        _ => panic!("floats were expected"),
    }
}

#[test]
fn excluded_bounds_are_moved() {
    let a = FloatsArgs { min: bits(0.0), max: bits(1.0), exclude_min: true, ..float_args() };
    match floats_params(&a, &not_narrow()).unwrap() {
        StrategyNode::Floats { min, max, allow_nan, allow_inf, .. } => {
            assert_eq!(min, 1);
            assert_eq!(max, 1.0f64.to_bits());
            assert!(!allow_nan && !allow_inf);
        }
        _ => panic!("floats were expected"),
    }
}

#[test]
fn mistaken_floats_are_refused() {
    let n = not_narrow();
    let e = |a: FloatsArgs| floats_params(&a, &n).err().unwrap();
    let a = float_args();
    assert_eq!(e(FloatsArgs { width: 17, ..a }), FloatsError::Width { width: 17 });
    assert_eq!(e(FloatsArgs { min: bits(f64::NAN), ..a }), FloatsError::MinIsNan);
    assert_eq!(e(FloatsArgs { max: bits(f64::NAN), ..a }), FloatsError::MaxIsNan);
    assert_eq!(
        e(FloatsArgs { min: bits(1.0), allow_nan: Some(true), ..a }),
        FloatsError::NanWithBounds
    );
    assert_eq!(
        e(FloatsArgs { exclude_min: true, ..a }),
        FloatsError::CannotExcludeMin { given: None }
    );
    assert_eq!(
        e(FloatsArgs { exclude_max: true, ..a }),
        FloatsError::CannotExcludeMax { given: None }
    );
    assert!(matches!(
        e(FloatsArgs { min: bits(2.0), max: bits(1.0), ..a }),
        FloatsError::NothingBetween { .. }
    ));
    assert!(matches!(
        e(FloatsArgs { min: bits(0.0), max: bits(-0.0), ..a }),
        FloatsError::NothingBetween { .. }
    ));
    assert_eq!(
        e(FloatsArgs { min: bits(0.0), max: bits(1.0), allow_infinity: Some(true), ..a }),
        FloatsError::InfinityWithBounds
    );
    assert_eq!(
        e(FloatsArgs { min: bits(f64::INFINITY), allow_infinity: Some(false), ..a }),
        FloatsError::InfinityExcludesMin
    );
    assert_eq!(
        e(FloatsArgs { max: bits(f64::NEG_INFINITY), allow_infinity: Some(false), ..a }),
        FloatsError::InfinityExcludesMax
    );
    assert_eq!(
        e(FloatsArgs {
            min: bits(f64::MAX),
            exclude_min: true,
            allow_infinity: Some(false),
            ..a
        }),
        FloatsError::ExcludingMinIsInfinite { value: f64::MAX.to_bits() }
    );
    assert_eq!(
        e(FloatsArgs {
            max: bits(-f64::MAX),
            exclude_max: true,
            allow_infinity: Some(false),
            ..a
        }),
        FloatsError::ExcludingMaxIsInfinite { value: (-f64::MAX).to_bits() }
    );
    assert!(matches!(
        e(FloatsArgs { min: bits(1.0), allow_subnormal: Some(true), ..a }),
        FloatsError::SubnormalsBelowMin { .. }
    ));
    assert!(matches!(
        e(FloatsArgs { max: bits(-1.0), allow_subnormal: Some(true), ..a }),
        FloatsError::SubnormalsAboveMax { .. }
    ));
}

#[test]
fn narrow_floats_must_be_exact() {
    let a = FloatsArgs { min: bits(0.1), width: 16, ..float_args() };
    let nearest = 0.0999755859375f64.to_bits();
    let n = Narrowed { min: nearest, max: 0, above_min: 0, below_max: 0 };
    let e = floats_params(&a, &n).err().unwrap();
    assert_eq!(e, FloatsError::MinNotExact { value: 0.1f64.to_bits(), nearest, width: 16 });
    assert_eq!(
        e.message("0.1", "0.0999755859375"),
        "min_value=0.1 cannot be exactly represented as a float of width 16 - use \
         min_value=0.0999755859375 instead."
    );
    let a = FloatsArgs { max: bits(1e300), width: 32, ..float_args() };
    let n = Narrowed { min: 0, max: f64::INFINITY.to_bits(), above_min: 0, below_max: 0 };
    assert_eq!(floats_params(&a, &n).err().unwrap(), FloatsError::OutOfRange { width: 32 });
    let a = FloatsArgs { max: bits(0.1), width: 16, ..float_args() };
    let n = Narrowed { min: 0, max: nearest, above_min: 0, below_max: 0 };
    assert!(matches!(floats_params(&a, &n), Err(FloatsError::MaxNotExact { .. })));
}

#[test]
fn float_mistakes_are_explained() {
    let e = FloatsError::NothingBetween {
        min: 0,
        max: 0,
        width: 64,
        exclude_min: true,
        exclude_max: false,
    };
    assert_eq!(
        e.message("2.0", "1.0"),
        "There are no 64-bit floating-point values between min_value=2.0 and max_value=1.0, \
         exclude_min=True and exclude_max=False"
    );
    assert_eq!(
        FloatsError::Width { width: 7 }.message("", ""),
        "Got width=7, but the only valid values are the integers 16, 32, and 64."
    );
    assert_eq!(FloatsError::CannotExcludeMin { given: None }.message("None", ""),
        "Cannot exclude min_value=None");
}

fn source(elements: Vec<Atom>) -> SampleSource {
    SampleSource {
        sample: Sample::Ordered,
        shown: "[...]".to_string(),
        range: None,
        elements,
        is_tuple: false,
        zero_flag: None,
        annotated: None,
    }
}

#[test]
fn samples_are_taken() {
    let s = sampled_from(source(vec![Atom::Int(1), Atom::Int(2)])).unwrap();
    assert_eq!(sampled_from_len(&s), Some(2));
    let twice = sampled_from(source(vec![Atom::Int(0), Atom::Int(0), Atom::Int(1)])).unwrap();
    assert_eq!(sampled_from_len(&twice), Some(2));
    assert_eq!(sampled_from_len(&ints(0, 1)), None);
    assert_eq!(shown(&s), "sampled_from([1, 2])");
    let empty = sampled_from(source(vec![])).unwrap();
    assert_eq!(says(&empty), "Cannot sample from a length-zero sequence.");
    let mut flags = source(vec![]);
    flags.zero_flag = Some(Atom::Host(1));
    assert_eq!(sampled_from_len(&sampled_from(flags).unwrap()), Some(1));
    let mut annotated = source(vec![]);
    annotated.annotated = Some("m.E".to_string());
    assert!(says(&sampled_from(annotated).unwrap()).starts_with("Cannot sample from m.E because"));
    let mut range = source(vec![]);
    range.range = Some((num(0), num(10), num(2), num(5)));
    assert!(matches!(sampled_from(range), Ok(StrategyNode::SampledFromRange { .. })));
    let mut wrong = source(vec![]);
    wrong.sample = Sample::Unordered;
    assert!(sampled_from(wrong).is_err());
}

#[test]
fn one_of_several_strategies_is_taken() {
    let two = one_of(
        vec![
            StrategyArg::Strategy(StrategyNode::Booleans),
            StrategyArg::Strategy(StrategyNode::NoneVal),
        ],
        "[...]",
    );
    assert_eq!(shown(&two.unwrap()), "one_of(booleans(), none())");
    let one = one_of(vec![StrategyArg::Strategy(StrategyNode::Booleans)], "[...]").unwrap();
    assert!(matches!(one, StrategyNode::Booleans));
    let e = one_of(vec![stranger("1", "int")], "[1]").err().unwrap();
    assert_eq!(e.msg, "Did you mean st.sampled_from([1])?");
    let e = one_of(
        vec![StrategyArg::Strategy(StrategyNode::Booleans), stranger("1", "int")],
        "[...]",
    );
    assert_eq!(e.err().unwrap().msg, "Expected a SearchStrategy but got 1 (type=int)");
    assert!(unpacks(1, false, true));
    assert!(!unpacks(1, true, true));
}

fn lists_args(min: i64, unique: bool) -> ListsArgs {
    ListsArgs {
        min_size: SizeArg::Number(min),
        max_size: SizeArg::Absent,
        unique_by: None,
        unique,
        identity: 0,
        wide: 1000,
        elem_repr: "integers()".to_string(),
    }
}

#[test]
fn small_domains_lead_away_from_zero() {
    let v = |a, b| -> Vec<i64> {
        ordered_int_domain(&num(a), &num(b)).iter().map(|n| n.to_i64().unwrap()).collect()
    };
    assert_eq!(v(-2, 3), vec![0, 1, -1, 2, -2, 3]);
    assert_eq!(v(-4, 1), vec![0, 1, -1, -2, -3, -4]);
    assert_eq!(v(0, 2), vec![0, 1, 2]);
    assert_eq!(v(4, 6), vec![4, 5, 6]);
    assert_eq!(v(-6, -4), vec![-4, -5, -6]);
    assert!(v(3, 2).is_empty());
    let d = finite_unique_domain(&ints(-1, 1), 0).unwrap();
    assert_eq!(d, vec![Atom::Int(0), Atom::Int(1), Atom::Int(-1)]);
    assert!(finite_unique_domain(&ints(0, 300), 0).is_none());
    let far = Int::of(i64::MAX);
    let wide = StrategyNode::Integers { min: Some(far.clone()), max: Some(far.plus(&num(1))) };
    let d = finite_unique_domain(&wide, 70).unwrap();
    assert_eq!(d, vec![Atom::Int(i64::MAX), Atom::Host(71)]);
}

#[test]
fn unique_lists_are_limited_by_their_domain() {
    let l = lists(StrategyArg::Strategy(ints(0, 2)), &lists_args(1, true), &facts()).unwrap();
    match l {
        StrategyNode::Lists { min, max, unique_by, swap_domain, .. } => {
            assert_eq!((min, max), (1, 3));
            assert_eq!(unique_by, vec![0]);
            assert_eq!(swap_domain.unwrap().len(), 3);
        }
        _ => panic!("lists were expected"),
    }
    let bad = lists(StrategyArg::Strategy(ints(0, 2)), &lists_args(4, true), &facts()).unwrap();
    assert_eq!(
        says(&bad),
        "Cannot create a collection of min_size=4 unique elements with values drawn from only 3 \
         distinct elements"
    );
}

#[test]
fn repeated_samples_count_once() {
    let s = || sampled_from(source(vec![Atom::Int(0), Atom::Int(0), Atom::Int(1)])).unwrap();
    let l = lists(StrategyArg::Strategy(s()), &lists_args(1, true), &facts()).unwrap();
    assert!(matches!(l, StrategyNode::Lists { min: 1, max: 2, .. }));
    let bad = lists(StrategyArg::Strategy(s()), &lists_args(3, true), &facts()).unwrap();
    assert_eq!(
        says(&bad),
        "Cannot create a collection of min_size=3 unique elements with values drawn from only 2 \
         distinct elements"
    );
}

#[test]
fn lists_check_their_arguments() {
    let plain = lists(StrategyArg::Strategy(ints(0, 2)), &lists_args(0, false), &facts()).unwrap();
    assert_eq!(shown(&plain), "lists(integers(0, 2))");
    let mut both = lists_args(0, true);
    both.unique_by = Some(UniqueBy { shown: "f".to_string(), funcs: vec![(1, true)] });
    let r = lists(StrategyArg::Strategy(ints(0, 2)), &both, &facts()).unwrap();
    assert!(says(&r).starts_with("Cannot pass both unique and unique_by"));
    let mut wrong = lists_args(0, false);
    wrong.unique_by = Some(UniqueBy { shown: "()".to_string(), funcs: vec![] });
    let e = lists(StrategyArg::Strategy(ints(0, 2)), &wrong, &facts()).err().unwrap();
    assert_eq!(e.msg, "unique_by=() must be a callable or a (non-empty) tuple of callables.");
    assert!(lists(stranger("1", "int"), &lists_args(0, false), &facts()).is_err());
    let it = iterables(StrategyArg::Strategy(ints(0, 2)), &lists_args(0, false), &facts(), 9);
    assert!(matches!(it, Ok(StrategyNode::Mapped { func: 9, .. })));
}

#[test]
fn slices_and_fractions_check_their_arguments() {
    assert!(matches!(slices(Some(3), "3"), Ok(StrategyNode::Slices { size: 3 })));
    let e = slices(Some(-1), "-1").err().unwrap();
    assert_eq!(e.msg, "Expected size to be a non-negative integer, but got -1");
    let half = || FractionArg::Value {
        ratio: Ratio { num: num(1), den: num(2) },
        shown: "Fraction(1, 2)".to_string(),
    };
    let third = || FractionArg::Value {
        ratio: Ratio { num: num(1), den: num(3) },
        shown: "Fraction(1, 3)".to_string(),
    };
    assert!(fractions(third(), half(), &DenominatorArg::Absent).is_ok());
    let e = fractions(half(), third(), &DenominatorArg::Absent).err().unwrap();
    assert_eq!(
        e.msg,
        "min_value=Fraction(1, 2) cannot be greater than max_value=Fraction(1, 3)"
    );
    let e = fractions(half(), FractionArg::Absent, &DenominatorArg::Number(1)).err().unwrap();
    assert_eq!(
        e.msg,
        "The min_value=Fraction(1, 2) has a denominator greater than the max_denominator=1"
    );
    let e = fractions(FractionArg::Absent, FractionArg::Absent, &DenominatorArg::Number(0));
    assert!(e.err().unwrap().msg.starts_with("max_denominator=0 must be >= 1"));
    let e = fractions(
        FractionArg::Other("'x'".to_string()),
        FractionArg::Absent,
        &DenominatorArg::Absent,
    );
    assert_eq!(e.err().unwrap().msg, "Cannot convert min_value='x' to a Fraction.");
    let e = fractions(
        FractionArg::Absent,
        FractionArg::Absent,
        &DenominatorArg::Other("1.5".to_string()),
    );
    assert_eq!(e.err().unwrap().msg, "max_denominator=1.5 must be an integer.");
    assert!(matches!(decimals(None, None, Some(2)), StrategyNode::Decimals { places: Some(2), .. }));
}

#[test]
fn sets_and_dictionaries_are_made() {
    let none = SizeArg::Absent;
    let s = sets(ints(0, 2), &none, &none, "integers()", &facts());
    assert!(matches!(s, StrategyNode::Sets { frozen: false, .. }));
    let s = frozensets(ints(0, 2), &none, &none, "integers()", &facts());
    assert!(matches!(s, StrategyNode::Sets { frozen: true, .. }));
    let s = sets(StrategyNode::Nothing, &SizeArg::Number(1), &none, "nothing()", &facts());
    assert!(says(&s).starts_with("Cannot create non-empty sets"));
    let d = dictionaries(
        StrategyArg::Strategy(ints(0, 2)),
        StrategyArg::Strategy(StrategyNode::Booleans),
        &none,
        &SizeArg::Number(4),
        "integers()",
        &facts(),
    );
    assert!(matches!(d, Ok(StrategyNode::Dictionaries { max: 4, .. })));
    let d = dictionaries(
        stranger("1", "int"),
        StrategyArg::Strategy(StrategyNode::Booleans),
        &none,
        &none,
        "1",
        &facts(),
    );
    assert_eq!(
        d.err().unwrap().msg,
        "Expected a SearchStrategy but got dictionaries() keys=1 (type=int)"
    );
    assert!(matches!(binary(&SizeArg::Number(2), &none), StrategyNode::Binary { min: 2, .. }));
}

fn mapping(entries: Vec<MappingEntry>) -> MappingArg {
    MappingArg { is_dict: true, shown: "{}".to_string(), of_type: "dict".to_string(), entries }
}

fn entry(key: i64, in_other: bool, value: StrategyArg) -> MappingEntry {
    MappingEntry { key: Atom::Int(key), key_shown: key.to_string(), in_other, value }
}

#[test]
fn fixed_dictionaries_check_their_mappings() {
    let good = || StrategyArg::Strategy(StrategyNode::Booleans);
    let r = fixed_dictionaries(mapping(vec![entry(1, false, good())]), &None, true).unwrap();
    match r {
        StrategyNode::FixedDict { items } => assert_eq!(items[0].key, Atom::Int(1)),
        _ => panic!("a fixed dictionary was expected"),
    }
    let mut wrong = mapping(vec![]);
    wrong.is_dict = false;
    let e = fixed_dictionaries(wrong, &None, true).err().unwrap();
    assert_eq!(e.msg, "mapping={} must be a dict mapping keys to strategies.");
    let twice = Some(mapping(vec![entry(1, true, good())]));
    let e = fixed_dictionaries(mapping(vec![]), &twice, true).err().unwrap();
    assert!(e.msg.ends_with("which is invalid: {1}"));
    let other = Some(mapping(vec![]));
    let e = fixed_dictionaries(mapping(vec![]), &other, false).err().unwrap();
    assert_eq!(e.msg, "Got arguments of different types: mapping=dict, optional=dict");
    let e = fixed_dictionaries(mapping(vec![entry(1, false, stranger("1", "int"))]), &None, true);
    assert_eq!(
        e.err().unwrap().msg,
        "Expected a SearchStrategy but got fixed_dictionaries() value=1 (type=int)"
    );
}

#[test]
fn flags_and_identifiers_are_checked() {
    assert_eq!(check_bool_flag(&FlagArg::Absent, true, "x").ok(), Some(true));
    let e = check_bool_flag(&FlagArg::Other("0".to_string()), true, "x").err().unwrap();
    assert_eq!(e.msg, "Expected x to be a bool, but got 0");
    assert!(matches!(
        randoms(&FlagArg::Flag(true), &FlagArg::Absent),
        Ok(StrategyNode::Randoms { note_method_calls: true, use_true_random: false })
    ));
    assert!(randoms(&FlagArg::Absent, &FlagArg::Other("1".to_string())).is_err());
    assert!(uuids(Some(4), &FlagArg::Absent).is_ok());
    let e = uuids(Some(6), &FlagArg::Absent).err().unwrap();
    assert_eq!(e.msg, "version=6 is not valid; use a version between 1 and 5, or None");
    let e = uuids(Some(4), &FlagArg::Flag(true)).err().unwrap();
    assert_eq!(e.msg, "The nil UUID is not of any version, so you must use version=None");
    let e = uuids(None, &FlagArg::Other("3".to_string())).err().unwrap();
    assert_eq!(e.msg, "allow_nil must be a boolean value, got allow_nil=3");
    assert!(matches!(complex_numbers(None), StrategyNode::ComplexNumbers { allow_nan: true }));
}

#[test]
fn addresses_are_checked() {
    let net = |version| NetworkArg::Known {
        version,
        shown: "net".to_string(),
        first: num(16),
        last: num(31),
    };
    match ip_addresses(&SizeArg::Absent, net(4)).unwrap() {
        StrategyNode::IpAddresses { v6, net_range } => {
            assert_eq!(v6, Some(false));
            assert_eq!(net_range.unwrap().1.to_i64(), Some(31));
        }
        _ => panic!("addresses were expected"),
    }
    let e = ip_addresses(&SizeArg::Number(6), net(4)).err().unwrap();
    assert_eq!(e.msg, "v=6 is incompatible with network=net");
    let e = ip_addresses(&SizeArg::Number(5), NetworkArg::Absent).err().unwrap();
    assert_eq!(e.msg, "v=5, but only v=4 or v=6 are valid.");
    let e = ip_addresses(&SizeArg::Other("'4'".to_string()), NetworkArg::Absent).err().unwrap();
    assert_eq!(e.msg, "v='4', but only v=4 or v=6 are valid.");
    let e = ip_addresses(&SizeArg::Absent, NetworkArg::Unknown("b''".to_string()));
    assert_eq!(e.err().unwrap().msg, "network=b'' is not a valid IP network.");
}

fn moment(key: i64, proper: bool) -> Moment {
    Moment {
        object: Atom::Host(key as u64),
        shown: format!("m{key}"),
        proper,
        key: num(key),
        part: key,
    }
}

fn span(min: Option<Moment>, max: Option<Moment>) -> Span {
    Span { min, max, first: Atom::Host(100), last: Atom::Host(200) }
}

#[test]
fn moments_are_checked() {
    let r = dates(&span(Some(moment(5, true)), None)).unwrap();
    assert!(matches!(r, StrategyNode::Dates { min_ord: 5, max_ord: 3_652_059 }));
    let r = dates(&span(Some(moment(5, true)), Some(moment(5, true)))).unwrap();
    assert!(matches!(r, StrategyNode::Just(Atom::Host(5))));
    let e = dates(&span(Some(moment(6, true)), Some(moment(5, true)))).err().unwrap();
    assert_eq!(e.msg, "Cannot have max_value=m5 < min_value=m6");
    let e = dates(&span(Some(moment(6, false)), None)).err().unwrap();
    assert_eq!(e.msg, "Expected min_value to be a datetime.date, but got m6");
    let r = times(&span(None, None)).unwrap();
    assert!(matches!(r, StrategyNode::Times { min_us: 0, max_us: 86_399_999_999 }));
    let r = datetimes(&span(None, None), &FlagArg::Absent).unwrap();
    assert!(matches!(r, StrategyNode::Datetimes { min_ord: 1, max_ord: 3_652_059 }));
    assert!(datetimes(&span(None, None), &FlagArg::Other("0".to_string())).is_err());
    match timedeltas(&span(None, None)).unwrap() {
        StrategyNode::Timedeltas { min_us, max_us } => {
            assert_eq!(min_us.to_decimal(), "-86399999913600000000");
            assert_eq!(max_us.to_decimal(), "86399999999999999999");
        }
        _ => panic!("spans were expected"),
    }
    assert!(check_dt_type(&moment(1, true), DtClass::Time, "x").is_ok());
    assert_eq!(dt_attr(DtClass::Date, true).to_i64(), Some(3_652_059));
}

#[test]
fn days_are_counted() {
    assert_eq!(ordinal_of(1, 1, 1), 1);
    assert_eq!(ordinal_of(2000, 1, 1), 730_120);
    assert_eq!(ordinal_of(9999, 12, 31), 3_652_059);
    assert_eq!(year_of(730_120), 2000);
    assert_eq!(year_of(730_119), 1999);
    let found: Vec<i64> = date_inject_candidates(ordinal_of(2003, 6, 1), ordinal_of(2004, 12, 1))
        .iter()
        .map(|n| n.to_i64().unwrap())
        .collect();
    assert!(found.contains(&ordinal_of(2004, 2, 29)));
    assert!(found.contains(&ordinal_of(2003, 12, 31)));
    assert!(!found.contains(&ordinal_of(2003, 1, 1)));
    let t = TimeOfDay { hour: 1, minute: 2, second: 3, microsecond: 4 };
    assert_eq!(time_to_us(&t), 3_723_000_004);
    let back = time_from_us(3_723_000_004);
    assert_eq!((back.hour, back.minute, back.second, back.microsecond), (1, 2, 3, 4));
    assert_eq!(td_to_us(-1, 2, 3).to_i64(), Some(-86_397_999_997));
}

#[test]
fn recursion_goes_as_deep_as_its_leaves_need() {
    assert_eq!(recursion_depth(0), 1);
    assert_eq!(recursion_depth(2), 1);
    assert_eq!(recursion_depth(3), 2);
    assert_eq!(recursion_depth(50), 6);
    assert_eq!(recursion_depth(64), 6);
    assert_eq!(recursion_depth(u64::MAX), 64);
    let layer = recursive_layer(StrategyNode::Booleans, StrategyNode::NoneVal);
    assert_eq!(shown(&layer), "one_of(booleans(), none())");
}

fn pack(func: u64, is_type: bool, is_collection: bool, is_sorted: bool) -> Pack {
    Pack { func, is_type, is_collection, is_sorted }
}

#[test]
fn conditions_are_folded_into_integers() {
    let none = vec![];
    let r = filter(ints(0, 10), &bounded(1, Some(4), None, false), &none).unwrap();
    assert_eq!(shown(&r), "integers(4, 10)");
    let r = filter(ints(0, 10), &bounded(1, Some(40), None, false), &none).unwrap();
    assert!(matches!(r, StrategyNode::Nothing));
    let r = filter(ints(0, 10), &condition(1), &none).unwrap();
    assert!(matches!(r, StrategyNode::Filtered { func: 1, .. }));
    let mut finite = condition(1);
    finite.math = Some(MathTest::IsFinite);
    assert!(matches!(filter(ints(0, 1), &finite, &none), Ok(StrategyNode::Integers { .. })));
    assert!(filter(StrategyNode::Data, &condition(1), &none).is_err());
}

#[test]
fn conditions_are_folded_into_floats_and_dates() {
    let none = vec![];
    let all = || floats_params(&float_args(), &not_narrow()).unwrap();
    let mut c = condition(2);
    c.float = Some(FloatConditions { min: bits(1.0), max: None, remainder: None });
    match filter(all(), &c, &none).unwrap() {
        StrategyNode::Floats { min, allow_nan, allow_inf, .. } => {
            assert_eq!(min, 1.0f64.to_bits());
            assert!(!allow_nan && allow_inf);
        }
        _ => panic!("floats were expected"),
    }
    let open = StrategyNode::Floats {
        min: f64::NEG_INFINITY.to_bits(),
        max: f64::INFINITY.to_bits(),
        allow_nan: false,
        allow_inf: false,
        snm: 5e-324f64.to_bits(),
        width: 64,
    };
    match filter(open, &c, &none).unwrap() {
        StrategyNode::Floats { min, max, allow_inf, .. } => {
            assert_eq!((min, max), (1.0f64.to_bits(), f64::INFINITY.to_bits()));
            assert!(!allow_inf);
        }
        _ => panic!("floats were expected"),
    }
    let mut nan = condition(2);
    nan.math = Some(MathTest::IsNan);
    assert!(matches!(filter(all(), &nan, &none), Ok(StrategyNode::Just(_))));
    let mut inf = condition(2);
    inf.math = Some(MathTest::IsInf);
    assert!(matches!(filter(all(), &inf, &none), Ok(StrategyNode::SampledFrom { .. })));
    let mut day = condition(2);
    day.date = Some((Comparison::Lt, 100));
    let r = filter(StrategyNode::Dates { min_ord: 50, max_ord: 200 }, &day, &none).unwrap();
    assert!(matches!(r, StrategyNode::Dates { min_ord: 101, max_ord: 200 }));
}

#[test]
fn conditions_are_folded_into_sizes() {
    let none = vec![];
    let bytes = |min, max| StrategyNode::Binary { min, max };
    let r = filter(bytes(0, 9), &bounded(3, Some(2), Some(5), true), &none).unwrap();
    assert!(matches!(r, StrategyNode::Binary { min: 2, max: 5 }));
    let mut nonempty = condition(3);
    nonempty.nonempty = true;
    let r = filter(bytes(0, 9), &nonempty, &none).unwrap();
    assert!(matches!(r, StrategyNode::Binary { min: 1, max: 9 }));
    assert!(matches!(analyze_coll_filter(0, 9, false, &condition(3)), CollRw::Plain));
    assert!(matches!(
        analyze_coll_filter(0, 1, false, &bounded(3, Some(2), None, true)),
        CollRw::Plain
    ));
    assert!(matches!(analyze_coll_filter(0, 0, false, &nonempty), CollRw::Empty));
    assert!(coll_class_filter_set(&vec![4, 5], 5));
    let list = lists(StrategyArg::Strategy(ints(0, 2)), &lists_args(0, false), &facts()).unwrap();
    let mapped = map_strategy(list, 77, false).unwrap();
    let r = filter(mapped, &bounded(3, Some(2), None, true), &vec![pack(77, true, true, false)]).unwrap();
    match r {
        StrategyNode::Filtered { base, func: 3 } => match *base {
            StrategyNode::Mapped { base, func: 77 } => {
                assert!(matches!(*base, StrategyNode::Lists { min: 2, .. }));
            }
            _ => panic!("a mapped list was expected"),
        },
        _ => panic!("a filter was expected"),
    }
    let list = lists(StrategyArg::Strategy(ints(0, 2)), &lists_args(0, false), &facts()).unwrap();
    let summed = map_strategy(list, 77, false).unwrap();
    let c = bounded(3, Some(2), None, true);
    match filter(summed, &c, &vec![pack(77, false, false, false)]).unwrap() {
        StrategyNode::Filtered { base, func: 3 } => match *base {
            StrategyNode::Mapped { base, func: 77 } => {
                assert!(matches!(*base, StrategyNode::Lists { min: 0, .. }));
            }
            _ => panic!("a mapped list was expected"),
        },
        _ => panic!("a filter was expected"),
    }
}

#[test]
fn chains_of_filters_come_apart() {
    let c = chain_filter_node(ints(0, 9), &vec![4, 5]);
    let (_, f) = as_filter_node(&c).unwrap();
    assert_eq!(f, 5);
    let (base, funcs) = unchain(c);
    assert!(matches!(base, StrategyNode::Integers { .. }));
    assert_eq!(funcs, vec![4, 5]);
    let conds = vec![bounded(4, Some(2), None, false), condition(5)];
    let (base, left) = flatten_filtered(base, &conds, &vec![]).unwrap();
    assert_eq!(shown(&base), "integers(2, 9)");
    assert_eq!(left, vec![5]);
    let chain = chain_filter_node(ints(0, 9), &vec![4, 5]);
    let u = unwrap_wrapped(chain, &conds, &vec![]).unwrap();
    assert_eq!(u.form, Form::Filtered);
    assert_eq!(u.conditions, vec![5]);
    let u = unwrap_wrapped(StrategyNode::Binary { min: 0, max: 1 }, &vec![], &vec![]).unwrap();
    assert_eq!(u.form, Form::Bytes);
    assert_eq!(build_typed_collection(&ints(0, 1)), Form::Integers);
    assert_eq!(shown_max_size(Form::List, COLLECTION_DEFAULT_MAX_SIZE), None);
    assert_eq!(
        shown_max_size(Form::Bytes, COLLECTION_DEFAULT_MAX_SIZE),
        Some(COLLECTION_DEFAULT_MAX_SIZE)
    );
}

#[test]
fn strategies_are_combined() {
    let m = map_strategy(ints(0, 1), 1, true).unwrap();
    assert!(matches!(m, StrategyNode::Integers { .. }));
    assert!(map_strategy(StrategyNode::Data, 1, false).is_err());
    let f = flatmap_strategy(ints(0, 1), 1).unwrap();
    assert!(matches!(f, StrategyNode::Flatmapped { func: 1, .. }));
    assert!(flatmap_strategy(StrategyNode::Data, 1).is_err());
    let ab = or_strategies(StrategyNode::Booleans, StrategyNode::NoneVal);
    let abc = or_strategies(ab, StrategyNode::Nothing);
    assert_eq!(shown(&abc), "one_of(booleans(), none(), nothing())");
    assert!(base_is_list(&lists(
        StrategyArg::Strategy(ints(0, 2)),
        &lists_args(0, false),
        &facts()
    ).unwrap()));
    // tuple, list, set, frozenset, dict; sorted; iter and sum; a type of another kind
    for func in 0..5 {
        assert!(pack_is_collection_ish(&pack(func, true, true, false)));
    }
    assert!(pack_is_collection_ish(&pack(5, false, false, true)));
    assert!(!pack_is_collection_ish(&pack(6, false, false, false)));
    assert!(!pack_is_collection_ish(&pack(7, true, false, false)));
    let r = rebuild_collection_node(StrategyNode::Binary { min: 0, max: 1 }, 4, 5);
    assert!(matches!(r, StrategyNode::Binary { min: 4, max: 5 }));
}

#[test]
fn patterns_make_strings() {
    let p = "a+".to_string();
    match try_regex_rewrite(PatternMethod::Match, &p, "x", 0, COLLECTION_DEFAULT_MAX_SIZE) {
        RegexPlan::Generate { pattern, fullmatch, min_len, max_len } => {
            assert_eq!(pattern, "^(?:a+)");
            assert!(!fullmatch);
            assert_eq!((min_len, max_len), (None, None));
        }
        _ => panic!("a pattern was expected"),
    }
    match try_regex_rewrite(PatternMethod::Fullmatch, &p, "x", 2, 9) {
        RegexPlan::Generate { pattern, fullmatch, min_len, max_len } => {
            assert_eq!(pattern, "a+");
            assert!(fullmatch);
            assert_eq!((min_len, max_len), (Some(2), Some(9)));
        }
        _ => panic!("a pattern was expected"),
    }
    match try_regex_rewrite(PatternMethod::Split, &p, "P.split", 0, 1) {
        RegexPlan::Warn { msg, nonempty } => {
            assert!(nonempty);
            assert_eq!(
                msg,
                "You applied P.split as a filter, but this allows any nonempty string!  Did you \
                 mean .search ?"
            );
        }
        _ => panic!("a warning was expected"),
    }
    assert!(matches!(
        try_regex_rewrite(PatternMethod::Finditer, &p, "x", 0, 1),
        RegexPlan::Warn { nonempty: false, .. }
    ));
    assert!(matches!(
        try_regex_rewrite(PatternMethod::Other, &p, "x", 0, 1),
        RegexPlan::NotUnderstood
    ));
    assert_eq!(
        warn_suspicious_string_method(Some(CaseMethod::Upper), false),
        Some(
            "You applied str.upper as a filter, but this allows all nonempty strings!  Did you \
             mean str.isupper?"
                .to_string()
        )
    );
    assert_eq!(warn_suspicious_string_method(None, true), None);
}

#[test]
fn values_by_hand_are_for_exploring() {
    let here = Surroundings {
        interactive: false,
        under_runner: false,
        building: None,
        drawing: false,
    };
    assert!(example_allowed(&ints(0, 1), here).is_ok());
    assert!(!example_warns(here));
    assert!(example_warns(Surroundings { under_runner: true, ..here }));
    let e = |s, n: &StrategyNode| example_allowed(n, s).err().unwrap();
    assert_eq!(e(Surroundings { building: Some(1), ..here }, &ints(0, 1)), ExampleError::InStrategy);
    assert_eq!(e(Surroundings { building: Some(0), ..here }, &ints(0, 1)), ExampleError::InTest);
    assert_eq!(e(Surroundings { drawing: true, ..here }, &ints(0, 1)), ExampleError::InStrategy);
    assert_eq!(e(here, &StrategyNode::Data), ExampleError::OnData);
    assert!(example_again(199).is_ok());
    assert_eq!(example_again(200), Err(ExampleError::Unsatisfiable));
    assert_eq!(ExampleError::Unsatisfiable.message(), "could not find an example");
}

#[test]
fn strategies_are_shown() {
    assert_eq!(shown(&StrategyNode::NoneVal), "none()");
    assert_eq!(shown(&StrategyNode::Just(Atom::Nil)), "just(None)");
    assert_eq!(
        shown(&StrategyNode::Mapped { base: Box::new(ints(0, 1)), func: 0 }),
        "integers(0, 1).map(f)"
    );
    assert_eq!(
        child_repr(&StrategyNode::Filtered { base: Box::new(StrategyNode::Booleans), func: 1 },
            &names()),
        "booleans().filter(lambda x: x > 3)"
    );
    let mut out = String::new();
    nice_repr(&mut out, Atom::Host(0), &names());
    fn_repr(&mut out, 0, &names());
    assert_eq!(out, "'a'f");
    let event = record_filter_retry_event(&StrategyNode::Booleans, 0, &names());
    assert_eq!(event, "Retried draw from booleans().filter(f) to satisfy filter");
}

#[test]
fn empty_strategies_are_noticed() {
    let none = vec![];
    assert!(node_is_empty(&StrategyNode::Nothing, &facts(), &none));
    assert!(!node_is_empty(&ints(0, 1), &facts(), &none));
    assert!(node_is_empty(&StrategyNode::OneOf(vec![StrategyNode::Nothing]), &facts(), &none));
    assert!(strat_is_empty(&StrategyNode::Tuples(vec![StrategyNode::Nothing]), &facts()));
    let f = Facts { thunks: vec![Some(StrategyNode::Deferred { thunk: 0 })], emptying: vec![7] };
    assert!(node_is_empty(&StrategyNode::Deferred { thunk: 0 }, &f, &none));
    assert!(filter_rewrite_empty(&ints(0, 1), 7, &f));
    assert!(node_has_reusable_values(&ints(0, 1), &facts(), &none));
    assert!(!node_has_reusable_values(&StrategyNode::Data, &facts(), &none));
}

#[test]
fn mistakes_are_reported_when_validated() {
    let bad = deferred_invalid("oops".to_string());
    let e = node_validate(&bad, &names()).err().unwrap();
    assert_eq!(e.msg, "oops");
    assert!(node_validate(&ints(0, 1), &names()).is_ok());
    let nested = StrategyNode::Tuples(vec![StrategyNode::Booleans, bad]);
    assert!(validate_child(&nested, &names()).is_err());
}

#[test]
fn orders_of_samples_are_made() {
    assert!(permutations(Sample::Ordered, "[]", vec![Atom::Int(1)]).is_ok());
    assert!(permutations(Sample::Unordered, "{}", vec![]).is_err());
}

#[test]
fn targets_must_be_callable() {
    let target = |callable| Some(Target {
        id: 3,
        callable,
        shown: "int | str".to_string(),
        union: Some("int | str".to_string()),
    });
    assert!(matches!(
        builds(&target(true), vec![], vec![]),
        Ok(StrategyNode::Builds { target: 3, .. })
    ));
    let e = builds(&target(false), vec![], vec![]).err().unwrap();
    assert_eq!(
        e.msg,
        "The first positional argument to builds() must be a callable target to construct, but \
         got non-callable int | str. Try using from_type(int | str) instead?"
    );
    assert!(builds(&None, vec![], vec![]).is_err());
}
