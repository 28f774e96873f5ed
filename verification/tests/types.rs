use hypothesis_fast::builds::{infer_builds_kwargs, BuildsError, BuildsParam, KwValue, Kwarg};
use hypothesis_fast::fromtype::{annotated_strategy, from_type, generic_class_strategy};
use hypothesis_fast::typeres::{
    resolve_abstract_uncached, resolve_via_subclasses, Candidate, Fault, TypeHost,
};
use hypothesis_fast::types::{
    ann_has_forwardref, any_scalar_union, can_hash, dataclass_or_namedtuple_fields,
    eval_forward_ref_in_module, filtered_hashable, int_admissible, is_forward_ref,
    resolve_registry_entry, resolve_type_arg, resolve_via_real_lookup, Class, ClassShape,
    CtorParam, Entry, FieldHint, ForwardName, Generic, KeyHint, Kept, Like, Meta, Origin, Outcome,
    Pack, ParamKind, Plan, RealLookup, Registration, Standard, TypeBound, TypeForm, TypeInfo,
    Types,
};

struct World {
    declines: bool,
    foreign_legacy: bool,
    legacy_calls: u64,
}

fn world() -> World {
    World { declines: false, foreign_legacy: false, legacy_calls: 0 }
}

impl TypeHost for World {
    fn call_factory(&mut self, factory: u64, _thing: u64) -> Result<Outcome, Fault> {
        if self.declines {
            return Ok(Outcome::Declined);
        }
        if factory == 66 {
            return Err(Fault(66));
        }
        if factory == 7 {
            return Ok(Outcome::Other("5".to_string()));
        }
        Ok(Outcome::Strategy(kept(factory)))
    }

    fn legacy(&mut self, thing: u64) -> Result<Kept, Fault> {
        self.legacy_calls += 1;
        Ok(Kept { id: thing, native: !self.foreign_legacy, empty: false })
    }
}

fn kept(id: u64) -> Kept {
    Kept { id, native: true, empty: false }
}

fn info(form: TypeForm) -> TypeInfo {
    TypeInfo { shown: "T".to_string(), entry: None, form, admits_int: false, class: None }
}

fn generic(origin: Origin, args: Vec<u64>) -> TypeForm {
    TypeForm::Generic(Generic {
        origin,
        args,
        explicit: false,
        subtype: None,
        entry: None,
        origin_is_class: false,
    })
}

/// The numbers of the types that every table starts with.
const INT: u64 = 0;
const STR: u64 = 1;
const NIL: u64 = 2;
const ANY: u64 = 3;
const DOTS: u64 = 4;

fn table(more: Vec<TypeInfo>) -> Types {
    let mut integer = info(TypeForm::Int);
    integer.admits_int = true;
    integer.class = Some(INT);
    let mut infos = vec![
        integer,
        info(TypeForm::Str),
        info(TypeForm::Nil),
        info(TypeForm::Any),
        info(TypeForm::Ellipsis),
    ];
    infos.extend(more);
    Types { infos }
}

fn plan(t: &Types, i: u64) -> Plan {
    from_type(&mut world(), t, i, &vec![]).unwrap()
}

#[test]
fn plain_types_have_plain_plans() {
    let t = table(vec![
        info(TypeForm::BareList),
        info(TypeForm::Value(Standard::Uuid)),
        info(TypeForm::OfBytes(Pack::Bytearray)),
        info(TypeForm::Enum { members: vec![9, 8] }),
        info(TypeForm::Abstract),
        info(TypeForm::ExceptionGroup { exception: 0 }),
    ]);
    assert!(matches!(plan(&t, INT), Plan::Integers));
    assert!(matches!(plan(&t, STR), Plan::Text));
    assert!(matches!(plan(&t, NIL), Plan::Nil));
    match plan(&t, ANY) {
        Plan::Invalid { msg, failed } => {
            assert!(!failed);
            assert!(msg.starts_with("Could not resolve typing.Any to a strategy"));
        }
        _ => panic!("a mistake was expected"),
    }
    assert!(matches!(plan(&t, 5), Plan::Lists { .. }));
    assert!(matches!(plan(&t, 6), Plan::Value(Standard::Uuid)));
    assert!(matches!(plan(&t, 7), Plan::Mapped { pack: Pack::Bytearray, .. }));
    assert!(matches!(plan(&t, 8), Plan::Sampled(v) if v == vec![9, 8]));
    assert!(matches!(plan(&t, 9), Plan::Abstract(9)));
    assert!(matches!(plan(&t, 10), Plan::Builds { target: 10, .. }));
}

#[test]
fn parametrized_types_have_parts() {
    let t = table(vec![
        info(generic(Origin::List, vec![INT])),
        info(generic(Origin::Dict, vec![STR, 5])),
        info(generic(Origin::Union, vec![INT, NIL])),
        info(generic(Origin::Tuple, vec![INT, DOTS])),
        info(generic(Origin::Tuple, vec![INT, STR])),
        info(generic(Origin::BuiltinSet, vec![5])),
        info(generic(Origin::Sequence, vec![INT])),
        info(generic(Origin::List, vec![ANY])),
        info(generic(Origin::Literal, vec![40, 41])),
        info(generic(Origin::Type, vec![INT])),
        info(generic(Origin::Callable, vec![14, STR])),
        info(TypeForm::ArgList(2)),
    ]);
    assert!(matches!(plan(&t, 5), Plan::Lists { elem, .. } if matches!(*elem, Plan::Integers)));
    match plan(&t, 6) {
        Plan::Dicts { keys, values } => {
            assert!(matches!(*keys, Plan::Text));
            assert!(matches!(*values, Plan::Lists { .. }));
        }
        _ => panic!("dictionaries were expected"),
    }
    match plan(&t, 7) {
        Plan::OneOf(parts) => {
            assert!(matches!(parts[0], Plan::Nil));
            assert!(matches!(parts[1], Plan::Integers));
        }
        _ => panic!("a choice was expected"),
    }
    assert!(matches!(plan(&t, 8), Plan::Mapped { pack: Pack::Tuple, .. }));
    assert!(matches!(plan(&t, 9), Plan::Tuples(p) if p.len() == 2));
    match plan(&t, 10) {
        Plan::Sets { elem, frozen: false } => assert!(matches!(*elem, Plan::Hashable(_))),
        _ => panic!("sets were expected"),
    }
    match plan(&t, 11) {
        Plan::OneOf(parts) => assert!(matches!(parts[1], Plan::Binary)),
        _ => panic!("a choice was expected"),
    }
    match plan(&t, 12) {
        Plan::Lists { elem, .. } => assert!(matches!(*elem, Plan::OneOf(p) if p.len() == 5)),
        _ => panic!("lists were expected"),
    }
    assert!(matches!(plan(&t, 13), Plan::Sampled(v) if v == vec![40, 41]));
    assert!(matches!(plan(&t, 14), Plan::Just(INT)));
    match plan(&t, 15) {
        Plan::Functions { like, result } => {
            assert_eq!(like, Like::Anything);
            assert!(matches!(*result.unwrap(), Plan::Text));
        }
        _ => panic!("functions were expected"),
    }
}

#[test]
fn recursive_types_are_looked_up_again() {
    let t = table(vec![
        info(generic(Origin::Union, vec![NIL, 6])),
        info(TypeForm::Fields {
            hints: Some(vec![
                FieldHint { name: "next".to_string(), of: Some(5) },
                FieldHint { name: "x".to_string(), of: None },
            ]),
        }),
    ]);
    match plan(&t, 6) {
        Plan::Builds { target: 6, kwargs, .. } => {
            assert_eq!(kwargs.len(), 1);
            match &kwargs[0].plan {
                Plan::OneOf(parts) => assert!(matches!(parts[1], Plan::Again(6))),
                _ => panic!("a choice was expected"),
            }
        }
        _ => panic!("a call was expected"),
    }
}

#[test]
fn registered_types_come_first() {
    let mut one = info(TypeForm::Int);
    one.entry = Some(Entry::Strategy(kept(3)));
    let mut empty = info(TypeForm::Int);
    empty.entry = Some(Entry::Strategy(Kept { id: 4, native: true, empty: true }));
    let mut made = info(TypeForm::Int);
    made.entry = Some(Entry::Factory { id: 8, shown: "f".to_string() });
    let mut odd = info(TypeForm::Int);
    odd.entry = Some(Entry::Factory { id: 7, shown: "f".to_string() });
    let mut broken = info(TypeForm::Int);
    broken.entry = Some(Entry::Factory { id: 66, shown: "f".to_string() });
    let t = table(vec![one, empty, made, odd, broken]);
    assert!(matches!(plan(&t, 5), Plan::Kept(k) if k.id == 3));
    assert!(matches!(plan(&t, 6), Plan::Invalid { failed: true, msg }
        if msg == "Error: T resolved to an empty strategy"));
    assert!(matches!(plan(&t, 7), Plan::Kept(k) if k.id == 8));
    assert!(matches!(plan(&t, 8), Plan::Invalid { msg, .. }
        if msg == "Error: T was registered for f, but returned non-strategy 5"));
    assert_eq!(from_type(&mut world(), &t, 9, &vec![]).err(), Some(Fault(66)));
    let mut w = world();
    w.declines = true;
    assert!(matches!(from_type(&mut w, &t, 7, &vec![]), Ok(Plan::Integers)));
    assert!(resolve_registry_entry(&Outcome::Declined, "f", "T").is_none());
}

#[test]
fn strange_parts_are_left_to_the_older_way() {
    let t = table(vec![info(TypeForm::Other), info(generic(Origin::List, vec![5]))]);
    let mut w = world();
    w.foreign_legacy = true;
    assert!(matches!(from_type(&mut w, &t, 6, &vec![]), Ok(Plan::Legacy { of: 6, .. })));
    assert_eq!(w.legacy_calls, 2);
    let mut w = world();
    assert!(matches!(from_type(&mut w, &t, 6, &vec![]), Ok(Plan::Lists { .. })));
}

#[test]
fn type_variables_have_bounds_or_constraints() {
    let var = |upper, constraints| info(TypeForm::TypeVar { entry: None, upper, constraints });
    let t = table(vec![
        var(TypeBound::Type(STR), vec![]),
        var(TypeBound::Unbound, vec![INT, STR]),
        var(TypeBound::Unbound, vec![]),
        var(
            TypeBound::Forward {
                target: None,
                entry: None,
                shown: "ForwardRef('X')".to_string(),
                name: "\"X\"".to_string(),
            },
            vec![],
        ),
    ]);
    assert!(matches!(plan(&t, 5), Plan::Text));
    assert!(matches!(plan(&t, 6), Plan::OneOf(p) if p.len() == 2));
    assert!(matches!(plan(&t, 7), Plan::SharedScalar { key } if key == "typevar=T"));
    assert!(matches!(plan(&t, 8), Plan::Invalid { msg, failed: true }
        if msg.starts_with("Could not resolve ForwardRef(\"X\") to a type.")));
}

#[test]
fn typed_dictionaries_have_keys() {
    let t = table(vec![info(TypeForm::TypedDict {
        hints: Some(vec![
            KeyHint { key: 1, of: INT, optional: false },
            KeyHint { key: 2, of: STR, optional: true },
        ]),
    })]);
    match plan(&t, 5) {
        Plan::FixedDict { required, optional } => {
            assert_eq!((required[0].key, optional[0].key), (1, 2));
        }
        _ => panic!("a dictionary was expected"),
    }
}

fn registration(of: u64, shown: &str, mro: Vec<u64>) -> Registration {
    Registration {
        of,
        shown: shown.to_string(),
        itself: false,
        below: true,
        mro: Some(mro),
        entry: Entry::Strategy(kept(of)),
    }
}

#[test]
fn registered_types_below_another_answer_for_it() {
    let regs = vec![
        registration(10, "B", vec![10, 99]),
        registration(11, "A", vec![11, 99]),
        registration(12, "C", vec![12, 10]),
    ];
    let r = resolve_via_subclasses(&mut world(), &regs, 5, "T").unwrap().unwrap();
    match r {
        Plan::OneOf(parts) => {
            assert_eq!(parts.len(), 2);
            assert!(matches!(parts[0], Plan::Kept(k) if k.id == 11));
            assert!(matches!(parts[1], Plan::Kept(k) if k.id == 10));
        }
        _ => panic!("a choice was expected"),
    }
    assert!(resolve_via_subclasses(&mut world(), &vec![], 5, "T").unwrap().is_none());
}

#[test]
fn abstract_types_need_usable_ones_below() {
    let c = |plan, invalid| Candidate { plan, invalid, empty: false };
    let r = resolve_abstract_uncached(None, vec![c(Plan::Nil, true), c(Plan::Text, false)], "T");
    assert!(matches!(r, Plan::Text));
    let r = resolve_abstract_uncached(None, vec![], "T");
    assert!(matches!(r, Plan::Invalid { failed: true, .. }));
    let r = resolve_abstract_uncached(Some(Plan::Binary), vec![], "T");
    assert!(matches!(r, Plan::Binary));
}

fn param(name: &str, kind: ParamKind, annotation: Option<u64>, has_default: bool) -> CtorParam {
    CtorParam { name: name.to_string(), kind, annotation, has_default }
}

fn class(ctor: Option<Vec<CtorParam>>) -> Class {
    Class { protocol: false, registered: vec![], ctor, real: RealLookup::Missing }
}

#[test]
fn classes_are_built_by_their_constructors() {
    let t = table(vec![]);
    let build = |c: &Class| {
        generic_class_strategy(&mut world(), &t, 50, "T", c, &vec![]).unwrap()
    };
    let c = class(Some(vec![
        param("a", ParamKind::PositionalOnly, Some(INT), false),
        param("rest", ParamKind::VarPositional, None, false),
        param("b", ParamKind::Ordinary, Some(STR), false),
        param("c", ParamKind::KeywordOnly, None, true),
    ]));
    match build(&c) {
        Plan::Builds { target: 50, args, kwargs } => {
            assert!(matches!(args[0], Plan::Integers));
            assert_eq!(kwargs.len(), 1);
            assert_eq!(kwargs[0].name, "b");
        }
        _ => panic!("a call was expected"),
    }
    let stuck = class(Some(vec![param("a", ParamKind::Ordinary, None, false)]));
    assert!(matches!(build(&stuck), Plan::Invalid { msg, .. }
        if msg == "Could not resolve T to a strategy; consider using register_type_strategy"));
    assert!(matches!(build(&class(None)), Plan::Builds { .. }));
    assert_eq!(
        resolve_via_real_lookup(RealLookup::Factory(Some(kept(2)))).is_some(),
        true
    );
    assert!(resolve_via_real_lookup(RealLookup::Missing).is_none());
}

#[test]
fn small_questions_about_types_are_answered() {
    let t = table(vec![
        info(TypeForm::ForwardRef(None)),
        info(generic(Origin::Union, vec![STR, INT])),
        info(generic(Origin::List, vec![5])),
    ]);
    assert!(is_forward_ref(&t, 5));
    assert!(!is_forward_ref(&t, INT));
    assert!(int_admissible(&t, INT, &vec![]));
    assert!(int_admissible(&t, 6, &vec![]));
    assert!(!int_admissible(&t, STR, &vec![]));
    assert!(ann_has_forwardref(&t, 7, &vec![]));
    assert!(!ann_has_forwardref(&t, 6, &vec![]));
    assert_eq!(resolve_type_arg(&t, INT), Some(INT));
    assert_eq!(resolve_type_arg(&t, STR), None);
    assert!(can_hash(Some(3)));
    assert!(!can_hash(None));
    assert!(matches!(filtered_hashable(&t, INT, Plan::Integers), Plan::Integers));
    assert!(matches!(filtered_hashable(&t, 7, Plan::Integers), Plan::Hashable(_)));
    assert!(matches!(any_scalar_union(), Plan::OneOf(p) if p.len() == 5));
    let f = ForwardName {
        has_name: true,
        has_module: true,
        loaded: true,
        has_names: true,
        value: Some(4),
    };
    assert_eq!(eval_forward_ref_in_module(f), Some(4));
    assert_eq!(eval_forward_ref_in_module(ForwardName { loaded: false, ..f }), None);
}

#[test]
fn fields_of_classes_are_named() {
    let data = ClassShape {
        is_class: true,
        dataclass: Some(vec![("a".to_string(), true), ("b".to_string(), false)]),
        is_tuple: false,
        fields: None,
    };
    assert_eq!(dataclass_or_namedtuple_fields(&data), Some(vec!["a".to_string()]));
    let tuple = ClassShape {
        is_class: true,
        dataclass: None,
        is_tuple: true,
        fields: Some(vec!["x".to_string()]),
    };
    assert_eq!(dataclass_or_namedtuple_fields(&tuple), Some(vec!["x".to_string()]));
    let no = ClassShape { is_class: false, ..tuple };
    assert_eq!(dataclass_or_namedtuple_fields(&no), None);
}

#[test]
fn annotations_carry_strategies() {
    let meta = vec![
        Meta::Strategy(kept(1)),
        Meta::Group(vec![None, Some(kept(2)), Some(kept(3))]),
        Meta::Other,
    ];
    assert_eq!(annotated_strategy(&meta), Some(kept(2)));
    assert_eq!(annotated_strategy(&vec![Meta::Other]), None);
}

fn builds_param(name: &str, own: Option<u64>, default: Option<u64>) -> BuildsParam {
    BuildsParam {
        name: name.to_string(),
        kind: ParamKind::Ordinary,
        own,
        hint: None,
        default,
    }
}

fn kwarg(name: &str, value: KwValue) -> Kwarg {
    Kwarg { name: name.to_string(), value }
}

#[test]
fn arguments_are_inferred() {
    let t = table(vec![]);
    let sig = Some(vec![
        builds_param("a", Some(INT), None),
        builds_param("b", Some(STR), None),
        builds_param("c", Some(STR), Some(77)),
        builds_param("d", Some(INT), None),
    ]);
    let kw = vec![kwarg("c", KwValue::Infer), kwarg("d", KwValue::Given(5))];
    let r = infer_builds_kwargs(&mut world(), &t, 50, &vec![], &vec![false], kw, false, &sig);
    let r = r.ok().unwrap();
    assert_eq!(r.len(), 3);
    assert!(matches!(&r[0].value, KwValue::Planned { plan: Plan::Text, default: Some(77) }));
    assert!(matches!(&r[1].value, KwValue::Given(5)));
    assert_eq!(r[2].name, "b");
}

#[test]
fn dots_are_refused_where_nothing_is_known() {
    let t = table(vec![]);
    let run = |positional: Vec<bool>, sig: Option<Vec<BuildsParam>>, nocheck: bool| {
        let kw = vec![kwarg("x", KwValue::Infer)];
        infer_builds_kwargs(&mut world(), &t, 50, &vec![], &positional, kw, nocheck, &sig)
    };
    let msg = |r: Result<Vec<Kwarg>, BuildsError>| match r {
        Err(BuildsError::Invalid(e)) => e.msg,
        _ => panic!("a mistake was expected"),
    };
    assert_eq!(
        msg(run(vec![true], None, false)),
        "... was passed as a positional argument to builds(), but is only allowed as a keyword \
         argument"
    );
    assert_eq!(
        msg(run(vec![], None, false)),
        "Cannot infer a strategy for x=... (no signature available)"
    );
    assert_eq!(
        msg(run(vec![], Some(vec![builds_param("x", None, None)]), false)),
        "passed ... for x, but x has no type annotation"
    );
    assert_eq!(run(vec![], None, true).ok().unwrap().len(), 1);
}

/// Fails whatever it is asked.
struct Mute;

impl TypeHost for Mute {
    fn call_factory(&mut self, _factory: u64, _thing: u64) -> Result<Outcome, Fault> {
        Err(Fault(1))
    }

    fn legacy(&mut self, _thing: u64) -> Result<Kept, Fault> {
        Err(Fault(2))
    }
}

#[test]
fn nobody_is_asked_where_all_is_known() {
    let t = table(vec![
        info(generic(Origin::List, vec![INT])),
        info(generic(Origin::Dict, vec![STR, INT])),
        info(generic(Origin::Tuple, vec![5, DOTS])),
        info(generic(Origin::Callable, vec![INT, 6])),
        info(TypeForm::NewType(7)),
        info(TypeForm::TypeVar {
            entry: None,
            upper: TypeBound::Unbound,
            constraints: vec![INT, 9],
        }),
        info(TypeForm::Other),
        info(generic(Origin::List, vec![11])),
    ]);
    assert!(matches!(from_type(&mut Mute, &t, 5, &vec![]), Ok(Plan::Lists { .. })));
    assert!(matches!(from_type(&mut Mute, &t, 6, &vec![]), Ok(Plan::Dicts { .. })));
    assert!(matches!(from_type(&mut Mute, &t, 7, &vec![]), Ok(Plan::Mapped { .. })));
    assert!(matches!(from_type(&mut Mute, &t, 8, &vec![]), Ok(Plan::Functions { .. })));
    assert!(matches!(from_type(&mut Mute, &t, 9, &vec![]), Ok(Plan::Mapped { .. })));
    assert!(matches!(from_type(&mut Mute, &t, 10, &vec![]), Ok(Plan::OneOf { .. })));
    assert_eq!(from_type(&mut Mute, &t, 12, &vec![]).err(), Some(Fault(2)));
}

/// Notes what its factories are called for.
struct Notes(Vec<(u64, u64)>);

impl TypeHost for Notes {
    fn call_factory(&mut self, factory: u64, thing: u64) -> Result<Outcome, Fault> {
        self.0.push((factory, thing));
        Ok(Outcome::Strategy(kept(factory)))
    }

    fn legacy(&mut self, _thing: u64) -> Result<Kept, Fault> {
        Err(Fault(2))
    }
}

#[test]
fn factories_are_called_for_the_type_asked_for() {
    let mut regs = vec![registration(10, "B", vec![10, 99])];
    regs[0].entry = Entry::Factory { id: 70, shown: "f".to_string() };
    let mut notes = Notes(vec![]);
    let r = resolve_via_subclasses(&mut notes, &regs, 5, "T").unwrap().unwrap();
    assert!(matches!(r, Plan::Kept(k) if k.id == 70));
    assert_eq!(notes.0, vec![(70, 5)]);
}
