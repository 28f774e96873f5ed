//! What is known of types, and what is made of them.
//!
//! A type is a number: its place in a table of [`TypeInfo`]. The host fills the table
//! with what it finds out about each type; what becomes of a type is a [`Plan`] for a
//! strategy.
use crate::words::texts;
use crate::typeres::{Fault, TypeHost};
use vstd::prelude::*;

verus! {

/// A strategy that the host keeps.
#[derive(Clone, Copy, Debug, PartialEq, Eq, Structural)]
pub struct Kept {
    pub id: u64,
    /// It is one of this library.
    pub native: bool,
    /// It has no values.
    pub empty: bool,
}

/// What was registered for a type.
#[derive(Debug)]
pub enum Entry {
    Strategy(Kept),
    /// A function that makes a strategy for a type, as it is shown.
    Factory { id: u64, shown: String },
}

/// What a factory gave.
#[derive(Debug)]
pub enum Outcome {
    Declined,
    Strategy(Kept),
    /// Something that is no strategy, as it is shown.
    Other(String),
}

/// What somebody else has registered for a type.
#[derive(Clone, Copy, Debug, PartialEq, Eq, Structural)]
pub enum RealLookup {
    Missing,
    Strategy(Kept),
    /// A factory, and the strategy that it made, if it made one.
    Factory(Option<Kept>),
}

/// A function that is applied to a collection or a number.
#[derive(Clone, Copy, Debug, PartialEq, Eq, Structural)]
pub enum Pack {
    Tuple,
    Iter,
    Bytearray,
    Memoryview,
    Range,
    Slice,
    Generator,
    Keys,
    Values,
    Items,
    Deque,
    OrderedDict,
    Counter,
    DefaultDict,
    ChainMap,
}

/// A type of the standard library that has a strategy of its own.
#[derive(Clone, Copy, Debug, PartialEq, Eq, Structural)]
pub enum Standard {
    Complex,
    Decimal,
    Fraction,
    Datetime,
    Date,
    Time,
    Timedelta,
    Uuid,
}

/// Which arguments the functions of a strategy take.
#[derive(Clone, Copy, Debug, PartialEq, Eq, Structural)]
pub enum Like {
    /// None.
    Usual,
    /// So many.
    Arity(u64),
    /// Any.
    Anything,
}

/// A key and the plan for its value.
#[derive(Debug)]
pub struct KeyPlan {
    pub key: u64,
    pub plan: Plan,
}

/// A keyword and the plan for its value.
#[derive(Debug)]
pub struct NamedPlan {
    pub name: String,
    pub plan: Plan,
}

/// A plan for a strategy.
#[derive(Debug)]
pub enum Plan {
    /// Ask for the type again when a value is drawn.
    Again(u64),
    /// Look for types below this abstract one when a value is drawn.
    Abstract(u64),
    Kept(Kept),
    /// What the older way of looking types up gave for a type.
    Legacy { of: u64, kept: Kept },
    Nil,
    Booleans,
    Integers,
    /// Integers that are not negative.
    Counts,
    Floats,
    Text,
    Binary,
    Value(Standard),
    OneOf(Vec<Plan>),
    Tuples(Vec<Plan>),
    Lists { elem: Box<Plan>, min: u64 },
    Sets { elem: Box<Plan>, frozen: bool },
    Dicts { keys: Box<Plan>, values: Box<Plan> },
    FixedDict { required: Vec<KeyPlan>, optional: Vec<KeyPlan> },
    Mapped { base: Box<Plan>, pack: Pack },
    /// Only the values that can be hashed.
    Hashable(Box<Plan>),
    Sampled(Vec<u64>),
    Just(u64),
    /// The tuple without elements.
    EmptyTuple,
    /// A value of one of the plain types, the same one for each key in a test case.
    SharedScalar { key: String },
    Builds { target: u64, args: Vec<Plan>, kwargs: Vec<NamedPlan> },
    Functions { like: Like, result: Option<Box<Plan>> },
    /// A mistake that is reported when the strategy is used.
    Invalid { msg: String, failed: bool },
}

/// What annotations of a type carry.
#[derive(Debug)]
pub enum Meta {
    Strategy(Kept),
    /// A group, with the strategies in it.
    Group(Vec<Option<Kept>>),
    Other,
}

/// The bound of a type variable.
#[derive(Debug)]
pub enum TypeBound {
    Unbound,
    Type(u64),
    /// A name, the type it stands for where it could be found, what is registered for
    /// it, and how it and the name inside are shown.
    Forward { target: Option<u64>, entry: Option<Entry>, shown: String, name: String },
}

/// What a parametrized type was made from.
#[derive(Clone, Copy, Debug, PartialEq, Eq, Structural)]
pub enum Origin {
    Union,
    List,
    BuiltinSet,
    FrozenSet,
    Dict,
    Tuple,
    Literal,
    /// A mark around a type that changes nothing.
    Wrapper,
    Type,
    Callable,
    Sequence,
    MutableSequence,
    Iterable,
    Collection,
    Container,
    Reversible,
    Generator,
    Iterator,
    AbstractSet,
    MutableSet,
    Mapping,
    MutableMapping,
    KeysView,
    ValuesView,
    ItemsView,
    Deque,
    OrderedDict,
    Counter,
    DefaultDict,
    ChainMap,
    Other,
}

/// A parametrized type.
#[derive(Debug)]
pub struct Generic {
    pub origin: Origin,
    pub args: Vec<u64>,
    /// The arguments were written down, even if there are none.
    pub explicit: bool,
    /// The strategy of a registered type below this one.
    pub subtype: Option<Kept>,
    /// What is registered for the origin.
    pub entry: Option<Entry>,
    pub origin_is_class: bool,
}

/// A key of a typed dictionary.
#[derive(Debug)]
pub struct KeyHint {
    pub key: u64,
    pub of: u64,
    pub optional: bool,
}

/// A field of a class.
#[derive(Debug)]
pub struct FieldHint {
    pub name: String,
    pub of: Option<u64>,
}

/// How a parameter is passed.
#[derive(Clone, Copy, Debug, PartialEq, Eq, Structural)]
pub enum ParamKind {
    PositionalOnly,
    Ordinary,
    KeywordOnly,
    VarPositional,
    VarKeyword,
}

/// A parameter of a constructor.
#[derive(Debug)]
pub struct CtorParam {
    pub name: String,
    pub kind: ParamKind,
    pub annotation: Option<u64>,
    pub has_default: bool,
}

/// A registered type that may be below another one.
#[derive(Debug)]
pub struct Registration {
    pub of: u64,
    pub shown: String,
    /// It is the other type itself.
    pub itself: bool,
    /// It is below the other type.
    pub below: bool,
    /// The types it inherits from, itself among them, where they are known.
    pub mro: Option<Vec<u64>>,
    pub entry: Entry,
}

/// A class that is not abstract.
#[derive(Debug)]
pub struct Class {
    pub protocol: bool,
    pub registered: Vec<Registration>,
    /// The parameters of its constructor, where they are known.
    pub ctor: Option<Vec<CtorParam>>,
    pub real: RealLookup,
}

/// The kinds of types.
#[derive(Debug)]
#[allow(inconsistent_fields)]
pub enum TypeForm {
    NewType(u64),
    ForwardRef(Option<u64>),
    Annotated { meta: Vec<Meta>, under: u64 },
    Nil,
    Any,
    BareUnion,
    Object,
    BareList,
    BareSet,
    BareFrozenSet,
    BareDict,
    Bool,
    Int,
    Float,
    Str,
    Bytes,
    Value(Standard),
    /// Made from bytes.
    OfBytes(Pack),
    /// Made from an integer.
    OfInteger(Pack),
    /// A group of exceptions, and the type of those.
    ExceptionGroup { exception: u64 },
    TypeVar { entry: Option<Entry>, upper: TypeBound, constraints: Vec<u64> },
    Enum { members: Vec<u64> },
    Generic(Generic),
    Abstract,
    TypedDict { hints: Option<Vec<KeyHint>> },
    Fields { hints: Option<Vec<FieldHint>> },
    Class(Class),
    /// The dots that stand for any number of elements.
    Ellipsis,
    /// The tuple without elements, as an argument.
    NoElements,
    /// A list of so many types of parameters.
    ArgList(u64),
    Other,
}

/// What is known of a type.
#[derive(Debug)]
pub struct TypeInfo {
    pub shown: String,
    /// What is registered for it.
    pub entry: Option<Entry>,
    pub form: TypeForm,
    /// It is a class, and integers are instances of it.
    pub admits_int: bool,
    /// The class that it stands for as an argument of `type`.
    pub class: Option<u64>,
}

/// What is known of all types.
#[derive(Debug)]
pub struct Types {
    pub infos: Vec<TypeInfo>,
}

/// The form of a type.
pub open spec fn form_of(ts: Types, t: u64) -> TypeForm {
    if t < ts.infos@.len() {
        ts.infos@[t as int].form
    } else {
        TypeForm::Other
    }
}

impl Plan {
    /// The strategy is one of this library.
    pub open spec fn native(&self) -> bool {
        match self {
            Plan::Kept(k) => k.native,
            Plan::Legacy { kept, .. } => kept.native,
            _ => true,
        }
    }

    pub fn is_native(&self) -> (r: bool)
        ensures
            r == self.native(),
    {
        match self {
            Plan::Kept(k) => k.native,
            Plan::Legacy { kept, .. } => kept.native,
            _ => true,
        }
    }
}

/// All strategies are of this library.
pub open spec fn all_native(c: Seq<Plan>) -> bool {
    forall|i: int| 0 <= i < c.len() ==> (#[trigger] c[i]).native()
}

/// `p` is a mistake that is reported when the strategy is used.
pub open spec fn plan_invalid(p: Plan, msg: Seq<char>) -> bool {
    p is Invalid && p->msg@ == msg && !p->failed
}

/// `p` is the report that a type has no strategy.
pub open spec fn plan_failed(p: Plan, msg: Seq<char>) -> bool {
    p is Invalid && p->msg@ == msg && p->failed
}

/// What is said of a type without a strategy.
pub open spec fn unresolved_text(shown: Seq<char>) -> Seq<char> {
    "Could not resolve "@ + shown + " to a strategy; consider using register_type_strategy"@
}

/// Reports that a type has no strategy.
pub fn unresolved(shown: &str) -> (p: Plan)
    ensures
        plan_failed(p, unresolved_text(shown@)),
{
    let mut msg = String::new();
    msg.append("Could not resolve ");
    msg.append(shown);
    msg.append(" to a strategy; consider using register_type_strategy");
    assert(msg@ =~= unresolved_text(shown@));
    Plan::Invalid { msg, failed: true }
}

/// `p` is one of the plans.
pub open spec fn one_of_plan(p: Plan, c: Seq<Plan>) -> bool {
    if c.len() == 1 {
        p == c[0]
    } else {
        p is OneOf && p->OneOf_0@ == c
    }
}

/// One of several plans.
pub fn plan_one_of(children: Vec<Plan>) -> (p: Plan)
    ensures
        one_of_plan(p, children@),
{
    let mut children = children;
    if children.len() == 1 {
        let ghost before = children@;
        if let Some(p) = children.pop() {
            assert(p == before[0]);
            return p;
        }
    }
    Plan::OneOf(children)
}

/// `p` is one of the plain types.
pub open spec fn any_union(p: Plan) -> bool {
    &&& p is OneOf
    &&& p->OneOf_0@.len() == 5
    &&& p->OneOf_0@[0] is Nil
    &&& p->OneOf_0@[1] is Booleans
    &&& p->OneOf_0@[2] is Integers
    &&& p->OneOf_0@[3] is Floats
    &&& p->OneOf_0@[4] is Text
}

/// A value of any of the plain types.
pub fn any_scalar_union() -> (p: Plan)
    ensures
        any_union(p),
{
    let mut parts: Vec<Plan> = Vec::new();
    parts.push(Plan::Nil);
    parts.push(Plan::Booleans);
    parts.push(Plan::Integers);
    parts.push(Plan::Floats);
    parts.push(Plan::Text);
    Plan::OneOf(parts)
}

// ---- what was registered ----------------------------------------------------

/// A strategy as a plan; one without values is reported.
pub open spec fn kept_plan(k: Kept, shown: Seq<char>, p: Plan) -> bool {
    if k.native && k.empty {
        plan_failed(p, "Error: "@ + shown + " resolved to an empty strategy"@)
    } else {
        p == Plan::Kept(k)
    }
}

/// A strategy as a plan; one without values is reported.
pub fn plan_kept(k: Kept, shown: &str) -> (p: Plan)
    ensures
        kept_plan(k, shown@, p),
{
    if k.native && k.empty {
        let mut msg = String::new();
        msg.append("Error: ");
        msg.append(shown);
        msg.append(" resolved to an empty strategy");
        assert(msg@ =~= "Error: "@ + shown@ + " resolved to an empty strategy"@);
        return Plan::Invalid { msg, failed: true };
    }
    Plan::Kept(k)
}

/// `p` is what an outcome of a registered entry stands for.
pub open spec fn registry_gives(o: Outcome, entry: Seq<char>, thing: Seq<char>, p: Plan) -> bool {
    match o {
        Outcome::Declined => false,
        Outcome::Strategy(k) => kept_plan(k, thing, p),
        Outcome::Other(shown) => plan_failed(
            p,
            "Error: "@ + thing + " was registered for "@ + entry
                + ", but returned non-strategy "@ + shown@,
        ),
    }
}

/// What an outcome of a registered entry stands for; nothing where it declined.
pub fn resolve_registry_entry(o: &Outcome, entry: &str, thing: &str) -> (r: Option<Plan>)
    ensures
        r is None <==> o is Declined,
        r is Some ==> registry_gives(*o, entry@, thing@, r->0),
{
    match o {
        Outcome::Declined => None,
        Outcome::Strategy(k) => Some(plan_kept(*k, thing)),
        Outcome::Other(shown) => {
            let mut msg = String::new();
            msg.append("Error: ");
            msg.append(thing);
            msg.append(" was registered for ");
            msg.append(entry);
            msg.append(", but returned non-strategy ");
            msg.append(shown.as_str());
            assert(msg@ =~= "Error: "@ + thing@ + " was registered for "@ + entry@
                + ", but returned non-strategy "@ + shown@);
            Some(Plan::Invalid { msg, failed: true })
        },
    }
}

/// How an entry is shown.
pub open spec fn entry_text(e: Entry) -> Seq<char> {
    match e {
        Entry::Strategy(_) => ""@,
        Entry::Factory { shown, .. } => shown@,
    }
}

/// `o` comes of an entry for a type: a strategy stands for itself, and a factory was called
/// for the type.
pub open spec fn entry_outcome<H: TypeHost>(e: Entry, t: u64, o: Outcome) -> bool {
    match e {
        Entry::Strategy(k) => o == Outcome::Strategy(k),
        Entry::Factory { id, .. } => exists|h: &mut H| #[trigger]
            call_ensures(H::call_factory, (h, id, t), Ok::<Outcome, Fault>(o)),
    }
}

/// `p` comes of an entry for a type, which is shown as `thing`.
pub open spec fn entry_gives<H: TypeHost>(e: Entry, t: u64, thing: Seq<char>, p: Plan) -> bool {
    exists|o: Outcome| #[trigger]
        registry_gives(o, entry_text(e), thing, p) && entry_outcome::<H>(e, t, o)
}

/// `p` comes of an entry that is there and did not decline.
pub open spec fn maybe_entry<H: TypeHost>(
    e: Option<Entry>,
    t: u64,
    thing: Seq<char>,
    p: Plan,
) -> bool {
    e is Some && entry_gives::<H>(e->0, t, thing, p)
}

/// There is no entry, or a factory was called for the type and declined.
pub open spec fn may_decline<H: TypeHost>(e: Option<Entry>, t: u64) -> bool {
    e is None || (e->0 is Factory && entry_outcome::<H>(e->0, t, Outcome::Declined))
}

/// What somebody else has registered for a type, if it is a strategy.
pub fn resolve_via_real_lookup(found: RealLookup) -> (r: Option<Plan>)
    ensures
        match found {
            RealLookup::Missing => r is None,
            RealLookup::Strategy(k) => r == Some(Plan::Kept(k)),
            RealLookup::Factory(Some(k)) => r == Some(Plan::Kept(k)),
            RealLookup::Factory(None) => r is None,
        },
{
    match found {
        RealLookup::Missing => None,
        RealLookup::Strategy(k) => Some(Plan::Kept(k)),
        RealLookup::Factory(made) => match made {
            Some(k) => Some(Plan::Kept(k)),
            None => None,
        },
    }
}

// ---- small questions about types --------------------------------------------

/// Whether a type is a name that stands for another one.
pub fn is_forward_ref(ts: &Types, t: u64) -> (r: bool)
    ensures
        r == (form_of(*ts, t) is ForwardRef),
{
    if t >= ts.infos.len() as u64 {
        return false;
    }
    match &ts.infos[t as usize].form {
        TypeForm::ForwardRef(_) => true,
        _ => false,
    }
}

/// What is found on the way from a name to what it stands for.
#[derive(Clone, Copy, Debug, PartialEq, Eq, Structural)]
pub struct ForwardName {
    /// The name itself is known.
    pub has_name: bool,
    /// The owner says which module it comes from.
    pub has_module: bool,
    /// That module is loaded.
    pub loaded: bool,
    /// It has names.
    pub has_names: bool,
    /// The type that the name stands for there.
    pub value: Option<u64>,
}

/// The type that a name stands for in the module of its owner.
pub fn eval_forward_ref_in_module(f: ForwardName) -> (r: Option<u64>)
    ensures
        r == (if f.has_name && f.has_module && f.loaded && f.has_names {
            f.value
        } else {
            None
        }),
{
    if f.has_name && f.has_module && f.loaded && f.has_names {
        f.value
    } else {
        None
    }
}

/// The class that a type stands for as an argument of `type`.
pub open spec fn class_of(ts: Types, t: u64) -> Option<u64> {
    if t < ts.infos@.len() {
        ts.infos@[t as int].class
    } else {
        None
    }
}

/// The class that a type stands for as an argument of `type`.
pub fn resolve_type_arg(ts: &Types, t: u64) -> (r: Option<u64>)
    ensures
        r == class_of(*ts, t),
{
    if t < ts.infos.len() as u64 {
        ts.infos[t as usize].class
    } else {
        None
    }
}

/// The arguments of a union, or nothing.
pub open spec fn union_args(f: TypeForm) -> Option<Seq<u64>> {
    match f {
        TypeForm::Generic(g) => if g.origin == Origin::Union {
            Some(g.args@)
        } else {
            None
        },
        _ => None,
    }
}

/// Integers are among the values of a type: it admits them, or a part of the union
/// that it is does.
pub open spec fn admits(ts: Types, t: u64, busy: Seq<u64>) -> bool
    decreases ts.infos@.len() - busy.len(),
{
    if t >= ts.infos@.len() || busy.len() >= ts.infos@.len() || busy.contains(t) {
        false
    } else {
        match ts.infos@[t as int].form {
            TypeForm::Generic(g) => g.origin == Origin::Union && exists|i: int|
                0 <= i < g.args@.len() && admits(ts, #[trigger] g.args@[i], busy.push(t)),
            _ => ts.infos@[t as int].admits_int,
        }
    }
}

/// Whether a number is in a list.
pub fn listed(list: &Vec<u64>, x: u64) -> (r: bool)
    ensures
        r == list@.contains(x),
{
    let mut i: usize = 0;
    while i < list.len()
        invariant
            i <= list.len(),
            forall|k: int| 0 <= k < i ==> list@[k] != x,
        decreases list.len() - i,
    {
        if list[i] == x {
            return true;
        }
        i = i + 1;
    }
    false
}

/// A list with one number more.
pub fn with_one(list: &Vec<u64>, x: u64) -> (r: Vec<u64>)
    ensures
        r@ == list@.push(x),
{
    let mut out = list.clone();
    assert(out@ =~= list@);
    out.push(x);
    out
}

/// Whether integers are among the values of a type.
pub fn int_admissible(ts: &Types, t: u64, busy: &Vec<u64>) -> (r: bool)
    ensures
        r == admits(*ts, t, busy@),
    decreases ts.infos@.len() - busy@.len(),
{
    if t >= ts.infos.len() as u64 || busy.len() >= ts.infos.len() || listed(busy, t) {
        return false;
    }
    match &ts.infos[t as usize].form {
        TypeForm::Generic(g) => {
            if g.origin != Origin::Union {
                return false;
            }
            let deeper = with_one(busy, t);
            let mut i: usize = 0;
            while i < g.args.len()
                invariant
                    i <= g.args.len(),
                    busy@.len() < ts.infos@.len(),
                    t < ts.infos@.len(),
                    !busy@.contains(t),
                    ts.infos@[t as int].form == TypeForm::Generic(*g),
                    deeper@ == busy@.push(t),
                    g.origin == Origin::Union,
                    forall|k: int| 0 <= k < i ==> !admits(*ts, #[trigger] g.args@[k], deeper@),
                decreases g.args.len() - i,
            {
                if int_admissible(ts, g.args[i], &deeper) {
                    assert(admits(*ts, g.args@[i as int], deeper@));
                    return true;
                }
                i = i + 1;
            }
            false
        },
        _ => ts.infos[t as usize].admits_int,
    }
}

/// A name that stands for a type is somewhere in a type.
pub open spec fn mentions_forward(ts: Types, t: u64, busy: Seq<u64>) -> bool
    decreases ts.infos@.len() - busy.len(),
{
    if t >= ts.infos@.len() || busy.len() >= ts.infos@.len() || busy.contains(t) {
        false
    } else {
        match ts.infos@[t as int].form {
            TypeForm::ForwardRef(_) => true,
            TypeForm::Generic(g) => exists|i: int|
                0 <= i < g.args@.len() && mentions_forward(
                    ts,
                    #[trigger] g.args@[i],
                    busy.push(t),
                ),
            _ => false,
        }
    }
}

/// Whether a name that stands for a type is somewhere in a type.
pub fn ann_has_forwardref(ts: &Types, t: u64, busy: &Vec<u64>) -> (r: bool)
    ensures
        r == mentions_forward(*ts, t, busy@),
    decreases ts.infos@.len() - busy@.len(),
{
    if t >= ts.infos.len() as u64 || busy.len() >= ts.infos.len() || listed(busy, t) {
        return false;
    }
    match &ts.infos[t as usize].form {
        TypeForm::ForwardRef(_) => true,
        TypeForm::Generic(g) => {
            let deeper = with_one(busy, t);
            let mut i: usize = 0;
            while i < g.args.len()
                invariant
                    i <= g.args.len(),
                    busy@.len() < ts.infos@.len(),
                    t < ts.infos@.len(),
                    !busy@.contains(t),
                    ts.infos@[t as int].form == TypeForm::Generic(*g),
                    deeper@ == busy@.push(t),
                    forall|k: int|
                        0 <= k < i ==> !mentions_forward(*ts, #[trigger] g.args@[k], deeper@),
                decreases g.args.len() - i,
            {
                if ann_has_forwardref(ts, g.args[i], &deeper) {
                    assert(mentions_forward(*ts, g.args@[i as int], deeper@));
                    return true;
                }
                i = i + 1;
            }
            false
        },
        _ => false,
    }
}

/// Whether a value could be hashed.
pub fn can_hash(hash: Option<i64>) -> (r: bool)
    ensures
        r == (hash is Some),
{
    hash.is_some()
}

/// Every value of the type can be hashed.
pub open spec fn always_hashable(f: TypeForm) -> bool {
    match f {
        TypeForm::Nil | TypeForm::Bool | TypeForm::Int | TypeForm::Float | TypeForm::Str
        | TypeForm::Bytes => true,
        TypeForm::Value(s) => s == Standard::Complex,
        _ => false,
    }
}

/// `r` are the values of a plan that can be hashed.
pub open spec fn hashable(r: Plan, ts: Types, t: u64, p: Plan) -> bool {
    if always_hashable(form_of(ts, t)) {
        r == p
    } else {
        r is Hashable && *r->Hashable_0 == p
    }
}

/// The values of a plan for a type that can be hashed.
pub fn filtered_hashable(ts: &Types, t: u64, p: Plan) -> (r: Plan)
    ensures
        hashable(r, *ts, t, p),
{
    let always = if t < ts.infos.len() as u64 {
        match &ts.infos[t as usize].form {
            TypeForm::Nil => true,
            TypeForm::Bool => true,
            TypeForm::Int => true,
            TypeForm::Float => true,
            TypeForm::Str => true,
            TypeForm::Bytes => true,
            TypeForm::Value(s) => *s == Standard::Complex,
            _ => false,
        }
    } else {
        false
    };
    if always {
        p
    } else {
        Plan::Hashable(Box::new(p))
    }
}

/// What is known of the fields of a class.
#[derive(Debug)]
pub struct ClassShape {
    pub is_class: bool,
    /// The fields of a data class, and whether the constructor takes each.
    pub dataclass: Option<Vec<(String, bool)>>,
    pub is_tuple: bool,
    /// The names of the fields of a tuple.
    pub fields: Option<Vec<String>>,
}

/// The names of the fields that the constructor takes.
pub open spec fn init_names(fields: Seq<(String, bool)>) -> Seq<Seq<char>>
    decreases fields.len(),
{
    if fields.len() == 0 {
        Seq::empty()
    } else if fields.last().1 {
        init_names(fields.drop_last()).push(fields.last().0@)
    } else {
        init_names(fields.drop_last())
    }
}

/// The fields of a data class or of a tuple with names.
pub fn dataclass_or_namedtuple_fields(c: &ClassShape) -> (r: Option<Vec<String>>)
    ensures
        r is Some <==> c.is_class && (c.dataclass is Some || (c.is_tuple && c.fields is Some)),
        r is Some && c.dataclass is Some ==> texts(r->0@) == init_names(c.dataclass->0@),
        r is Some && c.dataclass is None ==> texts(r->0@) == texts(c.fields->0@),
{
    if !c.is_class {
        return None;
    }
    let mut names: Vec<String> = Vec::new();
    if let Some(fields) = &c.dataclass {
        let mut i: usize = 0;
        assert(fields@.take(0) =~= Seq::<(String, bool)>::empty());
        assert(texts(names@) =~= Seq::<Seq<char>>::empty());
        while i < fields.len()
            invariant
                i <= fields.len(),
                texts(names@) == init_names(fields@.take(i as int)),
            decreases fields.len() - i,
        {
            let ghost before = names@;
            proof {
                assert(fields@.take(i + 1).drop_last() =~= fields@.take(i as int));
                assert(fields@.take(i + 1).last() == fields@[i as int]);
            }
            if fields[i].1 {
                let name = fields[i].0.clone();
                names.push(name);
                assert(texts(names@) =~= texts(before).push(fields@[i as int].0@));
            }
            i = i + 1;
        }
        assert(fields@.take(i as int) =~= fields@);
        return Some(names);
    }
    if !c.is_tuple {
        return None;
    }
    match &c.fields {
        Some(fields) => {
            let mut i: usize = 0;
            while i < fields.len()
                invariant
                    i <= fields.len(),
                    names@.len() == i,
                    forall|k: int| 0 <= k < i ==> (#[trigger] names@[k])@ == fields@[k]@,
                decreases fields.len() - i,
            {
                names.push(fields[i].clone());
                i = i + 1;
            }
            assert(texts(names@) =~= texts(fields@));
            Some(names)
        },
        None => None,
    }
}

} // verus!
