//! The strategy for a type.
//!
//! A type that is looked up while it is being looked up, because it mentions itself, is
//! left for later: `busy` holds the types on the way.
use crate::typeres::{
    answering, ask_legacy, consult_maybe, host_raised, legacy_plan, only_strategies,
    resolve_via_subclasses, via_subclasses, Fault, TypeHost,
};
use crate::types::{
    admits, all_native, any_scalar_union, any_union, class_of, filtered_hashable, form_of,
    hashable, int_admissible, kept_plan, listed, may_decline, maybe_entry, one_of_plan,
    plan_failed, plan_invalid, plan_kept, plan_one_of, resolve_type_arg, resolve_via_real_lookup,
    union_args, unresolved, unresolved_text, with_one, Class, CtorParam, Entry, FieldHint, Generic,
    KeyHint, KeyPlan, Kept, Like, Meta, NamedPlan, Origin, Pack, ParamKind, Plan, RealLookup, TypeBound,
    TypeForm, Types,
};
use vstd::prelude::*;

verus! {

/// The last strategy among annotations; in a group, the first.
pub open spec fn meta_strategy(meta: Seq<Meta>) -> Option<Kept>
    decreases meta.len(),
{
    if meta.len() == 0 {
        None
    } else {
        match meta.last() {
            Meta::Strategy(k) => Some(k),
            Meta::Group(subs) => if first_some(subs@, 0) is Some {
                first_some(subs@, 0)
            } else {
                meta_strategy(meta.drop_last())
            },
            Meta::Other => meta_strategy(meta.drop_last()),
        }
    }
}

/// The first one that is there, from place `k` on.
pub open spec fn first_some(s: Seq<Option<Kept>>, k: int) -> Option<Kept>
    decreases s.len() - k,
{
    if k < 0 || k >= s.len() {
        None
    } else if s[k] is Some {
        s[k]
    } else {
        first_some(s, k + 1)
    }
}

/// Finds the strategy among annotations.
pub fn annotated_strategy(meta: &Vec<Meta>) -> (r: Option<Kept>)
    ensures
        r == meta_strategy(meta@),
{
    let mut n: usize = meta.len();
    assert(meta@.take(n as int) =~= meta@);
    while n > 0
        invariant
            n <= meta.len(),
            meta_strategy(meta@) == meta_strategy(meta@.take(n as int)),
        decreases n,
    {
        proof {
            assert(meta@.take(n as int).last() == meta@[n - 1]);
            assert(meta@.take(n as int).drop_last() =~= meta@.take(n - 1));
        }
        match &meta[n - 1] {
            Meta::Strategy(k) => {
                return Some(*k);
            },
            Meta::Group(subs) => {
                let mut k: usize = 0;
                while k < subs.len()
                    invariant
                        k <= subs.len(),
                        0 < n <= meta.len(),
                        meta@[n - 1] == Meta::Group(*subs),
                        meta_strategy(meta@) == meta_strategy(meta@.take(n as int)),
                        meta@.take(n as int).last() == meta@[n - 1],
                        first_some(subs@, 0) == first_some(subs@, k as int),
                    decreases subs.len() - k,
                {
                    if subs[k].is_some() {
                        return subs[k];
                    }
                    k = k + 1;
                }
            },
            Meta::Other => {},
        }
        n = n - 1;
    }
    None
}

/// The message about a type without values of its own.
pub open spec fn any_text() -> Seq<char> {
    "Could not resolve typing.Any to a strategy, because there is no such thing as a runtime instance of typing.Any. Consider using an explicit type, or register_type_strategy."@
}

/// The message about a union of nothing.
pub open spec fn union_text() -> Seq<char> {
    "Could not resolve typing.Union to a strategy; a bare Union is not a concrete type. Use Union[A, B, ...] with concrete members."@
}

/// `p` makes lists of `elem`.
pub open spec fn lists_of(p: Plan, elem: Plan) -> bool {
    p is Lists && *p->Lists_elem == elem && p->min == 0
}

/// `p` makes lists of plain values.
pub open spec fn lists_of_any(p: Plan) -> bool {
    p is Lists && any_union(*p->Lists_elem) && p->min == 0
}

/// `p` makes sets of plain values.
pub open spec fn sets_of_any(p: Plan, frozen: bool) -> bool {
    p is Sets && any_union(*p->Sets_elem) && p->frozen == frozen
}

/// `p` makes dictionaries of plain values.
pub open spec fn dicts_of_any(p: Plan) -> bool {
    p is Dicts && any_union(*p->keys) && any_union(*p->values)
}

/// `p` makes dictionaries.
pub open spec fn dicts_of(p: Plan, k: Plan, v: Plan) -> bool {
    p is Dicts && *p->keys == k && *p->values == v
}

fn make_lists(elem: Plan) -> (p: Plan)
    ensures
        lists_of(p, elem),
{
    Plan::Lists { elem: Box::new(elem), min: 0 }
}

fn make_dicts(k: Plan, v: Plan) -> (p: Plan)
    ensures
        dicts_of(p, k, v),
{
    Plan::Dicts { keys: Box::new(k), values: Box::new(v) }
}

fn mapped(base: Plan, pack: Pack) -> (p: Plan)
    ensures
        p is Mapped && *p->base == base && p->pack == pack,
{
    Plan::Mapped { base: Box::new(base), pack }
}

/// `p` is the plan for groups of exceptions: a text, and a list of at least one of them.
pub open spec fn exception_group(t: u64, exception: u64, p: Plan) -> bool {
    &&& p is Builds
    &&& p->target == t
    &&& p->kwargs@.len() == 0
    &&& p->args@.len() == 2
    &&& p->args@[0] is Text
    &&& p->args@[1] is Lists
    &&& p->args@[1]->min == 1
    &&& *p->args@[1]->Lists_elem is Builds
    &&& p->args@[1]->Lists_elem->target == exception
    &&& p->args@[1]->Lists_elem->args@.len() == 0
    &&& p->args@[1]->Lists_elem->kwargs@.len() == 0
}

fn plan_exception_group(t: u64, exception: u64) -> (p: Plan)
    ensures
        exception_group(t, exception, p),
{
    let one = Plan::Builds { target: exception, args: Vec::new(), kwargs: Vec::new() };
    let many = Plan::Lists { elem: Box::new(one), min: 1 };
    let mut args: Vec<Plan> = Vec::new();
    args.push(Plan::Text);
    args.push(many);
    Plan::Builds { target: t, args, kwargs: Vec::new() }
}

/// `p` is the plan for a plain type, if it is one.
pub open spec fn plain_form(f: TypeForm, t: u64, p: Plan) -> bool {
    match f {
        TypeForm::Nil => p is Nil,
        TypeForm::Any => plan_invalid(p, any_text()),
        TypeForm::BareUnion => plan_invalid(p, union_text()),
        TypeForm::Object => any_union(p),
        TypeForm::BareList => lists_of_any(p),
        TypeForm::BareSet => sets_of_any(p, false),
        TypeForm::BareFrozenSet => sets_of_any(p, true),
        TypeForm::BareDict => dicts_of_any(p),
        TypeForm::Bool => p is Booleans,
        TypeForm::Int => p is Integers,
        TypeForm::Float => p is Floats,
        TypeForm::Str => p is Text,
        TypeForm::Bytes => p is Binary,
        TypeForm::Value(s) => p == Plan::Value(s),
        TypeForm::OfBytes(k) => p is Mapped && *p->base is Binary && p->pack == k,
        TypeForm::OfInteger(k) => p is Mapped && *p->base is Integers && p->pack == k,
        TypeForm::ExceptionGroup { exception } => exception_group(t, exception, p),
        TypeForm::Enum { members } => p is Sampled && p->Sampled_0@ == members@,
        TypeForm::Abstract => p == Plan::Abstract(t),
        _ => false,
    }
}

/// A type whose plan depends on nothing else.
pub open spec fn is_plain(f: TypeForm) -> bool {
    match f {
        TypeForm::NewType(_) | TypeForm::ForwardRef(_) | TypeForm::Annotated { .. }
        | TypeForm::TypeVar { .. } | TypeForm::Generic(_) | TypeForm::TypedDict { .. }
        | TypeForm::Fields { .. } | TypeForm::Class(_) | TypeForm::Ellipsis
        | TypeForm::NoElements | TypeForm::ArgList(_) | TypeForm::Other => false,
        _ => true,
    }
}

fn plan_plain(f: &TypeForm, t: u64) -> (r: Option<Plan>)
    ensures
        r is Some <==> is_plain(*f),
        r is Some ==> plain_form(*f, t, r->0),
{
    match f {
        TypeForm::Nil => Some(Plan::Nil),
        TypeForm::Any => {
            let mut msg = String::new();
            msg.append(
                "Could not resolve typing.Any to a strategy, because there is no such thing as a runtime instance of typing.Any. Consider using an explicit type, or register_type_strategy.",
            );
            assert(msg@ =~= any_text());
            Some(Plan::Invalid { msg, failed: false })
        },
        TypeForm::BareUnion => {
            let mut msg = String::new();
            msg.append(
                "Could not resolve typing.Union to a strategy; a bare Union is not a concrete type. Use Union[A, B, ...] with concrete members.",
            );
            assert(msg@ =~= union_text());
            Some(Plan::Invalid { msg, failed: false })
        },
        TypeForm::Object => Some(any_scalar_union()),
        TypeForm::BareList => Some(make_lists(any_scalar_union())),
        TypeForm::BareSet => Some(
            Plan::Sets { elem: Box::new(any_scalar_union()), frozen: false },
        ),
        TypeForm::BareFrozenSet => Some(
            Plan::Sets { elem: Box::new(any_scalar_union()), frozen: true },
        ),
        TypeForm::BareDict => Some(make_dicts(any_scalar_union(), any_scalar_union())),
        TypeForm::Bool => Some(Plan::Booleans),
        TypeForm::Int => Some(Plan::Integers),
        TypeForm::Float => Some(Plan::Floats),
        TypeForm::Str => Some(Plan::Text),
        TypeForm::Bytes => Some(Plan::Binary),
        TypeForm::Value(s) => Some(Plan::Value(*s)),
        TypeForm::OfBytes(k) => Some(mapped(Plan::Binary, *k)),
        TypeForm::OfInteger(k) => Some(mapped(Plan::Integers, *k)),
        TypeForm::ExceptionGroup { exception } => Some(plan_exception_group(t, *exception)),
        TypeForm::Enum { members } => {
            let list = members.clone();
            assert(list@ =~= members@);
            Some(Plan::Sampled(list))
        },
        TypeForm::Abstract => Some(Plan::Abstract(t)),
        _ => None,
    }
}

// ---- containers -------------------------------------------------------------

/// A parametrized type without arguments that has a plan of its own.
pub open spec fn is_bare(g: Generic) -> bool {
    g.args@.len() == 0 && match g.origin {
        Origin::List | Origin::Sequence | Origin::MutableSequence | Origin::Iterable
        | Origin::Collection | Origin::BuiltinSet | Origin::AbstractSet | Origin::MutableSet
        | Origin::FrozenSet | Origin::Dict | Origin::Mapping | Origin::MutableMapping
        | Origin::Tuple | Origin::Iterator => true,
        _ => false,
    }
}

/// `p` is the plan for a parametrized type without arguments.
pub open spec fn bare_plan(g: Generic, p: Plan) -> bool {
    match g.origin {
        Origin::List | Origin::Sequence | Origin::MutableSequence | Origin::Iterable
        | Origin::Collection => lists_of_any(p),
        Origin::BuiltinSet | Origin::AbstractSet | Origin::MutableSet => sets_of_any(p, false),
        Origin::FrozenSet => sets_of_any(p, true),
        Origin::Dict | Origin::Mapping | Origin::MutableMapping => dicts_of_any(p),
        Origin::Tuple => if g.explicit {
            p is EmptyTuple
        } else {
            p is Mapped && lists_of_any(*p->base) && p->pack == Pack::Tuple
        },
        Origin::Iterator => p is Mapped && lists_of_any(*p->base) && p->pack == Pack::Iter,
        _ => false,
    }
}

fn plan_bare(g: &Generic) -> (r: Option<Plan>)
    ensures
        r is Some <==> is_bare(*g),
        r is Some ==> bare_plan(*g, r->0),
{
    if g.args.len() > 0 {
        return None;
    }
    match g.origin {
        Origin::List => Some(make_lists(any_scalar_union())),
        Origin::Sequence => Some(make_lists(any_scalar_union())),
        Origin::MutableSequence => Some(make_lists(any_scalar_union())),
        Origin::Iterable => Some(make_lists(any_scalar_union())),
        Origin::Collection => Some(make_lists(any_scalar_union())),
        Origin::BuiltinSet => Some(
            Plan::Sets { elem: Box::new(any_scalar_union()), frozen: false },
        ),
        Origin::AbstractSet => Some(
            Plan::Sets { elem: Box::new(any_scalar_union()), frozen: false },
        ),
        Origin::MutableSet => Some(
            Plan::Sets { elem: Box::new(any_scalar_union()), frozen: false },
        ),
        Origin::FrozenSet => Some(
            Plan::Sets { elem: Box::new(any_scalar_union()), frozen: true },
        ),
        Origin::Dict => Some(make_dicts(any_scalar_union(), any_scalar_union())),
        Origin::Mapping => Some(make_dicts(any_scalar_union(), any_scalar_union())),
        Origin::MutableMapping => Some(make_dicts(any_scalar_union(), any_scalar_union())),
        Origin::Tuple => if g.explicit {
            Some(Plan::EmptyTuple)
        } else {
            Some(mapped(make_lists(any_scalar_union()), Pack::Tuple))
        },
        Origin::Iterator => Some(mapped(make_lists(any_scalar_union()), Pack::Iter)),
        _ => None,
    }
}

/// The plans whose types are, or are not, that of nothing, out of the first `n`.
pub open spec fn picked(ts: Types, args: Seq<u64>, c: Seq<Plan>, nil: bool, n: int) -> Seq<Plan>
    decreases n,
{
    if n <= 0 {
        Seq::empty()
    } else if (form_of(ts, args[n - 1]) is Nil) == nil {
        picked(ts, args, c, nil, n - 1).push(c[n - 1])
    } else {
        picked(ts, args, c, nil, n - 1)
    }
}

/// The parts of a union, nothing first.
pub open spec fn nothing_first(ts: Types, args: Seq<u64>, c: Seq<Plan>) -> Seq<Plan> {
    picked(ts, args, c, true, c.len() as int) + picked(ts, args, c, false, c.len() as int)
}

fn form_is_nil(ts: &Types, t: u64) -> (r: bool)
    ensures
        r == (form_of(*ts, t) is Nil),
{
    if t < ts.infos.len() as u64 {
        match &ts.infos[t as usize].form {
            TypeForm::Nil => true,
            _ => false,
        }
    } else {
        false
    }
}

fn order_union(ts: &Types, args: &Vec<u64>, c: Vec<Plan>) -> (r: Vec<Plan>)
    requires
        c@.len() == args@.len(),
    ensures
        r@ == nothing_first(*ts, args@, c@),
{
    let ghost all = c@;
    let mut rest = c;
    let mut first: Vec<Plan> = Vec::new();
    let mut second: Vec<Plan> = Vec::new();
    let count: usize = args.len();
    let mut n: usize = 0;
    assert(all.skip(0) =~= all);
    assert(first@ =~= Seq::<Plan>::empty());
    assert(second@ =~= Seq::<Plan>::empty());
    while rest.len() > 0
        invariant
            n <= all.len(),
            all.len() == args@.len(),
            count == args@.len(),
            rest@ == all.skip(n as int),
            first@ == picked(*ts, args@, all, true, n as int),
            second@ == picked(*ts, args@, all, false, n as int),
        decreases rest.len(),
    {
        let p = rest.remove(0);
        proof {
            assert(p == all[n as int]);
            assert(rest@ =~= all.skip(n + 1));
        }
        if form_is_nil(ts, args[n]) {
            first.push(p);
        } else {
            second.push(p);
        }
        n = n + 1;
    }
    first.append(&mut second);
    first
}

/// The origin takes one argument and stands for a sequence.
pub open spec fn is_sequence(o: Origin) -> bool {
    match o {
        Origin::Sequence | Origin::MutableSequence | Origin::Iterable | Origin::Collection
        | Origin::Container | Origin::Reversible => true,
        _ => false,
    }
}

/// A type variable is among the arguments.
pub open spec fn has_typevar(ts: Types, args: Seq<u64>) -> bool {
    exists|i: int| 0 <= i < args.len() && form_of(ts, #[trigger] args[i]) is TypeVar
}

fn find_typevar(ts: &Types, args: &Vec<u64>) -> (r: bool)
    ensures
        r == has_typevar(*ts, args@),
{
    let mut i: usize = 0;
    while i < args.len()
        invariant
            i <= args.len(),
            forall|k: int| 0 <= k < i ==> !(form_of(*ts, #[trigger] args@[k]) is TypeVar),
        decreases args.len() - i,
    {
        let t: u64 = args[i];
        if t < ts.infos.len() as u64 {
            if let TypeForm::TypeVar { .. } = &ts.infos[t as usize].form {
                assert(form_of(*ts, args@[i as int]) is TypeVar);
                return true;
            }
        }
        i = i + 1;
    }
    false
}

/// `p` is the plan for a parametrized type that no rule is about.
pub open spec fn rest_plan<H: TypeHost>(ts: Types, t: u64, g: Generic, shown: Seq<char>, p: Plan) -> bool {
    ||| maybe_entry::<H>(g.entry, t, shown, p)
    ||| may_decline::<H>(g.entry, t) && (if g.origin_is_class && has_typevar(ts, g.args@) {
        plan_failed(p, unresolved_text(shown))
    } else {
        legacy_plan::<H>(t, p)
    })
}

/// Whether a rule is about an origin with so many arguments.
pub open spec fn has_rule(o: Origin, n: int) -> bool {
    match o {
        Origin::Union | Origin::Tuple => true,
        Origin::List | Origin::BuiltinSet | Origin::FrozenSet | Origin::Iterator
        | Origin::AbstractSet | Origin::MutableSet | Origin::KeysView | Origin::ValuesView
        | Origin::Deque | Origin::Counter => n == 1,
        Origin::Dict | Origin::Mapping | Origin::MutableMapping | Origin::ItemsView
        | Origin::OrderedDict | Origin::DefaultDict | Origin::ChainMap => n == 2,
        Origin::Generator => n == 3,
        _ => is_sequence(o) && n == 1,
    }
}

/// `p` is the plan for a parametrized type whose arguments have the plans `c`.
pub open spec fn rule_plan(ts: Types, g: Generic, c: Seq<Plan>, p: Plan) -> bool {
    match g.origin {
        Origin::Union => one_of_plan(p, nothing_first(ts, g.args@, c)),
        Origin::Tuple => p is Tuples && p->Tuples_0@ == c,
        Origin::List => lists_of(p, c[0]),
        Origin::BuiltinSet | Origin::AbstractSet | Origin::MutableSet => p is Sets && !p->frozen
            && hashable(*p->Sets_elem, ts, g.args@[0], c[0]),
        Origin::FrozenSet => p is Sets && p->frozen && hashable(
            *p->Sets_elem,
            ts,
            g.args@[0],
            c[0],
        ),
        Origin::Dict | Origin::Mapping | Origin::MutableMapping => p is Dicts && hashable(
            *p->keys,
            ts,
            g.args@[0],
            c[0],
        ) && *p->values == c[1],
        Origin::Generator => {
            &&& p is Mapped
            &&& p->pack == Pack::Generator
            &&& *p->base is Tuples
            &&& p->base->Tuples_0@.len() == 2
            &&& lists_of(p->base->Tuples_0@[0], c[0])
            &&& p->base->Tuples_0@[1] == c[2]
        },
        Origin::Iterator => p is Mapped && p->pack == Pack::Iter && lists_of(*p->base, c[0]),
        Origin::KeysView => {
            &&& p is Mapped && p->pack == Pack::Keys
            &&& *p->base is Dicts && *p->base->keys == c[0] && *p->base->values is Nil
        },
        Origin::ValuesView => {
            &&& p is Mapped && p->pack == Pack::Values
            &&& *p->base is Dicts && *p->base->keys is Integers && *p->base->values == c[0]
        },
        Origin::ItemsView => p is Mapped && p->pack == Pack::Items && dicts_of(
            *p->base,
            c[0],
            c[1],
        ),
        Origin::Deque => p is Mapped && p->pack == Pack::Deque && lists_of(*p->base, c[0]),
        Origin::OrderedDict => p is Mapped && p->pack == Pack::OrderedDict && dicts_of(
            *p->base,
            c[0],
            c[1],
        ),
        Origin::Counter => {
            &&& p is Mapped && p->pack == Pack::Counter
            &&& *p->base is Dicts && *p->base->keys == c[0] && *p->base->values is Counts
        },
        Origin::DefaultDict => p is Mapped && p->pack == Pack::DefaultDict && dicts_of(
            *p->base,
            c[0],
            c[1],
        ),
        Origin::ChainMap => p is Mapped && p->pack == Pack::ChainMap && dicts_of(
            *p->base,
            c[0],
            c[1],
        ),
        _ => if admits(ts, g.args@[0], Seq::empty()) {
            &&& p is OneOf
            &&& p->OneOf_0@.len() == 2
            &&& lists_of(p->OneOf_0@[0], c[0])
            &&& p->OneOf_0@[1] is Binary
        } else {
            lists_of(p, c[0])
        },
    }
}

fn take_one(c: Vec<Plan>) -> (p: Plan)
    requires
        c@.len() == 1,
    ensures
        p == c@[0],
{
    let mut c = c;
    c.remove(0)
}

fn take_two(c: Vec<Plan>) -> (p: (Plan, Plan))
    requires
        c@.len() == 2,
    ensures
        p.0 == c@[0],
        p.1 == c@[1],
{
    let mut c = c;
    let a = c.remove(0);
    let b = c.remove(0);
    (a, b)
}

fn plan_one_arg(ts: &Types, g: &Generic, c: Vec<Plan>) -> (p: Plan)
    requires
        c@.len() == 1,
        g.args@.len() == 1,
        has_rule(g.origin, 1),
        g.origin != Origin::Union,
        g.origin != Origin::Tuple,
    ensures
        rule_plan(*ts, *g, c@, p),
{
    let of: u64 = g.args[0];
    let one = take_one(c);
    match g.origin {
        Origin::List => make_lists(one),
        Origin::BuiltinSet => Plan::Sets {
            elem: Box::new(filtered_hashable(ts, of, one)),
            frozen: false,
        },
        Origin::AbstractSet => Plan::Sets {
            elem: Box::new(filtered_hashable(ts, of, one)),
            frozen: false,
        },
        Origin::MutableSet => Plan::Sets {
            elem: Box::new(filtered_hashable(ts, of, one)),
            frozen: false,
        },
        Origin::FrozenSet => Plan::Sets {
            elem: Box::new(filtered_hashable(ts, of, one)),
            frozen: true,
        },
        Origin::Iterator => mapped(make_lists(one), Pack::Iter),
        Origin::KeysView => mapped(make_dicts(one, Plan::Nil), Pack::Keys),
        Origin::ValuesView => mapped(make_dicts(Plan::Integers, one), Pack::Values),
        Origin::Deque => mapped(make_lists(one), Pack::Deque),
        Origin::Counter => mapped(make_dicts(one, Plan::Counts), Pack::Counter),
        _ => {
            let none: Vec<u64> = Vec::new();
            assert(none@ =~= Seq::<u64>::empty());
            let list = make_lists(one);
            if int_admissible(ts, of, &none) {
                let mut both: Vec<Plan> = Vec::new();
                both.push(list);
                both.push(Plan::Binary);
                Plan::OneOf(both)
            } else {
                list
            }
        },
    }
}

fn plan_two_args(ts: &Types, g: &Generic, c: Vec<Plan>) -> (p: Plan)
    requires
        c@.len() == 2,
        g.args@.len() == 2,
        has_rule(g.origin, 2),
        g.origin != Origin::Union,
        g.origin != Origin::Tuple,
    ensures
        rule_plan(*ts, *g, c@, p),
{
    let of: u64 = g.args[0];
    let (k, v) = take_two(c);
    match g.origin {
        Origin::ItemsView => mapped(make_dicts(k, v), Pack::Items),
        Origin::OrderedDict => mapped(make_dicts(k, v), Pack::OrderedDict),
        Origin::DefaultDict => mapped(make_dicts(k, v), Pack::DefaultDict),
        Origin::ChainMap => mapped(make_dicts(k, v), Pack::ChainMap),
        _ => make_dicts(filtered_hashable(ts, of, k), v),
    }
}

fn plan_generator(ts: &Types, g: &Generic, c: Vec<Plan>) -> (p: Plan)
    requires
        c@.len() == 3,
        g.origin == Origin::Generator,
    ensures
        rule_plan(*ts, *g, c@, p),
{
    let mut c = c;
    let yields = c.remove(0);
    let _sent = c.remove(0);
    let result = c.remove(0);
    let mut pair: Vec<Plan> = Vec::new();
    pair.push(make_lists(yields));
    pair.push(result);
    mapped(Plan::Tuples(pair), Pack::Generator)
}

fn check_rule(o: Origin, n: usize) -> (r: bool)
    ensures
        r == has_rule(o, n as int),
{
    match o {
        Origin::Union => true,
        Origin::Tuple => true,
        Origin::List => n == 1,
        Origin::BuiltinSet => n == 1,
        Origin::FrozenSet => n == 1,
        Origin::Iterator => n == 1,
        Origin::AbstractSet => n == 1,
        Origin::MutableSet => n == 1,
        Origin::KeysView => n == 1,
        Origin::ValuesView => n == 1,
        Origin::Deque => n == 1,
        Origin::Counter => n == 1,
        Origin::Sequence => n == 1,
        Origin::MutableSequence => n == 1,
        Origin::Iterable => n == 1,
        Origin::Collection => n == 1,
        Origin::Container => n == 1,
        Origin::Reversible => n == 1,
        Origin::Dict => n == 2,
        Origin::Mapping => n == 2,
        Origin::MutableMapping => n == 2,
        Origin::ItemsView => n == 2,
        Origin::OrderedDict => n == 2,
        Origin::DefaultDict => n == 2,
        Origin::ChainMap => n == 2,
        Origin::Generator => n == 3,
        _ => false,
    }
}

/// `p` is the plan for a parametrized type whose arguments have the plans `c`.
pub open spec fn container_plan<H: TypeHost>(
    ts: Types,
    t: u64,
    g: Generic,
    shown: Seq<char>,
    c: Seq<Plan>,
    p: Plan,
) -> bool {
    if !all_native(c) {
        legacy_plan::<H>(t, p)
    } else if has_rule(g.origin, c.len() as int) {
        rule_plan(ts, g, c, p)
    } else {
        rest_plan::<H>(ts, t, g, shown, p)
    }
}

fn check_native(c: &Vec<Plan>) -> (r: bool)
    ensures
        r == all_native(c@),
{
    let mut i: usize = 0;
    while i < c.len()
        invariant
            i <= c.len(),
            forall|k: int| 0 <= k < i ==> (#[trigger] c@[k]).native(),
        decreases c.len() - i,
    {
        if !c[i].is_native() {
            assert(!c@[i as int].native());
            return false;
        }
        i = i + 1;
    }
    true
}

/// The plan for a parametrized type can be told without asking the host, where its
/// arguments have the plans `c`.
pub open spec fn container_known(ts: Types, g: Generic, c: Seq<Plan>) -> bool {
    &&& all_native(c)
    &&& {
        ||| has_rule(g.origin, c.len() as int)
        ||| g.entry is Some && g.entry->0 is Strategy
        ||| g.entry is None && g.origin_is_class && has_typevar(ts, g.args@)
    }
}

fn plan_container<H: TypeHost>(
    host: &mut H,
    ts: &Types,
    t: u64,
    g: &Generic,
    shown: &str,
    c: Vec<Plan>,
) -> (r: Result<Plan, Fault>)
    requires
        c@.len() == g.args@.len(),
    ensures
        r is Ok ==> container_plan::<H>(*ts, t, *g, shown@, c@, r->Ok_0),
        container_known(*ts, *g, c@) ==> r is Ok,
        r is Err ==> host_raised::<H>(r->Err_0),
{
    if !check_native(&c) {
        return ask_legacy(host, t);
    }
    if check_rule(g.origin, c.len()) {
        if g.origin == Origin::Union {
            let ordered = order_union(ts, &g.args, c);
            return Ok(plan_one_of(ordered));
        }
        if g.origin == Origin::Tuple {
            return Ok(Plan::Tuples(c));
        }
        if c.len() == 1 {
            return Ok(plan_one_arg(ts, g, c));
        }
        if c.len() == 2 {
            return Ok(plan_two_args(ts, g, c));
        }
        return Ok(plan_generator(ts, g, c));
    }
    match consult_maybe(host, &g.entry, t, shown) {
        Ok(Some(p)) => {
            return Ok(p);
        },
        Ok(None) => {},
        Err(f) => {
            return Err(f);
        },
    }
    if g.origin_is_class && find_typevar(ts, &g.args) {
        return Ok(unresolved(shown));
    }
    ask_legacy(host, t)
}

// ---- looking types up -------------------------------------------------------

/// `p` is the plan for a type.
pub open spec fn resolved<H: TypeHost>(ts: Types, t: u64, busy: Seq<u64>, p: Plan) -> bool
    decreases ts.infos@.len() - busy.len(), 0int, 0int,
{
    if t >= ts.infos@.len() || busy.len() >= ts.infos@.len() || busy.contains(t) {
        p == Plan::Again(t)
    } else {
        looked_up::<H>(ts, t, busy.push(t), p)
    }
}

/// `p` is the plan for an argument of a parametrized type: anything stands for any
/// plain value.
pub open spec fn argument_resolved<H: TypeHost>(ts: Types, t: u64, busy: Seq<u64>, p: Plan) -> bool
    decreases ts.infos@.len() - busy.len(), 1int, 0int,
{
    if form_of(ts, t) is Any {
        any_union(p)
    } else {
        resolved::<H>(ts, t, busy, p)
    }
}

/// `c` are the plans for the arguments of a parametrized type.
pub open spec fn arguments_resolved<H: TypeHost>(ts: Types, args: Seq<u64>, busy: Seq<u64>, c: Seq<Plan>) -> bool
    decreases ts.infos@.len() - busy.len(), 2int, 0int,
{
    c.len() == args.len() && forall|i: int|
        0 <= i < c.len() ==> argument_resolved::<H>(ts, args[i], busy, #[trigger] c[i])
}

/// `c` are the plans for types.
pub open spec fn all_resolved<H: TypeHost>(ts: Types, args: Seq<u64>, busy: Seq<u64>, c: Seq<Plan>) -> bool
    decreases ts.infos@.len() - busy.len(), 2int, 0int,
{
    c.len() == args.len() && forall|i: int|
        0 <= i < c.len() ==> resolved::<H>(ts, args[i], busy, #[trigger] c[i])
}

/// One of the types has a plan that is not of this library.
pub open spec fn some_foreign<H: TypeHost>(ts: Types, args: Seq<u64>, busy: Seq<u64>) -> bool
    decreases ts.infos@.len() - busy.len(), 2int, 0int,
{
    exists|i: int, q: Plan|
        0 <= i < args.len() && resolved::<H>(ts, #[trigger] args[i], busy, q) && !(#[trigger] q.native())
}

/// The message about a name that stands for no type.
pub open spec fn forward_text(name: Seq<char>) -> Seq<char> {
    "Could not resolve ForwardRef("@ + name
        + ") to a type. Consider register_type_strategy to register a strategy for this forward reference."@
}

/// `p` is the plan for a type variable.
pub open spec fn typevar_plan<H: TypeHost>(
    ts: Types,
    t: u64,
    shown: Seq<char>,
    entry: Option<Entry>,
    upper: TypeBound,
    constraints: Seq<u64>,
    busy: Seq<u64>,
    p: Plan,
) -> bool
    decreases ts.infos@.len() - busy.len(), 3int, 0int,
{
    if entry is Some {
        ||| maybe_entry::<H>(entry, t, shown, p)
        ||| may_decline::<H>(entry, t) && plan_failed(p, unresolved_text(shown))
    } else {
        match upper {
            TypeBound::Type(s) => resolved::<H>(ts, s, busy, p),
            TypeBound::Forward { target, entry: known, shown: forward, name } => if target is Some {
                resolved::<H>(ts, target->0, busy, p)
            } else {
                ||| maybe_entry::<H>(known, t, forward@, p)
                ||| may_decline::<H>(known, t) && plan_failed(p, forward_text(name@))
            },
            TypeBound::Unbound => {
                ||| constraints.len() > 0 && exists|c: Seq<Plan>|
                    all_resolved::<H>(ts, constraints, busy, c) && all_native(c)
                        && #[trigger] one_of_plan(p, c)
                ||| (constraints.len() == 0 || some_foreign::<H>(ts, constraints, busy))
                    && p is SharedScalar && p->key@ == "typevar="@ + shown
            },
        }
    }
}

/// The classes that types stand for, where all do.
pub open spec fn classes(ts: Types, args: Seq<u64>, s: Seq<u64>) -> bool {
    s.len() == args.len() && forall|i: int|
        0 <= i < args.len() ==> class_of(ts, #[trigger] args[i]) == Some(s[i])
}

/// `p` is the plan for classes that are `inner`, or parts of it.
pub open spec fn type_plan<H: TypeHost>(ts: Types, t: u64, inner: u64, p: Plan) -> bool {
    match union_args(form_of(ts, inner)) {
        Some(parts) => {
            ||| p is Sampled && classes(ts, parts, p->Sampled_0@)
            ||| legacy_plan::<H>(t, p) && exists|i: int|
                0 <= i < parts.len() && class_of(ts, #[trigger] parts[i]) is None
        },
        None => match class_of(ts, inner) {
            Some(c) => p == Plan::Just(c),
            None => legacy_plan::<H>(t, p),
        },
    }
}

/// `p` is the plan for functions.
pub open spec fn callable_plan<H: TypeHost>(ts: Types, args: Seq<u64>, busy: Seq<u64>, p: Plan) -> bool
    decreases ts.infos@.len() - busy.len(), 3int, 0int,
{
    &&& p is Functions
    &&& p->like == (if args.len() == 0 {
        Like::Usual
    } else {
        match form_of(ts, args[0]) {
            TypeForm::ArgList(n) => Like::Arity(n),
            _ => Like::Anything,
        }
    })
    &&& match p->result {
        Some(q) => args.len() >= 2 && resolved::<H>(ts, args.last(), busy, *q) && q.native(),
        None => args.len() < 2 || exists|q: Plan|
            resolved::<H>(ts, args.last(), busy, q) && !(#[trigger] q.native()),
    }
}

/// The arguments of a tuple stand for any number of elements.
pub open spec fn is_variadic(ts: Types, args: Seq<u64>) -> bool {
    exists|i: int| 0 <= i < args.len() && form_of(ts, #[trigger] args[i]) is Ellipsis
}

/// The arguments of a tuple stand for no elements.
pub open spec fn no_elements(ts: Types, args: Seq<u64>) -> bool {
    args.len() == 0 || (args.len() == 1 && form_of(ts, args[0]) is NoElements)
}

/// `p` is the plan for a parametrized type.
pub open spec fn generic_plan<H: TypeHost>(
    ts: Types,
    t: u64,
    shown: Seq<char>,
    g: Generic,
    busy: Seq<u64>,
    p: Plan,
) -> bool
    decreases ts.infos@.len() - busy.len(), 4int, 0int,
{
    let args = g.args@;
    if g.subtype is Some {
        kept_plan(g.subtype->0, shown, p)
    } else if is_bare(g) {
        bare_plan(g, p)
    } else if g.origin == Origin::Literal {
        p is Sampled && p->Sampled_0@ == args
    } else if g.origin == Origin::Wrapper && args.len() > 0 {
        resolved::<H>(ts, args[0], busy, p)
    } else if g.origin == Origin::Type && args.len() > 0 {
        type_plan::<H>(ts, t, args[0], p)
    } else if g.origin == Origin::Callable {
        callable_plan::<H>(ts, args, busy, p)
    } else if g.origin == Origin::Tuple && no_elements(ts, args) {
        p is EmptyTuple
    } else if g.origin == Origin::Tuple && is_variadic(ts, args) {
        ||| p is Mapped && p->pack == Pack::Tuple && *p->base is Lists && p->base->min == 0
            && argument_resolved::<H>(ts, args[0], busy, *p->base->Lists_elem)
            && p->base->Lists_elem.native()
        ||| legacy_plan::<H>(t, p) && exists|q: Plan|
            argument_resolved::<H>(ts, args[0], busy, q) && !(#[trigger] q.native())
    } else {
        exists|c: Seq<Plan>|
            arguments_resolved::<H>(ts, args, busy, c) && #[trigger] container_plan::<H>(
                ts,
                t,
                g,
                shown,
                c,
                p,
            )
    }
}

/// The plans for the first `n` keys of a typed dictionary.
pub open spec fn keys_resolved<H: TypeHost>(
    ts: Types,
    hints: Seq<KeyHint>,
    busy: Seq<u64>,
    required: Seq<KeyPlan>,
    optional: Seq<KeyPlan>,
    n: int,
) -> bool
    decreases ts.infos@.len() - busy.len(), 2int, n,
{
    if n <= 0 {
        required.len() == 0 && optional.len() == 0
    } else {
        let h = hints[n - 1];
        let s = if h.optional {
            optional
        } else {
            required
        };
        &&& s.len() > 0
        &&& s.last().key == h.key
        &&& resolved::<H>(ts, h.of, busy, s.last().plan)
        &&& s.last().plan.native()
        &&& if h.optional {
            keys_resolved::<H>(ts, hints, busy, required, optional.drop_last(), n - 1)
        } else {
            keys_resolved::<H>(ts, hints, busy, required.drop_last(), optional, n - 1)
        }
    }
}

/// One of the keys has a plan that is not of this library.
pub open spec fn foreign_key<H: TypeHost>(ts: Types, hints: Seq<KeyHint>, busy: Seq<u64>) -> bool
    decreases ts.infos@.len() - busy.len(), 2int, 0int,
{
    exists|i: int, q: Plan|
        0 <= i < hints.len() && resolved::<H>(ts, (#[trigger] hints[i]).of, busy, q) && !(
        #[trigger] q.native())
}

/// The plans for the fields among the first `n` whose types are known.
pub open spec fn fields_resolved<H: TypeHost>(
    ts: Types,
    hints: Seq<FieldHint>,
    busy: Seq<u64>,
    kwargs: Seq<NamedPlan>,
    n: int,
) -> bool
    decreases ts.infos@.len() - busy.len(), 2int, n,
{
    if n <= 0 {
        kwargs.len() == 0
    } else {
        let h = hints[n - 1];
        match h.of {
            None => fields_resolved::<H>(ts, hints, busy, kwargs, n - 1),
            Some(of) => {
                &&& kwargs.len() > 0
                &&& kwargs.last().name@ == h.name@
                &&& resolved::<H>(ts, of, busy, kwargs.last().plan)
                &&& kwargs.last().plan.native()
                &&& fields_resolved::<H>(ts, hints, busy, kwargs.drop_last(), n - 1)
            },
        }
    }
}

/// One of the fields has a plan that is not of this library.
pub open spec fn foreign_field<H: TypeHost>(ts: Types, hints: Seq<FieldHint>, busy: Seq<u64>) -> bool
    decreases ts.infos@.len() - busy.len(), 2int, 0int,
{
    exists|i: int, q: Plan|
        0 <= i < hints.len() && (#[trigger] hints[i]).of is Some && resolved::<H>(
            ts,
            hints[i].of->0,
            busy,
            q,
        ) && !(#[trigger] q.native())
}

/// A parameter that takes what is left over.
pub open spec fn is_var(k: ParamKind) -> bool {
    k == ParamKind::VarPositional || k == ParamKind::VarKeyword
}

/// A parameter that must be given, of which nothing is known.
pub open spec fn stuck(c: CtorParam) -> bool {
    !is_var(c.kind) && c.annotation is None && !c.has_default
}

/// The plans for the parameters among the first `n` whose types are known.
pub open spec fn params_resolved<H: TypeHost>(
    ts: Types,
    params: Seq<CtorParam>,
    busy: Seq<u64>,
    args: Seq<Plan>,
    kwargs: Seq<NamedPlan>,
    n: int,
) -> bool
    decreases ts.infos@.len() - busy.len(), 2int, n,
{
    if n <= 0 {
        args.len() == 0 && kwargs.len() == 0
    } else {
        let c = params[n - 1];
        if stuck(c) {
            false
        } else if is_var(c.kind) || c.annotation is None {
            params_resolved::<H>(ts, params, busy, args, kwargs, n - 1)
        } else if c.kind == ParamKind::PositionalOnly {
            &&& args.len() > 0
            &&& resolved::<H>(ts, c.annotation->0, busy, args.last())
            &&& args.last().native()
            &&& params_resolved::<H>(ts, params, busy, args.drop_last(), kwargs, n - 1)
        } else {
            &&& kwargs.len() > 0
            &&& kwargs.last().name@ == c.name@
            &&& resolved::<H>(ts, c.annotation->0, busy, kwargs.last().plan)
            &&& kwargs.last().plan.native()
            &&& params_resolved::<H>(ts, params, busy, args, kwargs.drop_last(), n - 1)
        }
    }
}

/// So many parameters were gone through, and gave these plans.
pub open spec fn is_attempt(n: int, args: Seq<Plan>, kwargs: Seq<NamedPlan>) -> bool {
    n >= 0
}

/// `p` is the plan for a class that is built by its constructor.
pub open spec fn class_plan<H: TypeHost>(
    ts: Types,
    t: u64,
    shown: Seq<char>,
    c: Class,
    busy: Seq<u64>,
    p: Plan,
) -> bool
    decreases ts.infos@.len() - busy.len(), 3int, 0int,
{
    match c.ctor {
        None => p is Builds && p->target == t && p->args@.len() == 0 && p->kwargs@.len() == 0,
        Some(params) => {
            ||| p is Builds && p->target == t && params_resolved::<H>(
                ts,
                params@,
                busy,
                p->args@,
                p->kwargs@,
                params@.len() as int,
            )
            ||| stuck_plan(c.real, shown, p) && exists|n: int, args: Seq<Plan>, kwargs: Seq<NamedPlan>|
                0 <= n < params@.len() && stuck(params@[n]) && #[trigger] is_attempt(
                    n,
                    args,
                    kwargs,
                ) && params_resolved::<H>(ts, params@, busy, args, kwargs, n)
            ||| legacy_plan::<H>(t, p) && foreign_param::<H>(ts, params@, busy)
        },
    }
}

/// One of the parameters has a plan that is not of this library.
pub open spec fn foreign_param<H: TypeHost>(ts: Types, params: Seq<CtorParam>, busy: Seq<u64>) -> bool
    decreases ts.infos@.len() - busy.len(), 2int, 0int,
{
    exists|i: int, q: Plan|
        0 <= i < params.len() && (#[trigger] params[i]).annotation is Some && !is_var(
            params[i].kind,
        ) && resolved::<H>(ts, params[i].annotation->0, busy, q) && !(#[trigger] q.native())
}

/// `p` is the plan for a class with a parameter of which nothing is known: what somebody
/// else has registered for the class, or a report.
pub open spec fn stuck_plan(found: RealLookup, shown: Seq<char>, p: Plan) -> bool {
    match found {
        RealLookup::Strategy(k) => p == Plan::Kept(k),
        RealLookup::Factory(Some(k)) => p == Plan::Kept(k),
        _ => plan_failed(p, unresolved_text(shown)),
    }
}

/// `p` is the plan for a type that is not being looked up already.
pub open spec fn looked_up<H: TypeHost>(ts: Types, t: u64, busy: Seq<u64>, p: Plan) -> bool
    decreases ts.infos@.len() - busy.len(), 6int, 0int,
{
    let entry = ts.infos@[t as int].entry;
    ||| maybe_entry::<H>(entry, t, ts.infos@[t as int].shown@, p)
    ||| may_decline::<H>(entry, t) && by_form::<H>(ts, t, busy, p)
}

/// `p` is the plan for a type by its form.
pub open spec fn by_form<H: TypeHost>(ts: Types, t: u64, busy: Seq<u64>, p: Plan) -> bool
    decreases ts.infos@.len() - busy.len(), 5int, 0int,
{
    let shown = ts.infos@[t as int].shown@;
    match ts.infos@[t as int].form {
        TypeForm::NewType(s) => resolved::<H>(ts, s, busy, p),
        TypeForm::ForwardRef(target) => match target {
            Some(s) => resolved::<H>(ts, s, busy, p),
            None => legacy_plan::<H>(t, p),
        },
        TypeForm::Annotated { meta, under } => match meta_strategy(meta@) {
            Some(k) => p == Plan::Kept(k),
            None => resolved::<H>(ts, under, busy, p),
        },
        TypeForm::TypeVar { entry, upper, constraints } => typevar_plan::<H>(
            ts,
            t,
            shown,
            entry,
            upper,
            constraints@,
            busy,
            p,
        ),
        TypeForm::Generic(g) => generic_plan::<H>(ts, t, shown, g, busy, p),
        TypeForm::TypedDict { hints } => match hints {
            None => legacy_plan::<H>(t, p),
            Some(h) => {
                ||| p is FixedDict && keys_resolved::<H>(
                    ts,
                    h@,
                    busy,
                    p->required@,
                    p->optional@,
                    h@.len() as int,
                )
                ||| legacy_plan::<H>(t, p) && foreign_key::<H>(ts, h@, busy)
            },
        },
        TypeForm::Fields { hints } => match hints {
            None => legacy_plan::<H>(t, p),
            Some(h) => {
                ||| p is Builds && p->target == t && p->args@.len() == 0 && fields_resolved::<H>(
                    ts,
                    h@,
                    busy,
                    p->kwargs@,
                    h@.len() as int,
                )
                ||| legacy_plan::<H>(t, p) && foreign_field::<H>(ts, h@, busy)
            },
        },
        TypeForm::Class(c) => {
            ||| exists|s: Seq<Plan>| #[trigger]
                via_subclasses::<H>(c.registered@, t, shown, s) && s.len() > 0 && one_of_plan(p, s)
            ||| via_subclasses::<H>(c.registered@, t, shown, Seq::empty()) && (if c.protocol {
                legacy_plan::<H>(t, p)
            } else {
                class_plan::<H>(ts, t, shown, c, busy, p)
            })
        },
        TypeForm::Ellipsis | TypeForm::NoElements | TypeForm::ArgList(_)
        | TypeForm::Other => legacy_plan::<H>(t, p),
        f => plain_form(f, t, p),
    }
}

// ---- what can be told without the host --------------------------------------

/// The plan for a type can be told without asking the host: neither a factory nor the
/// older lookup is needed on the way.
pub open spec fn known<H: TypeHost>(ts: Types, t: u64, busy: Seq<u64>) -> bool
    decreases ts.infos@.len() - busy.len(), 0int,
{
    if t >= ts.infos@.len() || busy.len() >= ts.infos@.len() || busy.contains(t) {
        true
    } else {
        let deeper = busy.push(t);
        match ts.infos@[t as int].entry {
            Some(e) => e is Strategy,
            None => form_known::<H>(ts, t, deeper),
        }
    }
}

/// The plan for an argument of a parametrized type can be told without the host.
pub open spec fn argument_known<H: TypeHost>(ts: Types, t: u64, busy: Seq<u64>) -> bool
    decreases ts.infos@.len() - busy.len(), 1int,
{
    form_of(ts, t) is Any || known::<H>(ts, t, busy)
}

/// The plan of a type may be one of this library.
pub open spec fn may_be_native<H: TypeHost>(ts: Types, t: u64, busy: Seq<u64>) -> bool {
    exists|q: Plan| resolved::<H>(ts, t, busy, q) && #[trigger] q.native()
}

/// The plans for types can be told without the host, up to the first that is not of
/// this library.
pub open spec fn all_known<H: TypeHost>(ts: Types, args: Seq<u64>, busy: Seq<u64>) -> bool
    decreases ts.infos@.len() - busy.len(), 2int,
{
    forall|i: int|
        0 <= i < args.len() && (forall|j: int|
            0 <= j < i ==> may_be_native::<H>(ts, #[trigger] args[j], busy)) ==> known::<H>(
            ts,
            #[trigger] args[i],
            busy,
        )
}

/// The plans for the arguments of a parametrized type can be told without the host.
pub open spec fn arguments_known<H: TypeHost>(ts: Types, args: Seq<u64>, busy: Seq<u64>) -> bool
    decreases ts.infos@.len() - busy.len(), 2int,
{
    forall|i: int| 0 <= i < args.len() ==> argument_known::<H>(ts, #[trigger] args[i], busy)
}

/// The plan for a type variable can be told without the host.
pub open spec fn typevar_known<H: TypeHost>(
    ts: Types,
    entry: Option<Entry>,
    upper: TypeBound,
    constraints: Seq<u64>,
    busy: Seq<u64>,
) -> bool
    decreases ts.infos@.len() - busy.len(), 3int,
{
    if entry is Some {
        entry->0 is Strategy
    } else {
        match upper {
            TypeBound::Type(s) => known::<H>(ts, s, busy),
            TypeBound::Forward { target, entry: at_hand, .. } => if target is Some {
                known::<H>(ts, target->0, busy)
            } else {
                at_hand is None || at_hand->0 is Strategy
            },
            TypeBound::Unbound => all_known::<H>(ts, constraints, busy),
        }
    }
}

/// The classes that are `inner`, or parts of it, can be told without the host.
pub open spec fn type_known(ts: Types, inner: u64) -> bool {
    match union_args(form_of(ts, inner)) {
        Some(parts) => forall|i: int|
            0 <= i < parts.len() ==> class_of(ts, #[trigger] parts[i]) is Some,
        None => class_of(ts, inner) is Some,
    }
}

/// The plan for functions can be told without the host.
pub open spec fn callable_known<H: TypeHost>(ts: Types, args: Seq<u64>, busy: Seq<u64>) -> bool
    decreases ts.infos@.len() - busy.len(), 3int,
{
    args.len() < 2 || known::<H>(ts, args.last(), busy)
}

/// The plan for a parametrized type can be told without the host.
pub open spec fn generic_known<H: TypeHost>(ts: Types, g: Generic, busy: Seq<u64>) -> bool
    decreases ts.infos@.len() - busy.len(), 4int,
{
    let args = g.args@;
    if g.subtype is Some || is_bare(g) || g.origin == Origin::Literal {
        true
    } else if g.origin == Origin::Wrapper && args.len() > 0 {
        known::<H>(ts, args[0], busy)
    } else if g.origin == Origin::Type && args.len() > 0 {
        type_known(ts, args[0])
    } else if g.origin == Origin::Callable {
        callable_known::<H>(ts, args, busy)
    } else if g.origin == Origin::Tuple && no_elements(ts, args) {
        true
    } else if g.origin == Origin::Tuple && is_variadic(ts, args) {
        argument_known::<H>(ts, args[0], busy) && forall|q: Plan|
            argument_resolved::<H>(ts, args[0], busy, q) ==> #[trigger] q.native()
    } else {
        &&& arguments_known::<H>(ts, args, busy)
        &&& forall|c: Seq<Plan>|
            arguments_resolved::<H>(ts, args, busy, c) ==> #[trigger] container_known(ts, g, c)
    }
}

/// The plan for a typed dictionary can be told without the host.
pub open spec fn keys_known<H: TypeHost>(ts: Types, hints: Seq<KeyHint>, busy: Seq<u64>) -> bool
    decreases ts.infos@.len() - busy.len(), 3int,
{
    &&& forall|i: int| 0 <= i < hints.len() ==> known::<H>(ts, (#[trigger] hints[i]).of, busy)
    &&& !foreign_key::<H>(ts, hints, busy)
}

/// The plan for a class by its fields can be told without the host.
pub open spec fn fields_known<H: TypeHost>(ts: Types, hints: Seq<FieldHint>, busy: Seq<u64>) -> bool
    decreases ts.infos@.len() - busy.len(), 3int,
{
    &&& forall|i: int|
        0 <= i < hints.len() && (#[trigger] hints[i]).of is Some ==> known::<H>(
            ts,
            hints[i].of->0,
            busy,
        )
    &&& !foreign_field::<H>(ts, hints, busy)
}

/// A parameter whose type is looked up: no parameter before it is stuck.
pub open spec fn is_asked(params: Seq<CtorParam>, i: int) -> bool {
    &&& params[i].annotation is Some
    &&& !is_var(params[i].kind)
    &&& forall|j: int| 0 <= j < i ==> !stuck(#[trigger] params[j])
}

/// The plan for a class by its constructor can be told without the host.
pub open spec fn class_known<H: TypeHost>(ts: Types, c: Class, busy: Seq<u64>) -> bool
    decreases ts.infos@.len() - busy.len(), 3int,
{
    match c.ctor {
        None => true,
        Some(params) => {
            &&& forall|i: int|
                0 <= i < params@.len() && #[trigger] is_asked(params@, i) ==> known::<H>(
                    ts,
                    params@[i].annotation->0,
                    busy,
                )
            &&& forall|i: int, q: Plan|
                0 <= i < params@.len() && #[trigger] is_asked(params@, i) && resolved::<H>(
                    ts,
                    params@[i].annotation->0,
                    busy,
                    q,
                ) ==> #[trigger] q.native()
        },
    }
}

/// The plan for a type by its form can be told without the host.
pub open spec fn form_known<H: TypeHost>(ts: Types, t: u64, busy: Seq<u64>) -> bool
    decreases ts.infos@.len() - busy.len(), 5int,
{
    match ts.infos@[t as int].form {
        TypeForm::NewType(s) => known::<H>(ts, s, busy),
        TypeForm::ForwardRef(target) => target is Some && known::<H>(ts, target->0, busy),
        TypeForm::Annotated { meta, under } => meta_strategy(meta@) is Some || known::<H>(
            ts,
            under,
            busy,
        ),
        TypeForm::TypeVar { entry, upper, constraints } => typevar_known::<H>(
            ts,
            entry,
            upper,
            constraints@,
            busy,
        ),
        TypeForm::Generic(g) => generic_known::<H>(ts, g, busy),
        TypeForm::TypedDict { hints } => hints is Some && keys_known::<H>(ts, hints->0@, busy),
        TypeForm::Fields { hints } => hints is Some && fields_known::<H>(ts, hints->0@, busy),
        TypeForm::Class(c) => {
            &&& only_strategies(c.registered@)
            &&& answering(c.registered@, c.registered@.len() as int).len() > 0 || (!c.protocol
                && class_known::<H>(ts, c, busy))
        },
        f => is_plain(f),
    }
}

/// The plan for a type does not depend on what the host finds out: a strategy is
/// registered for it, or nothing is and it is a plain type.
pub open spec fn settled(ts: Types, t: u64) -> bool {
    &&& t < ts.infos@.len()
    &&& match ts.infos@[t as int].entry {
        Some(e) => e is Strategy,
        None => is_plain(ts.infos@[t as int].form),
    }
}

/// The plan for a type.
pub fn from_type<H: TypeHost>(host: &mut H, ts: &Types, t: u64, busy: &Vec<u64>) -> (r: Result<
    Plan,
    Fault,
>)
    ensures
        r is Ok ==> resolved::<H>(*ts, t, busy@, r->Ok_0),
        t >= ts.infos@.len() || busy@.contains(t) || settled(*ts, t) ==> r is Ok,
        known::<H>(*ts, t, busy@) ==> r is Ok,
        r is Err ==> host_raised::<H>(r->Err_0),
    decreases ts.infos@.len() - busy@.len(), 0int, 0int,
{
    if t >= ts.infos.len() as u64 || busy.len() >= ts.infos.len() || listed(busy, t) {
        return Ok(Plan::Again(t));
    }
    let deeper = with_one(busy, t);
    from_type_impl(host, ts, t, &deeper)
}

/// The plan for a type that is not being looked up already: what is registered for it
/// comes first.
fn from_type_impl<H: TypeHost>(host: &mut H, ts: &Types, t: u64, busy: &Vec<u64>) -> (r: Result<
    Plan,
    Fault,
>)
    requires
        t < ts.infos@.len(),
    ensures
        r is Ok ==> looked_up::<H>(*ts, t, busy@, r->Ok_0),
        settled(*ts, t) ==> r is Ok,
        (match ts.infos@[t as int].entry {
            Some(e) => e is Strategy,
            None => form_known::<H>(*ts, t, busy@),
        }) ==> r is Ok,
        r is Err ==> host_raised::<H>(r->Err_0),
    decreases ts.infos@.len() - busy@.len(), 6int, 0int,
{
    let count: usize = ts.infos.len();
    assert(t < count);
    let info = &ts.infos[t as usize];
    match consult_maybe(host, &info.entry, t, info.shown.as_str()) {
        Ok(Some(p)) => {
            return Ok(p);
        },
        Ok(None) => {},
        Err(f) => {
            return Err(f);
        },
    }
    plan_by_form(host, ts, t, busy)
}

fn plan_argument<H: TypeHost>(host: &mut H, ts: &Types, t: u64, busy: &Vec<u64>) -> (r: Result<
    Plan,
    Fault,
>)
    ensures
        r is Ok ==> argument_resolved::<H>(*ts, t, busy@, r->Ok_0),
        argument_known::<H>(*ts, t, busy@) ==> r is Ok,
        r is Err ==> host_raised::<H>(r->Err_0),
    decreases ts.infos@.len() - busy@.len(), 1int, 0int,
{
    if t < ts.infos.len() as u64 {
        if let TypeForm::Any = &ts.infos[t as usize].form {
            return Ok(any_scalar_union());
        }
    }
    from_type(host, ts, t, busy)
}

fn plan_arguments<H: TypeHost>(host: &mut H, ts: &Types, args: &Vec<u64>, busy: &Vec<u64>) -> (r:
    Result<Vec<Plan>, Fault>)
    ensures
        r is Ok ==> arguments_resolved::<H>(*ts, args@, busy@, r->Ok_0@),
        arguments_known::<H>(*ts, args@, busy@) ==> r is Ok,
        r is Err ==> host_raised::<H>(r->Err_0),
    decreases ts.infos@.len() - busy@.len(), 2int, 0int,
{
    let mut out: Vec<Plan> = Vec::new();
    let mut i: usize = 0;
    while i < args.len()
        invariant
            i <= args.len(),
            out@.len() == i,
            forall|k: int|
                0 <= k < i ==> argument_resolved::<H>(*ts, args@[k], busy@, #[trigger] out@[k]),
        decreases args.len() - i,
    {
        match plan_argument(host, ts, args[i], busy) {
            Ok(p) => out.push(p),
            Err(f) => {
                return Err(f);
            },
        }
        i = i + 1;
    }
    Ok(out)
}

/// The plans for types, as long as they are of this library.
fn plan_all<H: TypeHost>(host: &mut H, ts: &Types, args: &Vec<u64>, busy: &Vec<u64>) -> (r: Result<
    Option<Vec<Plan>>,
    Fault,
>)
    ensures
        r is Ok && r->Ok_0 is Some ==> all_resolved::<H>(*ts, args@, busy@, r->Ok_0->0@) && all_native(
            r->Ok_0->0@,
        ),
        r is Ok && r->Ok_0 is None ==> some_foreign::<H>(*ts, args@, busy@),
        all_known::<H>(*ts, args@, busy@) ==> r is Ok,
        r is Err ==> host_raised::<H>(r->Err_0),
    decreases ts.infos@.len() - busy@.len(), 2int, 0int,
{
    let mut out: Vec<Plan> = Vec::new();
    let mut i: usize = 0;
    while i < args.len()
        invariant
            i <= args.len(),
            out@.len() == i,
            forall|k: int| 0 <= k < i ==> resolved::<H>(*ts, args@[k], busy@, #[trigger] out@[k]),
            forall|k: int| 0 <= k < i ==> (#[trigger] out@[k]).native(),
        decreases args.len() - i,
    {
        let t: u64 = args[i];
        proof {
            assert(t == args@[i as int]);
            assert forall|j: int| 0 <= j < i implies may_be_native::<H>(
                *ts,
                #[trigger] args@[j],
                busy@,
            ) by {
                assert(resolved::<H>(*ts, args@[j], busy@, out@[j]) && out@[j].native());
            }
        }
        match from_type(host, ts, t, busy) {
            Ok(p) => {
                if !p.is_native() {
                    proof {
                        assert(t == args@[i as int]);
                        assert(resolved::<H>(*ts, args@[i as int], busy@, p) && !p.native());
                    }
                    return Ok(None);
                }
                out.push(p);
            },
            Err(f) => {
                return Err(f);
            },
        }
        i = i + 1;
    }
    Ok(Some(out))
}

fn plan_typevar<H: TypeHost>(
    host: &mut H,
    ts: &Types,
    t: u64,
    shown: &str,
    entry: &Option<Entry>,
    upper: &TypeBound,
    constraints: &Vec<u64>,
    busy: &Vec<u64>,
) -> (r: Result<Plan, Fault>)
    ensures
        r is Ok ==> typevar_plan::<H>(*ts, t, shown@, *entry, *upper, constraints@, busy@, r->Ok_0),
        typevar_known::<H>(*ts, *entry, *upper, constraints@, busy@) ==> r is Ok,
        r is Err ==> host_raised::<H>(r->Err_0),
    decreases ts.infos@.len() - busy@.len(), 3int, 0int,
{
    if entry.is_some() {
        return match consult_maybe(host, entry, t, shown) {
            Ok(Some(p)) => Ok(p),
            Ok(None) => Ok(unresolved(shown)),
            Err(f) => Err(f),
        };
    }
    match upper {
        TypeBound::Type(s) => {
            return from_type(host, ts, *s, busy);
        },
        TypeBound::Forward { target, entry: known, shown: forward, name } => {
            if let Some(s) = target {
                return from_type(host, ts, *s, busy);
            }
            return match consult_maybe(host, known, t, forward.as_str()) {
                Ok(Some(p)) => Ok(p),
                Ok(None) => {
                    let mut msg = String::new();
                    msg.append("Could not resolve ForwardRef(");
                    msg.append(name.as_str());
                    msg.append(
                        ") to a type. Consider register_type_strategy to register a strategy for this forward reference.",
                    );
                    assert(msg@ =~= forward_text(name@));
                    Ok(Plan::Invalid { msg, failed: true })
                },
                Err(f) => Err(f),
            };
        },
        TypeBound::Unbound => {},
    }
    if constraints.len() > 0 {
        match plan_all(host, ts, constraints, busy) {
            Ok(Some(children)) => {
                let ghost c = children@;
                let p = plan_one_of(children);
                assert(all_resolved::<H>(*ts, constraints@, busy@, c) && one_of_plan(p, c));
                return Ok(p);
            },
            Ok(None) => {},
            Err(f) => {
                return Err(f);
            },
        }
    }
    let mut key = String::new();
    key.append("typevar=");
    key.append(shown);
    assert(key@ =~= "typevar="@ + shown@);
    Ok(Plan::SharedScalar { key })
}

fn plan_type<H: TypeHost>(host: &mut H, ts: &Types, t: u64, inner: u64) -> (r: Result<Plan, Fault>)
    ensures
        r is Ok ==> type_plan::<H>(*ts, t, inner, r->Ok_0),
        type_known(*ts, inner) ==> r is Ok,
        r is Err ==> host_raised::<H>(r->Err_0),
{
    if inner < ts.infos.len() as u64 {
        if let TypeForm::Generic(g) = &ts.infos[inner as usize].form {
            if g.origin == Origin::Union {
                let mut out: Vec<u64> = Vec::new();
                let mut i: usize = 0;
                while i < g.args.len()
                    invariant
                        i <= g.args.len(),
                        inner < ts.infos@.len(),
                        ts.infos@[inner as int].form == TypeForm::Generic(*g),
                        g.origin == Origin::Union,
                        out@.len() == i,
                        forall|k: int|
                            0 <= k < i ==> class_of(*ts, #[trigger] g.args@[k]) == Some(out@[k]),
                    decreases g.args.len() - i,
                {
                    match resolve_type_arg(ts, g.args[i]) {
                        Some(c) => out.push(c),
                        None => {
                            assert(class_of(*ts, g.args@[i as int]) is None);
                            return ask_legacy(host, t);
                        },
                    }
                    i = i + 1;
                }
                return Ok(Plan::Sampled(out));
            }
        }
    }
    match resolve_type_arg(ts, inner) {
        Some(c) => Ok(Plan::Just(c)),
        None => ask_legacy(host, t),
    }
}

fn plan_callable<H: TypeHost>(host: &mut H, ts: &Types, args: &Vec<u64>, busy: &Vec<u64>) -> (r:
    Result<Plan, Fault>)
    ensures
        r is Ok ==> callable_plan::<H>(*ts, args@, busy@, r->Ok_0),
        callable_known::<H>(*ts, args@, busy@) ==> r is Ok,
        r is Err ==> host_raised::<H>(r->Err_0),
    decreases ts.infos@.len() - busy@.len(), 3int, 0int,
{
    if args.len() == 0 {
        return Ok(Plan::Functions { like: Like::Usual, result: None });
    }
    let first: u64 = args[0];
    let mut like = Like::Anything;
    if first < ts.infos.len() as u64 {
        if let TypeForm::ArgList(n) = &ts.infos[first as usize].form {
            like = Like::Arity(*n);
        }
    }
    if args.len() < 2 {
        return Ok(Plan::Functions { like, result: None });
    }
    let last: u64 = args[args.len() - 1];
    match from_type(host, ts, last, busy) {
        Ok(q) => {
            if q.is_native() {
                Ok(Plan::Functions { like, result: Some(Box::new(q)) })
            } else {
                assert(resolved::<H>(*ts, args@.last(), busy@, q) && !q.native());
                Ok(Plan::Functions { like, result: None })
            }
        },
        Err(f) => Err(f),
    }
}

fn find_ellipsis(ts: &Types, args: &Vec<u64>) -> (r: bool)
    ensures
        r == is_variadic(*ts, args@),
{
    let mut i: usize = 0;
    while i < args.len()
        invariant
            i <= args.len(),
            forall|k: int| 0 <= k < i ==> !(form_of(*ts, #[trigger] args@[k]) is Ellipsis),
        decreases args.len() - i,
    {
        let t: u64 = args[i];
        if t < ts.infos.len() as u64 {
            if let TypeForm::Ellipsis = &ts.infos[t as usize].form {
                assert(form_of(*ts, args@[i as int]) is Ellipsis);
                return true;
            }
        }
        i = i + 1;
    }
    false
}

fn check_no_elements(ts: &Types, args: &Vec<u64>) -> (r: bool)
    ensures
        r == no_elements(*ts, args@),
{
    if args.len() == 0 {
        return true;
    }
    if args.len() != 1 {
        return false;
    }
    let t: u64 = args[0];
    if t < ts.infos.len() as u64 {
        match &ts.infos[t as usize].form {
            TypeForm::NoElements => true,
            _ => false,
        }
    } else {
        false
    }
}

fn plan_generic<H: TypeHost>(
    host: &mut H,
    ts: &Types,
    t: u64,
    shown: &str,
    g: &Generic,
    busy: &Vec<u64>,
) -> (r: Result<Plan, Fault>)
    ensures
        r is Ok ==> generic_plan::<H>(*ts, t, shown@, *g, busy@, r->Ok_0),
        generic_known::<H>(*ts, *g, busy@) ==> r is Ok,
        r is Err ==> host_raised::<H>(r->Err_0),
    decreases ts.infos@.len() - busy@.len(), 4int, 0int,
{
    if let Some(k) = g.subtype {
        return Ok(plan_kept(k, shown));
    }
    if let Some(p) = plan_bare(g) {
        return Ok(p);
    }
    if g.origin == Origin::Literal {
        let list = g.args.clone();
        assert(list@ =~= g.args@);
        return Ok(Plan::Sampled(list));
    }
    if g.origin == Origin::Wrapper && g.args.len() > 0 {
        return from_type(host, ts, g.args[0], busy);
    }
    if g.origin == Origin::Type && g.args.len() > 0 {
        return plan_type(host, ts, t, g.args[0]);
    }
    if g.origin == Origin::Callable {
        return plan_callable(host, ts, &g.args, busy);
    }
    if g.origin == Origin::Tuple {
        if check_no_elements(ts, &g.args) {
            return Ok(Plan::EmptyTuple);
        }
        if find_ellipsis(ts, &g.args) {
            return match plan_argument(host, ts, g.args[0], busy) {
                Ok(elem) => if elem.is_native() {
                    Ok(mapped(make_lists(elem), Pack::Tuple))
                } else {
                    assert(argument_resolved::<H>(*ts, g.args@[0], busy@, elem) && !elem.native());
                    ask_legacy(host, t)
                },
                Err(f) => Err(f),
            };
        }
    }
    match plan_arguments(host, ts, &g.args, busy) {
        Ok(c) => {
            let ghost cs = c@;
            let r = plan_container(host, ts, t, g, shown, c);
            assert(arguments_resolved::<H>(*ts, g.args@, busy@, cs));
            r
        },
        Err(f) => Err(f),
    }
}

fn plan_keys<H: TypeHost>(
    host: &mut H,
    ts: &Types,
    t: u64,
    hints: &Vec<KeyHint>,
    busy: &Vec<u64>,
) -> (r: Result<Plan, Fault>)
    ensures
        r is Ok ==> {
            ||| r->Ok_0 is FixedDict && keys_resolved::<H>(
                *ts,
                hints@,
                busy@,
                r->Ok_0->required@,
                r->Ok_0->optional@,
                hints@.len() as int,
            )
            ||| legacy_plan::<H>(t, r->Ok_0) && foreign_key::<H>(*ts, hints@, busy@)
        },
        keys_known::<H>(*ts, hints@, busy@) ==> r is Ok,
        r is Err ==> host_raised::<H>(r->Err_0),
    decreases ts.infos@.len() - busy@.len(), 3int, 0int,
{
    let mut required: Vec<KeyPlan> = Vec::new();
    let mut optional: Vec<KeyPlan> = Vec::new();
    let mut i: usize = 0;
    while i < hints.len()
        invariant
            i <= hints.len(),
            keys_resolved::<H>(*ts, hints@, busy@, required@, optional@, i as int),
        decreases hints.len() - i,
    {
        let of: u64 = hints[i].of;
        match from_type(host, ts, of, busy) {
            Ok(plan) => {
                if !plan.is_native() {
                    assert(resolved::<H>(*ts, hints@[i as int].of, busy@, plan) && !plan.native());
                    return ask_legacy(host, t);
                }
                let ghost r0 = required@;
                let ghost o0 = optional@;
                if hints[i].optional {
                    optional.push(KeyPlan { key: hints[i].key, plan });
                    assert(optional@.drop_last() =~= o0);
                } else {
                    required.push(KeyPlan { key: hints[i].key, plan });
                    assert(required@.drop_last() =~= r0);
                }
            },
            Err(f) => {
                return Err(f);
            },
        }
        i = i + 1;
    }
    Ok(Plan::FixedDict { required, optional })
}

fn plan_fields<H: TypeHost>(
    host: &mut H,
    ts: &Types,
    t: u64,
    hints: &Vec<FieldHint>,
    busy: &Vec<u64>,
) -> (r: Result<Plan, Fault>)
    ensures
        r is Ok ==> {
            ||| r->Ok_0 is Builds && r->Ok_0->target == t && r->Ok_0->args@.len() == 0
                && fields_resolved::<H>(*ts, hints@, busy@, r->Ok_0->kwargs@, hints@.len() as int)
            ||| legacy_plan::<H>(t, r->Ok_0) && foreign_field::<H>(*ts, hints@, busy@)
        },
        fields_known::<H>(*ts, hints@, busy@) ==> r is Ok,
        r is Err ==> host_raised::<H>(r->Err_0),
    decreases ts.infos@.len() - busy@.len(), 3int, 0int,
{
    let mut kwargs: Vec<NamedPlan> = Vec::new();
    let mut i: usize = 0;
    while i < hints.len()
        invariant
            i <= hints.len(),
            fields_resolved::<H>(*ts, hints@, busy@, kwargs@, i as int),
        decreases hints.len() - i,
    {
        if let Some(of) = hints[i].of {
            match from_type(host, ts, of, busy) {
                Ok(plan) => {
                    if !plan.is_native() {
                        assert(hints@[i as int].of is Some);
                        assert(resolved::<H>(*ts, hints@[i as int].of->0, busy@, plan)
                            && !plan.native());
                        return ask_legacy(host, t);
                    }
                    let ghost k0 = kwargs@;
                    kwargs.push(NamedPlan { name: hints[i].name.clone(), plan });
                    assert(kwargs@.drop_last() =~= k0);
                },
                Err(f) => {
                    return Err(f);
                },
            }
        }
        i = i + 1;
    }
    Ok(Plan::Builds { target: t, args: Vec::new(), kwargs })
}

/// The plan for a class that is built by its constructor: with a plan for each parameter
/// whose type is known.
pub fn generic_class_strategy<H: TypeHost>(
    host: &mut H,
    ts: &Types,
    t: u64,
    shown: &str,
    c: &Class,
    busy: &Vec<u64>,
) -> (r: Result<Plan, Fault>)
    ensures
        r is Ok ==> class_plan::<H>(*ts, t, shown@, *c, busy@, r->Ok_0),
        class_known::<H>(*ts, *c, busy@) ==> r is Ok,
        r is Err ==> host_raised::<H>(r->Err_0),
    decreases ts.infos@.len() - busy@.len(), 3int, 0int,
{
    let params = match &c.ctor {
        Some(p) => p,
        None => {
            return Ok(Plan::Builds { target: t, args: Vec::new(), kwargs: Vec::new() });
        },
    };
    let mut args: Vec<Plan> = Vec::new();
    let mut kwargs: Vec<NamedPlan> = Vec::new();
    let mut i: usize = 0;
    while i < params.len()
        invariant
            i <= params.len(),
            c.ctor == Some(*params),
            forall|j: int| 0 <= j < i ==> !stuck(#[trigger] params@[j]),
            params_resolved::<H>(*ts, params@, busy@, args@, kwargs@, i as int),
        decreases params.len() - i,
    {
        let kind = params[i].kind;
        let var = kind == ParamKind::VarPositional || kind == ParamKind::VarKeyword;
        assert(is_asked(params@, i as int) <==> !var && params@[i as int].annotation is Some);
        if !var {
            match params[i].annotation {
                Some(of) => match from_type(host, ts, of, busy) {
                    Ok(plan) => {
                        if !plan.is_native() {
                            proof {
                                assert(params@[i as int].annotation is Some);
                                assert(resolved::<H>(
                                    *ts,
                                    params@[i as int].annotation->0,
                                    busy@,
                                    plan,
                                ) && !plan.native());
                                assert(foreign_param::<H>(*ts, params@, busy@));
                            }
                            return ask_legacy(host, t);
                        }
                        if kind == ParamKind::PositionalOnly {
                            let ghost a0 = args@;
                            args.push(plan);
                            assert(args@.drop_last() =~= a0);
                        } else {
                            let ghost k0 = kwargs@;
                            kwargs.push(NamedPlan { name: params[i].name.clone(), plan });
                            assert(kwargs@.drop_last() =~= k0);
                        }
                    },
                    Err(f) => {
                        return Err(f);
                    },
                },
                None => {
                    if !params[i].has_default {
                        assert(stuck(params@[i as int]));
                        assert(is_attempt(i as int, args@, kwargs@));
                        return Ok(
                            match resolve_via_real_lookup(c.real) {
                                Some(p) => p,
                                None => unresolved(shown),
                            },
                        );
                    }
                },
            }
        }
        assert(params_resolved::<H>(*ts, params@, busy@, args@, kwargs@, i + 1));
        i = i + 1;
    }
    Ok(Plan::Builds { target: t, args, kwargs })
}

fn plan_by_form<H: TypeHost>(host: &mut H, ts: &Types, t: u64, busy: &Vec<u64>) -> (r: Result<
    Plan,
    Fault,
>)
    requires
        t < ts.infos@.len(),
    ensures
        r is Ok ==> by_form::<H>(*ts, t, busy@, r->Ok_0),
        is_plain(form_of(*ts, t)) || form_known::<H>(*ts, t, busy@) ==> r is Ok,
        r is Err ==> host_raised::<H>(r->Err_0),
    decreases ts.infos@.len() - busy@.len(), 5int, 0int,
{
    let count: usize = ts.infos.len();
    assert(t < count);
    let info = &ts.infos[t as usize];
    match plan_plain(&info.form, t) {
        Some(p) => {
            return Ok(p);
        },
        None => {},
    }
    match &info.form {
        TypeForm::NewType(s) => from_type(host, ts, *s, busy),
        TypeForm::ForwardRef(target) => match target {
            Some(s) => from_type(host, ts, *s, busy),
            None => ask_legacy(host, t),
        },
        TypeForm::Annotated { meta, under } => match annotated_strategy(meta) {
            Some(k) => Ok(Plan::Kept(k)),
            None => from_type(host, ts, *under, busy),
        },
        TypeForm::TypeVar { entry, upper, constraints } => plan_typevar(
            host,
            ts,
            t,
            info.shown.as_str(),
            entry,
            upper,
            constraints,
            busy,
        ),
        TypeForm::Generic(g) => plan_generic(host, ts, t, info.shown.as_str(), g, busy),
        TypeForm::TypedDict { hints } => match hints {
            Some(h) => plan_keys(host, ts, t, h, busy),
            None => ask_legacy(host, t),
        },
        TypeForm::Fields { hints } => match hints {
            Some(h) => plan_fields(host, ts, t, h, busy),
            None => ask_legacy(host, t),
        },
        TypeForm::Class(c) => match resolve_via_subclasses(
            host,
            &c.registered,
            t,
            info.shown.as_str(),
        ) {
            Ok(Some(p)) => Ok(p),
            Ok(None) => if c.protocol {
                ask_legacy(host, t)
            } else {
                generic_class_strategy(host, ts, t, info.shown.as_str(), c, busy)
            },
            Err(f) => Err(f),
        },
        _ => ask_legacy(host, t),
    }
}

} // verus!
