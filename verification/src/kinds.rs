//! What plans for types come to: the values that they yield are instances of the types.
use crate::fromtype::{
    bare_plan, fields_resolved, generic_plan, has_rule, is_bare, is_plain, keys_resolved, nothing_first,
    params_resolved, picked, plain_form, resolved, rule_plan,
};
use crate::typeres::TypeHost;
use crate::types::{
    any_union, class_of, form_of, union_args, CtorParam, FieldHint, Generic, KeyHint, KeyPlan, NamedPlan, Origin, Pack,
    ParamKind, Plan, Standard, TypeForm, Types,
};
use vstd::prelude::*;

verus! {

/// A value, as far as its type goes.
pub enum Thing {
    Nil,
    Bool(bool),
    Integer(int),
    Float(u64),
    Str(Seq<u32>),
    Bytes(Seq<u8>),
    /// A value of a type of the standard library.
    Of(Standard),
    List(Seq<Thing>),
    Tuple(Seq<Thing>),
    Bag { items: Seq<Thing>, frozen: bool },
    Dict { keys: Seq<Thing>, values: Seq<Thing> },
    /// What a function made of a value.
    Packed { pack: Pack, of: Box<Thing> },
    /// An instance of a class.
    Instance { class: u64 },
    Function,
    /// An object of the host.
    Object { id: u64 },
}

/// The values that a plan yields. A plan of the host may yield anything.
pub open spec fn yields(p: Plan, v: Thing) -> bool
    decreases p,
{
    match p {
        Plan::Nil => v is Nil,
        Plan::Booleans => v is Bool,
        Plan::Integers => v is Integer,
        Plan::Counts => v is Integer && v->Integer_0 >= 0,
        Plan::Floats => v is Float,
        Plan::Text => v is Str,
        Plan::Binary => v is Bytes,
        Plan::Value(s) => v == Thing::Of(s),
        Plan::OneOf(c) => exists|i: int| 0 <= i < c@.len() && yields(#[trigger] c@[i], v),
        Plan::Tuples(c) => v is Tuple && v->Tuple_0.len() == c@.len() && forall|i: int|
            0 <= i < c@.len() ==> yields(#[trigger] c@[i], v->Tuple_0[i]),
        Plan::Lists { elem, min } => v is List && v->List_0.len() >= min && forall|i: int|
            0 <= i < v->List_0.len() ==> yields(*elem, #[trigger] v->List_0[i]),
        Plan::Sets { elem, frozen } => v is Bag && v->frozen == frozen && forall|i: int|
            0 <= i < v->items.len() ==> yields(*elem, #[trigger] v->items[i]),
        Plan::Dicts { keys, values } => {
            &&& v is Dict && v->keys.len() == v->values.len()
            &&& forall|i: int| 0 <= i < v->keys.len() ==> yields(*keys, #[trigger] v->keys[i])
            &&& forall|i: int| 0 <= i < v->values.len() ==> yields(*values, #[trigger] v->values[i])
        },
        Plan::Mapped { base, pack } => v is Packed && v->pack == pack && yields(*base, *v->of),
        Plan::Hashable(q) => yields(*q, v),
        Plan::Sampled(list) => v is Object && list@.contains(v->id),
        Plan::Just(id) => v == Thing::Object { id },
        Plan::EmptyTuple => v is Tuple && v->Tuple_0.len() == 0,
        Plan::SharedScalar { .. } => is_scalar(v),
        Plan::Builds { target, .. } => v == Thing::Instance { class: target },
        Plan::Functions { .. } => v is Function,
        Plan::FixedDict { .. } => v is Dict,
        Plan::Invalid { .. } => false,
        Plan::Again(_) | Plan::Abstract(_) | Plan::Kept(_) | Plan::Legacy { .. } => true,
    }
}

/// Nothing, a truth value, a number or a string.
pub open spec fn is_scalar(v: Thing) -> bool {
    v is Nil || v is Bool || v is Integer || v is Float || v is Str
}

/// All of them are plain.
pub open spec fn all_scalar(s: Seq<Thing>) -> bool {
    forall|i: int| 0 <= i < s.len() ==> is_scalar(#[trigger] s[i])
}

/// What values of a plain type are made up as. Where nothing is said about elements, they
/// are plain.
pub open spec fn is_instance(f: TypeForm, t: u64, v: Thing) -> bool {
    match f {
        TypeForm::Nil => v is Nil,
        TypeForm::Object => is_scalar(v),
        TypeForm::BareList => v is List && all_scalar(v->List_0),
        TypeForm::BareSet => v is Bag && !v->frozen && all_scalar(v->items),
        TypeForm::BareFrozenSet => v is Bag && v->frozen && all_scalar(v->items),
        TypeForm::BareDict => v is Dict && v->keys.len() == v->values.len() && all_scalar(v->keys)
            && all_scalar(v->values),
        TypeForm::Bool => v is Bool,
        TypeForm::Int => v is Integer,
        TypeForm::Float => v is Float,
        TypeForm::Str => v is Str,
        TypeForm::Bytes => v is Bytes,
        TypeForm::Value(s) => v is Of && v->Of_0 == s,
        TypeForm::OfBytes(k) => v is Packed && v->pack == k && *v->of is Bytes,
        TypeForm::OfInteger(k) => v is Packed && v->pack == k && *v->of is Integer,
        TypeForm::ExceptionGroup { .. } => v is Instance && v->class == t,
        TypeForm::Enum { members } => v is Object && members@.contains(v->id),
        TypeForm::Any | TypeForm::BareUnion => false,
        _ => true,
    }
}

/// The union of the plain types yields exactly the plain values.
pub proof fn the_plain_types_yield_plain_values(p: Plan, v: Thing)
    requires
        any_union(p),
    ensures
        yields(p, v) <==> is_scalar(v),
{
    let c = p->OneOf_0@;
    reveal_with_fuel(yields, 3);
    if is_scalar(v) {
        let i: int = if v is Nil {
            0
        } else if v is Bool {
            1
        } else if v is Integer {
            2
        } else if v is Float {
            3
        } else {
            4
        };
        assert(yields(c[i], v));
    }
}

proof fn lemma_plain_values()
    ensures
        forall|p: Plan, v: Thing|
            any_union(p) ==> (#[trigger] yields(p, v) <==> is_scalar(v)),
{
    assert forall|p: Plan, v: Thing| any_union(p) implies (#[trigger] yields(p, v) <==> is_scalar(
        v,
    )) by {
        the_plain_types_yield_plain_values(p, v);
    }
}

/// The plan for a plain type yields exactly the values of that type.
pub proof fn plain_plans_yield_instances(f: TypeForm, t: u64, p: Plan, v: Thing)
    requires
        is_plain(f),
        plain_form(f, t, p),
    ensures
        yields(p, v) <==> is_instance(f, t, v),
{
    lemma_plain_values();
    reveal_with_fuel(yields, 3);
}

/// A plain type for which nothing is registered is resolved to a plan that yields exactly its
/// values.
pub proof fn plain_types_are_resolved_to_their_instances<H: TypeHost>(
    ts: Types,
    t: u64,
    busy: Seq<u64>,
    p: Plan,
    v: Thing,
)
    requires
        resolved::<H>(ts, t, busy, p),
        t < ts.infos@.len(),
        busy.len() < ts.infos@.len(),
        !busy.contains(t),
        ts.infos@[t as int].entry is None,
        is_plain(ts.infos@[t as int].form),
    ensures
        yields(p, v) <==> is_instance(ts.infos@[t as int].form, t, v),
{
    reveal_with_fuel(resolved, 2);
    plain_plans_yield_instances(ts.infos@[t as int].form, t, p, v);
}

/// What values of a parametrized type are made up as, where `fits` tells whether a value fits
/// an argument.
pub open spec fn is_container(
    g: Generic,
    n: int,
    ints: bool,
    v: Thing,
    fits: spec_fn(int, Thing) -> bool,
) -> bool {
    let each = |s: Seq<Thing>, k: int|
        forall|i: int| 0 <= i < s.len() ==> fits(k, #[trigger] s[i]);
    let dict = |d: Thing|
        d is Dict && d->keys.len() == d->values.len() && each(d->keys, 0) && each(d->values, 1);
    match g.origin {
        Origin::Union => exists|i: int| 0 <= i < n && #[trigger] fits(i, v),
        Origin::Tuple => v is Tuple && v->Tuple_0.len() == n && forall|i: int|
            0 <= i < n ==> fits(i, #[trigger] v->Tuple_0[i]),
        Origin::List => v is List && each(v->List_0, 0),
        Origin::BuiltinSet | Origin::AbstractSet | Origin::MutableSet => v is Bag && !v->frozen
            && each(v->items, 0),
        Origin::FrozenSet => v is Bag && v->frozen && each(v->items, 0),
        Origin::Dict | Origin::Mapping | Origin::MutableMapping => dict(v),
        Origin::Iterator => v is Packed && v->pack == Pack::Iter && *v->of is List && each(
            v->of->List_0,
            0,
        ),
        Origin::Deque => v is Packed && v->pack == Pack::Deque && *v->of is List && each(
            v->of->List_0,
            0,
        ),
        Origin::Generator => {
            &&& v is Packed && v->pack == Pack::Generator
            &&& *v->of is Tuple && v->of->Tuple_0.len() == 2
            &&& v->of->Tuple_0[0] is List && each(v->of->Tuple_0[0]->List_0, 0)
            &&& fits(2, v->of->Tuple_0[1])
        },
        Origin::KeysView => {
            &&& v is Packed && v->pack == Pack::Keys && *v->of is Dict
            &&& each(v->of->keys, 0) && v->of->keys.len() == v->of->values.len()
            &&& forall|i: int| 0 <= i < v->of->values.len() ==> #[trigger] v->of->values[i] is Nil
        },
        Origin::ValuesView => {
            &&& v is Packed && v->pack == Pack::Values && *v->of is Dict
            &&& each(v->of->values, 0) && v->of->keys.len() == v->of->values.len()
            &&& forall|i: int| 0 <= i < v->of->keys.len() ==> #[trigger] v->of->keys[i] is Integer
        },
        Origin::Counter => {
            &&& v is Packed && v->pack == Pack::Counter && *v->of is Dict
            &&& each(v->of->keys, 0) && v->of->keys.len() == v->of->values.len()
            &&& forall|i: int|
                0 <= i < v->of->values.len() ==> (#[trigger] v->of->values[i]) is Integer
                    && v->of->values[i]->Integer_0 >= 0
        },
        Origin::ItemsView => v is Packed && v->pack == Pack::Items && dict(*v->of),
        Origin::OrderedDict => v is Packed && v->pack == Pack::OrderedDict && dict(*v->of),
        Origin::DefaultDict => v is Packed && v->pack == Pack::DefaultDict && dict(*v->of),
        Origin::ChainMap => v is Packed && v->pack == Pack::ChainMap && dict(*v->of),
        _ => (v is List && each(v->List_0, 0)) || (ints && v is Bytes),
    }
}

proof fn lemma_picked(ts: Types, args: Seq<u64>, c: Seq<Plan>, nil: bool, n: int, v: Thing)
    requires
        0 <= n <= c.len(),
    ensures
        (exists|i: int|
            0 <= i < picked(ts, args, c, nil, n).len() && yields(
                #[trigger] picked(ts, args, c, nil, n)[i],
                v,
            )) <==> exists|i: int|
            0 <= i < n && (form_of(ts, args[i]) is Nil) == nil && yields(#[trigger] c[i], v),
    decreases n,
{
    let s = picked(ts, args, c, nil, n);
    if n > 0 {
        lemma_picked(ts, args, c, nil, n - 1, v);
        let before = picked(ts, args, c, nil, n - 1);
        if (form_of(ts, args[n - 1]) is Nil) == nil {
            assert(s == before.push(c[n - 1]));
            assert(s.last() == c[n - 1]);
            if exists|i: int| 0 <= i < s.len() && yields(#[trigger] s[i], v) {
                let i = choose|i: int| 0 <= i < s.len() && yields(#[trigger] s[i], v);
                if i < before.len() {
                    assert(yields(before[i], v));
                } else {
                    assert(yields(c[n - 1], v));
                }
            }
            if exists|i: int|
                0 <= i < n && (form_of(ts, args[i]) is Nil) == nil && yields(#[trigger] c[i], v) {
                let i = choose|i: int|
                    0 <= i < n && (form_of(ts, args[i]) is Nil) == nil && yields(#[trigger] c[i], v);
                if i < n - 1 {
                    let k = choose|k: int| 0 <= k < before.len() && yields(#[trigger] before[k], v);
                    assert(s[k] == before[k]);
                } else {
                    assert(yields(s[s.len() - 1], v));
                }
            }
        } else {
            assert(s == before);
            if exists|i: int|
                0 <= i < n && (form_of(ts, args[i]) is Nil) == nil && yields(#[trigger] c[i], v) {
                let i = choose|i: int|
                    0 <= i < n && (form_of(ts, args[i]) is Nil) == nil && yields(#[trigger] c[i], v);
                assert(i < n - 1);
            }
        }
    }
}

proof fn lemma_nothing_first(ts: Types, args: Seq<u64>, c: Seq<Plan>, v: Thing)
    requires
        args.len() == c.len(),
    ensures
        (exists|i: int|
            0 <= i < nothing_first(ts, args, c).len() && yields(
                #[trigger] nothing_first(ts, args, c)[i],
                v,
            )) <==> exists|i: int| 0 <= i < c.len() && yields(#[trigger] c[i], v),
{
    let n = c.len() as int;
    let all = nothing_first(ts, args, c);
    lemma_picked(ts, args, c, true, n, v);
    lemma_picked(ts, args, c, false, n, v);
    let a = picked(ts, args, c, true, n);
    let b = picked(ts, args, c, false, n);
    assert(all == a + b);
    if exists|i: int| 0 <= i < all.len() && yields(#[trigger] all[i], v) {
        let i = choose|i: int| 0 <= i < all.len() && yields(#[trigger] all[i], v);
        if i < a.len() {
            assert(yields(a[i], v));
        } else {
            assert(yields(b[i - a.len()], v));
        }
    }
    if exists|i: int| 0 <= i < c.len() && yields(#[trigger] c[i], v) {
        let i = choose|i: int| 0 <= i < c.len() && yields(#[trigger] c[i], v);
        if form_of(ts, args[i]) is Nil {
            let k = choose|k: int| 0 <= k < a.len() && yields(#[trigger] a[k], v);
            assert(all[k] == a[k]);
        } else {
            let k = choose|k: int| 0 <= k < b.len() && yields(#[trigger] b[k], v);
            assert(all[a.len() + k] == b[k]);
        }
    }
}

/// The plan for a parametrized type yields exactly the containers of what the plans for its
/// arguments yield.
#[verifier::rlimit(40)]
pub proof fn containers_hold_what_their_arguments_yield(
    ts: Types,
    g: Generic,
    c: Seq<Plan>,
    p: Plan,
    v: Thing,
)
    requires
        rule_plan(ts, g, c, p),
        has_rule(g.origin, c.len() as int),
        c.len() == g.args@.len(),
    ensures
        yields(p, v) <==> is_container(
            g,
            c.len() as int,
            crate::types::admits(ts, g.args@[0], Seq::empty()),
            v,
            |i: int, x: Thing| yields(c[i], x),
        ),
{
    reveal_with_fuel(yields, 4);
    let fits = |i: int, x: Thing| yields(c[i], x);
    match g.origin {
        Origin::Union => {
            lemma_nothing_first(ts, g.args@, c, v);
            let all = nothing_first(ts, g.args@, c);
            if exists|i: int| 0 <= i < c.len() && yields(#[trigger] c[i], v) {
                let i = choose|i: int| 0 <= i < c.len() && yields(#[trigger] c[i], v);
                assert(fits(i, v));
            }
            if exists|i: int| 0 <= i < c.len() && #[trigger] fits(i, v) {
                let i = choose|i: int| 0 <= i < c.len() && #[trigger] fits(i, v);
                assert(yields(c[i], v));
            }
            if all.len() == 1 {
                if yields(p, v) {
                    assert(yields(all[0], v));
                }
            }
        },
        Origin::Tuple => {
            if yields(p, v) {
                assert forall|i: int| 0 <= i < c.len() implies fits(i, #[trigger] v->Tuple_0[i]) by {
                    assert(yields(p->Tuples_0@[i], v->Tuple_0[i]));
                }
            }
        },
        Origin::Generator => {
            let parts = p->base->Tuples_0@;
            if yields(p, v) {
                assert(yields(parts[0], v->of->Tuple_0[0]));
                assert(yields(parts[1], v->of->Tuple_0[1]));
            }
        },
        Origin::List | Origin::BuiltinSet | Origin::AbstractSet | Origin::MutableSet
        | Origin::FrozenSet | Origin::Dict | Origin::Mapping | Origin::MutableMapping
        | Origin::Iterator | Origin::KeysView | Origin::ValuesView | Origin::ItemsView
        | Origin::Deque | Origin::OrderedDict | Origin::Counter | Origin::DefaultDict
        | Origin::ChainMap => {},
        _ => {
            if p is OneOf {
                let parts = p->OneOf_0@;
                if yields(parts[0], v) || yields(parts[1], v) {
                    assert(yields(p, v));
                }
            }
        },
    }
}

/// The plan for a parametrized type without arguments yields exactly the containers of plain
/// values, and the tuple without elements where that was written down.
pub proof fn bare_containers_hold_plain_values(g: Generic, p: Plan, v: Thing)
    requires
        is_bare(g),
        bare_plan(g, p),
    ensures
        yields(p, v) <==> match g.origin {
            Origin::BuiltinSet | Origin::AbstractSet | Origin::MutableSet => v is Bag && !v->frozen
                && all_scalar(v->items),
            Origin::FrozenSet => v is Bag && v->frozen && all_scalar(v->items),
            Origin::Dict | Origin::Mapping | Origin::MutableMapping => v is Dict && v->keys.len()
                == v->values.len() && all_scalar(v->keys) && all_scalar(v->values),
            Origin::Tuple => if g.explicit {
                v is Tuple && v->Tuple_0.len() == 0
            } else {
                v is Packed && v->pack == Pack::Tuple && *v->of is List && all_scalar(v->of->List_0)
            },
            Origin::Iterator => v is Packed && v->pack == Pack::Iter && *v->of is List
                && all_scalar(v->of->List_0),
            _ => v is List && all_scalar(v->List_0),
        },
{
    lemma_plain_values();
    reveal_with_fuel(yields, 3);
    match g.origin {
        Origin::Tuple | Origin::Iterator => {
            if p is Mapped && v is Packed {
                lemma_lists_of_plain_values(*p->base, *v->of);
            }
        },
        _ => {},
    }
}

proof fn lemma_lists_of_plain_values(p: Plan, v: Thing)
    requires
        crate::fromtype::lists_of_any(p),
    ensures
        yields(p, v) <==> v is List && all_scalar(v->List_0),
{
    reveal_with_fuel(yields, 2);
    let elem = *p->Lists_elem;
    if v is List {
        let s = v->List_0;
        assert forall|i: int| 0 <= i < s.len() implies (yields(elem, #[trigger] s[i])
            <==> is_scalar(s[i])) by {
            the_plain_types_yield_plain_values(elem, s[i]);
        }
    }
}

/// A key has a plan for a type.
pub open spec fn key_planned<H: TypeHost>(
    ts: Types,
    busy: Seq<u64>,
    plans: Seq<KeyPlan>,
    h: KeyHint,
) -> bool {
    exists|j: int|
        0 <= j < plans.len() && (#[trigger] plans[j]).key == h.key && resolved::<H>(
            ts,
            h.of,
            busy,
            plans[j].plan,
        )
}

/// Every key of a typed dictionary has a plan for its own type, among the required ones or the
/// optional ones, as it was declared, and there are no other keys.
pub proof fn every_key_is_planned<H: TypeHost>(
    ts: Types,
    hints: Seq<KeyHint>,
    busy: Seq<u64>,
    required: Seq<KeyPlan>,
    optional: Seq<KeyPlan>,
    n: int,
)
    requires
        keys_resolved::<H>(ts, hints, busy, required, optional, n),
        0 <= n <= hints.len(),
    ensures
        required.len() + optional.len() == n,
        forall|i: int|
            0 <= i < n && (#[trigger] hints[i]).optional ==> key_planned::<H>(
                ts,
                busy,
                optional,
                hints[i],
            ),
        forall|i: int|
            0 <= i < n && !(#[trigger] hints[i]).optional ==> key_planned::<H>(
                ts,
                busy,
                required,
                hints[i],
            ),
    decreases n,
{
    if n > 0 {
        let last = hints[n - 1];
        let (r, o) = if last.optional {
            (required, optional.drop_last())
        } else {
            (required.drop_last(), optional)
        };
        every_key_is_planned::<H>(ts, hints, busy, r, o, n - 1);
        assert forall|i: int| 0 <= i < n && (
        #[trigger] hints[i]).optional implies key_planned::<H>(
            ts,
            busy,
            optional,
            hints[i],
        ) by {
            if i < n - 1 {
                lemma_key_stays::<H>(ts, busy, o, optional, hints[i]);
            } else {
                assert(optional[optional.len() - 1] == optional.last());
            }
        }
        assert forall|i: int| 0 <= i < n && !(
        #[trigger] hints[i]).optional implies key_planned::<H>(
            ts,
            busy,
            required,
            hints[i],
        ) by {
            if i < n - 1 {
                lemma_key_stays::<H>(ts, busy, r, required, hints[i]);
            } else {
                assert(required[required.len() - 1] == required.last());
            }
        }
    }
}

proof fn lemma_key_stays<H: TypeHost>(
    ts: Types,
    busy: Seq<u64>,
    before: Seq<KeyPlan>,
    plans: Seq<KeyPlan>,
    h: KeyHint,
)
    requires
        key_planned::<H>(ts, busy, before, h),
        before.len() <= plans.len(),
        forall|j: int| 0 <= j < before.len() ==> #[trigger] plans[j] == before[j],
    ensures
        key_planned::<H>(ts, busy, plans, h),
{
    let j = choose|j: int|
        0 <= j < before.len() && (#[trigger] before[j]).key == h.key && resolved::<H>(
            ts,
            h.of,
            busy,
            before[j].plan,
        );
    assert(plans[j] == before[j]);
}

/// Every field of a class with a known type gets a plan for that type, by its name.
pub proof fn every_field_is_planned<H: TypeHost>(
    ts: Types,
    hints: Seq<FieldHint>,
    busy: Seq<u64>,
    kwargs: Seq<NamedPlan>,
    n: int,
)
    requires
        fields_resolved::<H>(ts, hints, busy, kwargs, n),
        0 <= n <= hints.len(),
    ensures
        kwargs.len() <= n,
        forall|i: int|
            0 <= i < n && (#[trigger] hints[i]).of is Some ==> planned_as::<H>(
                ts,
                busy,
                kwargs,
                hints[i].name@,
                hints[i].of->0,
            ),
    decreases n,
{
    if n > 0 {
        let before = if hints[n - 1].of is Some {
            kwargs.drop_last()
        } else {
            kwargs
        };
        every_field_is_planned::<H>(ts, hints, busy, before, n - 1);
        assert forall|i: int| 0 <= i < n && (
        #[trigger] hints[i]).of is Some implies planned_as::<H>(
            ts,
            busy,
            kwargs,
            hints[i].name@,
            hints[i].of->0,
        ) by {
            if i < n - 1 {
                assert(planned_as::<H>(ts, busy, before, hints[i].name@, hints[i].of->0));
                lemma_planned_stays::<H>(ts, busy, before, kwargs, hints[i].name@, hints[i].of->0);
            } else {
                assert(kwargs[kwargs.len() - 1] == kwargs.last());
            }
        }
    }
}

/// A keyword has a plan for a type.
pub open spec fn planned_as<H: TypeHost>(
    ts: Types,
    busy: Seq<u64>,
    kwargs: Seq<NamedPlan>,
    name: Seq<char>,
    t: u64,
) -> bool {
    exists|j: int|
        0 <= j < kwargs.len() && (#[trigger] kwargs[j]).name@ == name && resolved::<H>(
            ts,
            t,
            busy,
            kwargs[j].plan,
        )
}

proof fn lemma_planned_stays<H: TypeHost>(
    ts: Types,
    busy: Seq<u64>,
    before: Seq<NamedPlan>,
    kwargs: Seq<NamedPlan>,
    name: Seq<char>,
    t: u64,
)
    requires
        planned_as::<H>(ts, busy, before, name, t),
        before.len() <= kwargs.len(),
        forall|j: int| 0 <= j < before.len() ==> #[trigger] kwargs[j] == before[j],
    ensures
        planned_as::<H>(ts, busy, kwargs, name, t),
{
    let j = choose|j: int|
        0 <= j < before.len() && (#[trigger] before[j]).name@ == name && resolved::<H>(
            ts,
            t,
            busy,
            before[j].plan,
        );
    assert(kwargs[j] == before[j]);
}

/// Every parameter of a constructor with a type that can be passed by its name gets a plan for
/// that type, by its name.
pub proof fn every_parameter_is_planned<H: TypeHost>(
    ts: Types,
    params: Seq<CtorParam>,
    busy: Seq<u64>,
    args: Seq<Plan>,
    kwargs: Seq<NamedPlan>,
    n: int,
)
    requires
        params_resolved::<H>(ts, params, busy, args, kwargs, n),
        0 <= n <= params.len(),
    ensures
        args.len() + kwargs.len() <= n,
        forall|i: int|
            0 <= i < n && (#[trigger] params[i]).annotation is Some && (params[i].kind
                == ParamKind::Ordinary || params[i].kind == ParamKind::KeywordOnly)
                ==> planned_as::<H>(
                ts,
                busy,
                kwargs,
                params[i].name@,
                params[i].annotation->0,
            ),
    decreases n,
{
    if n > 0 {
        let c = params[n - 1];
        let skipped = crate::fromtype::is_var(c.kind) || c.annotation is None;
        let positional = c.kind == ParamKind::PositionalOnly;
        let front = if !skipped && positional {
            args.drop_last()
        } else {
            args
        };
        let before = if !skipped && !positional {
            kwargs.drop_last()
        } else {
            kwargs
        };
        every_parameter_is_planned::<H>(ts, params, busy, front, before, n - 1);
        assert forall|i: int|
            0 <= i < n && (#[trigger] params[i]).annotation is Some && (params[i].kind
                == ParamKind::Ordinary || params[i].kind
                == ParamKind::KeywordOnly) implies planned_as::<H>(
            ts,
            busy,
            kwargs,
            params[i].name@,
            params[i].annotation->0,
        ) by {
            if i < n - 1 {
                lemma_planned_stays::<H>(
                    ts,
                    busy,
                    before,
                    kwargs,
                    params[i].name@,
                    params[i].annotation->0,
                );
            } else {
                assert(kwargs[kwargs.len() - 1] == kwargs.last());
            }
        }
    }
}

/// Forms of parametrized types that are not containers: a literal type yields one of the objects
/// that it lists, a tuple of any number of elements those of its one type, the empty tuple
/// itself, a class of classes that class, and the type of functions functions.
pub proof fn other_parametrized_types<H: TypeHost>(
    ts: Types,
    t: u64,
    shown: Seq<char>,
    g: Generic,
    busy: Seq<u64>,
    p: Plan,
    v: Thing,
)
    requires
        generic_plan::<H>(ts, t, shown, g, busy, p),
        g.subtype is None,
        g.args@.len() > 0,
        yields(p, v),
    ensures
        g.origin == Origin::Literal ==> v is Object && g.args@.contains(v->id),
        g.origin == Origin::Callable ==> v is Function,
        g.origin == Origin::Wrapper ==> resolved::<H>(ts, g.args@[0], busy, p),
        g.origin == Origin::Tuple && g.args@.len() == 1 && form_of(ts, g.args@[0]) is NoElements
            ==> v is Tuple && v->Tuple_0.len() == 0,
        g.origin == Origin::Type && union_args(form_of(ts, g.args@[0])) is None && class_of(
            ts,
            g.args@[0],
        ) is Some ==> v == (Thing::Object { id: class_of(ts, g.args@[0])->0 }),
{
    reveal_with_fuel(yields, 2);
}

} // verus!
