//! What is registered for types, and what is found out for the arguments of a call.
use crate::builds::{
    find_kw, is_asked, is_covered, param_inferred, param_type, params_inferred, places,
    BuildsParam, Kwarg,
};
use crate::fromtype::{is_var, meta_strategy, resolved};
use crate::typeres::TypeHost;
use crate::types::{Entry, Kept, Meta, ParamKind, Plan, TypeForm, Types};
use vstd::prelude::*;

verus! {

// ---- what is registered -----------------------------------------------------

/// A strategy that is registered for a type is the one that is used; one without values is
/// reported.
pub proof fn registered_strategies_are_used<H: TypeHost>(
    ts: Types,
    t: u64,
    busy: Seq<u64>,
    p: Plan,
    k: Kept,
)
    requires
        resolved::<H>(ts, t, busy, p),
        t < ts.infos@.len(),
        busy.len() < ts.infos@.len(),
        !busy.contains(t),
        ts.infos@[t as int].entry == Some(Entry::Strategy(k)),
    ensures
        if k.native && k.empty {
            p is Invalid
        } else {
            p == Plan::Kept(k)
        },
{
    reveal_with_fuel(resolved, 2);
}

/// A new name for a type, and a type with annotations of no interest, stand for that type.
pub proof fn renamed_types_are_the_same<H: TypeHost>(
    ts: Types,
    t: u64,
    busy: Seq<u64>,
    p: Plan,
    under: u64,
)
    requires
        resolved::<H>(ts, t, busy, p),
        t < ts.infos@.len(),
        busy.len() < ts.infos@.len(),
        !busy.contains(t),
        ts.infos@[t as int].entry is None,
        match ts.infos@[t as int].form {
            TypeForm::NewType(s) => s == under,
            TypeForm::ForwardRef(Some(s)) => s == under,
            TypeForm::Annotated { meta, under: s } => s == under && forall|i: int|
                0 <= i < meta@.len() ==> (#[trigger] meta@[i]) is Other,
            _ => false,
        },
    ensures
        resolved::<H>(ts, under, busy.push(t), p),
{
    reveal_with_fuel(resolved, 2);
    if ts.infos@[t as int].form is Annotated {
        lemma_no_strategy(ts.infos@[t as int].form->meta@);
    }
}

proof fn lemma_no_strategy(meta: Seq<Meta>)
    requires
        forall|i: int| 0 <= i < meta.len() ==> (#[trigger] meta[i]) is Other,
    ensures
        meta_strategy(meta) is None,
    decreases meta.len(),
{
    if meta.len() > 0 {
        assert(meta[meta.len() - 1] is Other);
        assert forall|i: int| 0 <= i < meta.drop_last().len() implies (
        #[trigger] meta.drop_last()[i]) is Other by {
            assert(meta[i] is Other);
        }
        lemma_no_strategy(meta.drop_last());
    }
}

/// The last strategy that annotates a type is the one that counts.
pub proof fn the_last_annotation_counts(meta: Seq<Meta>, i: int)
    requires
        0 <= i < meta.len(),
        meta[i] is Strategy,
        forall|j: int| i < j < meta.len() ==> (#[trigger] meta[j]) is Other,
    ensures
        meta_strategy(meta) == Some(meta[i]->Strategy_0),
    decreases meta.len(),
{
    if i < meta.len() - 1 {
        assert(meta[meta.len() - 1] is Other);
        let front = meta.drop_last();
        assert(front[i] == meta[i]);
        assert forall|j: int| i < j < front.len() implies (#[trigger] front[j]) is Other by {
            assert(meta[j] is Other);
        }
        the_last_annotation_counts(front, i);
    }
}

// ---- the arguments of a call ------------------------------------------------

/// A parameter is given by its place where fewer parameters with a place come before it than
/// values were passed by their place. One that can only be passed by its name never is.
pub proof fn places_are_taken_in_order(params: Seq<BuildsParam>, k: int, given: int)
    requires
        0 <= k < params.len(),
        forall|i: int|
            0 <= i <= k ==> (#[trigger] params[i]).kind == ParamKind::Ordinary || params[i].kind
                == ParamKind::PositionalOnly,
    ensures
        is_covered(params, k, given) <==> k < given,
{
    lemma_all_placed(params, k);
    assert(params[k].kind == ParamKind::Ordinary || params[k].kind == ParamKind::PositionalOnly);
}

proof fn lemma_all_placed(params: Seq<BuildsParam>, k: int)
    requires
        0 <= k <= params.len(),
        forall|i: int|
            0 <= i < k ==> (#[trigger] params[i]).kind == ParamKind::Ordinary || params[i].kind
                == ParamKind::PositionalOnly,
    ensures
        places(params, k) == k,
    decreases k,
{
    if k > 0 {
        lemma_all_placed(params, k - 1);
        assert(params[k - 1].kind == ParamKind::Ordinary || params[k - 1].kind
            == ParamKind::PositionalOnly);
    }
}

/// A keyword of a name is there.
pub open spec fn is_named(kw: Seq<Kwarg>, name: Seq<char>) -> bool {
    exists|i: int| 0 <= i < kw.len() && (#[trigger] kw[i]).name@ == name
}

/// A parameter has to be passed by its name, or can be, and there is a type to go by.
pub open spec fn is_wanted(ts: Types, params: Seq<BuildsParam>, k: int, given: int) -> bool {
    let p = params[k];
    &&& p.kind == ParamKind::Ordinary || p.kind == ParamKind::KeywordOnly
    &&& !is_covered(params, k, given)
    &&& p.default is None
    &&& param_type(ts, p) is Some
}

/// A keyword was added for a parameter that has to be passed, with a plan for its type.
pub open spec fn added_for<H: TypeHost>(
    ts: Types,
    params: Seq<BuildsParam>,
    given: int,
    busy: Seq<u64>,
    n: int,
    kw: Kwarg,
) -> bool {
    exists|k: int|
        {
            &&& 0 <= k < n
            &&& #[trigger] is_wanted(ts, params, k, given)
            &&& kw.name@ == params[k].name@
            &&& kw.value is Planned
            &&& resolved::<H>(ts, param_type(ts, params[k])->0, busy, kw.value->plan)
        }
}

proof fn lemma_find(kw: Seq<Kwarg>, name: Seq<char>, from: int)
    requires
        0 <= from <= kw.len(),
    ensures
        find_kw(kw, name, from) is Some ==> from <= find_kw(kw, name, from)->0 < kw.len()
            && kw[find_kw(kw, name, from)->0].name@ == name,
        forall|i: int| from <= i < kw.len() && (#[trigger] kw[i]).name@ == name ==> find_kw(
            kw,
            name,
            from,
        ) is Some,
    decreases kw.len() - from,
{
    if from < kw.len() {
        lemma_find(kw, name, from + 1);
    }
}

/// What was passed to a call stays as it is, each parameter that has to be passed by its name
/// is, and whatever was added is for such a parameter, with a plan for its type.
pub proof fn calls_get_what_they_need<H: TypeHost>(
    ts: Types,
    params: Seq<BuildsParam>,
    given: int,
    busy: Seq<u64>,
    before: Seq<Kwarg>,
    after: Seq<Kwarg>,
    n: int,
)
    requires
        params_inferred::<H>(ts, params, given, busy, before, after, n),
        0 <= n <= params.len(),
    ensures
        before.len() <= after.len(),
        forall|i: int|
            0 <= i < before.len() ==> (#[trigger] after[i]).name@ == before[i].name@ && (
            before[i].value is Infer || after[i] == before[i]),
        forall|i: int|
            before.len() <= i < after.len() ==> added_for::<H>(
                ts,
                params,
                given,
                busy,
                n,
                #[trigger] after[i],
            ),
        forall|k: int|
            0 <= k < n && #[trigger] is_wanted(ts, params, k, given) ==> is_named(
                after,
                params[k].name@,
            ),
    decreases n,
{
    if n > 0 {
        let p = params[n - 1];
        if is_var(p.kind) || is_covered(params, n - 1, given) {
            calls_get_what_they_need::<H>(ts, params, given, busy, before, after, n - 1);
            lemma_added_later::<H>(ts, params, given, busy, before.len() as int, after, n);
        } else {
            let between = choose|between: Seq<Kwarg>|
                params_inferred::<H>(ts, params, given, busy, before, between, n - 1)
                    && #[trigger] param_inferred::<H>(ts, p, busy, between, after);
            calls_get_what_they_need::<H>(ts, params, given, busy, before, between, n - 1);
            lemma_added_later::<H>(ts, params, given, busy, before.len() as int, between, n);
            lemma_find(between, p.name@, 0);
            lemma_one_param::<H>(ts, params, given, busy, before, between, after, n);
        }
    }
}

proof fn lemma_added_later<H: TypeHost>(
    ts: Types,
    params: Seq<BuildsParam>,
    given: int,
    busy: Seq<u64>,
    from: int,
    kw: Seq<Kwarg>,
    n: int,
)
    requires
        0 <= from,
        forall|i: int|
            from <= i < kw.len() ==> added_for::<H>(
                ts,
                params,
                given,
                busy,
                n - 1,
                #[trigger] kw[i],
            ),
    ensures
        forall|i: int|
            from <= i < kw.len() ==> added_for::<H>(ts, params, given, busy, n, #[trigger] kw[i]),
{
    assert forall|i: int| from <= i < kw.len() implies added_for::<H>(
        ts,
        params,
        given,
        busy,
        n,
        #[trigger] kw[i],
    ) by {
        assert(added_for::<H>(ts, params, given, busy, n - 1, kw[i]));
        let k = choose|k: int|
            {
                &&& 0 <= k < n - 1
                &&& #[trigger] is_wanted(ts, params, k, given)
                &&& kw[i].name@ == params[k].name@
                &&& kw[i].value is Planned
                &&& resolved::<H>(ts, param_type(ts, params[k])->0, busy, kw[i].value->plan)
            };
        assert(is_wanted(ts, params, k, given));
    }
}

proof fn lemma_one_param<H: TypeHost>(
    ts: Types,
    params: Seq<BuildsParam>,
    given: int,
    busy: Seq<u64>,
    before: Seq<Kwarg>,
    between: Seq<Kwarg>,
    after: Seq<Kwarg>,
    n: int,
)
    requires
        0 < n <= params.len(),
        !is_var(params[n - 1].kind),
        !is_covered(params, n - 1, given),
        param_inferred::<H>(ts, params[n - 1], busy, between, after),
        before.len() <= between.len(),
        forall|i: int|
            0 <= i < before.len() ==> (#[trigger] between[i]).name@ == before[i].name@ && (
            before[i].value is Infer || between[i] == before[i]),
        forall|i: int|
            before.len() <= i < between.len() ==> added_for::<H>(
                ts,
                params,
                given,
                busy,
                n,
                #[trigger] between[i],
            ),
        forall|k: int|
            0 <= k < n - 1 && #[trigger] is_wanted(ts, params, k, given) ==> is_named(
                between,
                params[k].name@,
            ),
    ensures
        before.len() <= after.len(),
        forall|i: int|
            0 <= i < before.len() ==> (#[trigger] after[i]).name@ == before[i].name@ && (
            before[i].value is Infer || after[i] == before[i]),
        forall|i: int|
            before.len() <= i < after.len() ==> added_for::<H>(
                ts,
                params,
                given,
                busy,
                n,
                #[trigger] after[i],
            ),
        forall|k: int|
            0 <= k < n && #[trigger] is_wanted(ts, params, k, given) ==> is_named(
                after,
                params[k].name@,
            ),
{
    let p = params[n - 1];
    lemma_find(between, p.name@, 0);
    let found = find_kw(between, p.name@, 0);
    assert(between.len() <= after.len());
    assert forall|i: int| 0 <= i < between.len() implies (#[trigger] after[i]).name@
        == between[i].name@ && (between[i].value is Infer || after[i] == between[i]) by {
        if after.len() > between.len() {
            assert(after.drop_last()[i] == between[i]);
        }
    }
    assert forall|i: int| 0 <= i < before.len() implies (#[trigger] after[i]).name@
        == before[i].name@ && (before[i].value is Infer || after[i] == before[i]) by {
        assert(between[i].name@ == before[i].name@);
    }
    assert forall|i: int| before.len() <= i < after.len() implies added_for::<H>(
        ts,
        params,
        given,
        busy,
        n,
        #[trigger] after[i],
    ) by {
        if i < between.len() {
            assert(added_for::<H>(ts, params, given, busy, n, between[i]));
            assert(after[i] == between[i]);
        } else {
            assert(after[i] == after.last());
            assert(is_wanted(ts, params, n - 1, given));
        }
    }
    assert forall|k: int| 0 <= k < n && #[trigger] is_wanted(ts, params, k, given) implies is_named(
        after,
        params[k].name@,
    ) by {
        if k < n - 1 {
            let i = choose|i: int|
                0 <= i < between.len() && (#[trigger] between[i]).name@ == params[k].name@;
            assert(after[i].name@ == between[i].name@);
        } else if found is Some {
            assert(after[found->0].name@ == p.name@);
        } else {
            assert(after[after.len() - 1] == after.last());
        }
    }
}

/// What was asked for with dots is found out: a plan for the type of the parameter takes their
/// place, with the default beside it, and nothing else changes.
pub proof fn dots_are_found_out<H: TypeHost>(
    ts: Types,
    p: BuildsParam,
    busy: Seq<u64>,
    before: Seq<Kwarg>,
    after: Seq<Kwarg>,
)
    requires
        param_inferred::<H>(ts, p, busy, before, after),
        is_asked(before, p),
    ensures
        ({
            let j = find_kw(before, p.name@, 0)->0;
            &&& after.len() == before.len()
            &&& after[j].name@ == p.name@
            &&& after[j].value is Planned && after[j].value->default == p.default
            &&& resolved::<H>(ts, param_type(ts, p)->0, busy, after[j].value->plan)
            &&& forall|i: int| 0 <= i < before.len() && i != j ==> #[trigger] after[i] == before[i]
        }),
{
}

} // verus!
