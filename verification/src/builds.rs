//! Calling something with values that are drawn.
use crate::arguments::{invalid, invalid_argument, ArgumentError};
use crate::fromtype::{from_type, is_var, known, resolved};
use crate::strategy::{NamedNode, StrategyNode};
use crate::typeres::{host_raised, Fault, TypeHost};
use crate::types::{ann_has_forwardref, mentions_forward, with_one, ParamKind, Plan, Types};
use crate::words::same_str;
use vstd::prelude::*;

verus! {

/// What is to be called.
#[derive(Debug)]
pub struct Target {
    pub id: u64,
    pub callable: bool,
    pub shown: String,
    /// How it is written, if it is a union of types.
    pub union: Option<String>,
}

/// What is wrong with what is to be called.
pub open spec fn target_mistake(target: Option<Target>) -> Option<Seq<char>> {
    match target {
        None => Some(
            "builds() must be passed a callable as the first positional argument, but no positional arguments were given."@,
        ),
        Some(t) => if t.callable {
            None
        } else {
            Some(
                "The first positional argument to builds() must be a callable target to construct, but got non-callable "@
                    + t.shown@ + "."@ + (match t.union {
                    Some(u) => " Try using from_type("@ + u@ + ") instead?"@,
                    None => ""@,
                }),
            )
        },
    }
}

/// Values made by calling something with values of strategies.
pub fn builds(target: &Option<Target>, args: Vec<StrategyNode>, kwargs: Vec<NamedNode>) -> (r:
    Result<StrategyNode, ArgumentError>)
    ensures
        r is Ok <==> target_mistake(*target) is None,
        r is Ok ==> r->Ok_0 == (StrategyNode::Builds { target: target->0.id, args, kwargs }),
        r is Err ==> invalid(r->Err_0, target_mistake(*target)->0),
{
    let mut msg = String::new();
    match target {
        None => {
            msg.append(
                "builds() must be passed a callable as the first positional argument, but no positional arguments were given.",
            );
            assert(msg@
                =~= "builds() must be passed a callable as the first positional argument, but no positional arguments were given."@);
            Err(invalid_argument(msg))
        },
        Some(t) => {
            if t.callable {
                return Ok(StrategyNode::Builds { target: t.id, args, kwargs });
            }
            msg.append(
                "The first positional argument to builds() must be a callable target to construct, but got non-callable ",
            );
            msg.append(t.shown.as_str());
            msg.append(".");
            match &t.union {
                Some(u) => {
                    msg.append(" Try using from_type(");
                    msg.append(u.as_str());
                    msg.append(") instead?");
                },
                None => msg.append(""),
            }
            assert(msg@ =~= target_mistake(*target)->0);
            Err(invalid_argument(msg))
        },
    }
}

// ---- arguments that are found out -------------------------------------------

/// A parameter of what is called.
#[derive(Debug)]
pub struct BuildsParam {
    pub name: String,
    pub kind: ParamKind,
    /// The type that the parameter itself is annotated with.
    pub own: Option<u64>,
    /// The type that the names in the annotations stand for.
    pub hint: Option<u64>,
    /// The object that it is where it is not given.
    pub default: Option<u64>,
}

/// What is passed for a keyword.
#[derive(Debug)]
pub enum KwValue {
    /// Something that the host keeps.
    Given(u64),
    /// The dots that ask to find it out.
    Infer,
    /// A value of the type, or the default.
    Planned { plan: Plan, default: Option<u64> },
}

/// A keyword and what is passed for it.
#[derive(Debug)]
pub struct Kwarg {
    pub name: String,
    pub value: KwValue,
}

/// Why arguments could not be found out.
#[derive(Debug)]
pub enum BuildsError {
    Invalid(ArgumentError),
    Fault(Fault),
}

/// The first keyword with a name, from place `k` on.
pub open spec fn find_kw(kw: Seq<Kwarg>, name: Seq<char>, k: int) -> Option<int>
    decreases kw.len() - k,
{
    if k < 0 || k >= kw.len() {
        None
    } else if kw[k].name@ == name {
        Some(k)
    } else {
        find_kw(kw, name, k + 1)
    }
}

fn look_for(kw: &Vec<Kwarg>, name: &str) -> (r: Option<usize>)
    ensures
        r is Some <==> find_kw(kw@, name@, 0) is Some,
        r is Some ==> r->0 < kw@.len() && find_kw(kw@, name@, 0) == Some(r->0 as int),
        r is Some ==> kw@[r->0 as int].name@ == name@,
{
    let mut i: usize = 0;
    while i < kw.len()
        invariant
            i <= kw.len(),
            find_kw(kw@, name@, 0) == find_kw(kw@, name@, i as int),
        decreases kw.len() - i,
    {
        if same_str(kw[i].name.as_str(), name) {
            return Some(i);
        }
        i = i + 1;
    }
    None
}

/// The type of a parameter: its own annotation, unless that holds names that stand for
/// types.
pub open spec fn param_type(ts: Types, p: BuildsParam) -> Option<u64> {
    if p.own is Some && !mentions_forward(ts, p.own->0, Seq::empty()) {
        p.own
    } else {
        p.hint
    }
}

fn find_type(ts: &Types, p: &BuildsParam) -> (r: Option<u64>)
    ensures
        r == param_type(*ts, *p),
{
    if let Some(own) = p.own {
        let none: Vec<u64> = Vec::new();
        assert(none@ =~= Seq::<u64>::empty());
        if !ann_has_forwardref(ts, own, &none) {
            return Some(own);
        }
    }
    p.hint
}

/// A parameter that a value can be passed for by its place.
pub open spec fn is_positional(k: ParamKind) -> bool {
    !is_var(k) && k != ParamKind::KeywordOnly
}

/// How many of the first `n` parameters have a place.
pub open spec fn places(params: Seq<BuildsParam>, n: int) -> int
    decreases n,
{
    if n <= 0 {
        0
    } else {
        places(params, n - 1) + (if is_positional(params[n - 1].kind) {
            1int
        } else {
            0int
        })
    }
}

/// The parameter at a place is given by its place.
pub open spec fn is_covered(params: Seq<BuildsParam>, k: int, given: int) -> bool {
    is_positional(params[k].kind) && places(params, k) < given
}

/// The parameter is to be found out, by the keywords: it is given as the dots.
pub open spec fn is_asked(kw: Seq<Kwarg>, p: BuildsParam) -> bool {
    find_kw(kw, p.name@, 0) is Some && kw[find_kw(kw, p.name@, 0)->0].value is Infer
}

/// The type of a parameter is looked up: it is to be found out, or must be given and is
/// not.
pub open spec fn needs_type(ts: Types, kw: Seq<Kwarg>, p: BuildsParam) -> bool {
    ||| is_asked(kw, p)
    ||| find_kw(kw, p.name@, 0) is None && p.default is None && p.kind
        != ParamKind::PositionalOnly && param_type(ts, p) is Some
}

/// The parameter can be found out without asking the host.
pub open spec fn param_known<H: TypeHost>(
    ts: Types,
    kw: Seq<Kwarg>,
    p: BuildsParam,
    busy: Seq<u64>,
) -> bool {
    needs_type(ts, kw, p) ==> param_type(ts, p) is Some && known::<H>(
        ts,
        param_type(ts, p)->0,
        busy,
    )
}

/// All parameters that are not given by their places can be found out without asking the
/// host.
pub open spec fn params_known<H: TypeHost>(
    ts: Types,
    params: Seq<BuildsParam>,
    given: int,
    busy: Seq<u64>,
    kw: Seq<Kwarg>,
) -> bool {
    forall|k: int|
        0 <= k < params.len() && !is_var(params[k].kind) && !is_covered(params, k, given)
            ==> #[trigger] param_known::<H>(ts, kw, params[k], busy)
}

/// `now` are the keywords `first` with some of the dots found out, and more behind them.
pub open spec fn filled_in(first: Seq<Kwarg>, now: Seq<Kwarg>) -> bool {
    &&& first.len() <= now.len()
    &&& forall|i: int|
        0 <= i < first.len() ==> (#[trigger] now[i]).name@ == first[i].name@ && (now[i] == first[i]
            || now[i].value is Planned)
    &&& forall|i: int| first.len() <= i < now.len() ==> (#[trigger] now[i]).value is Planned
}

proof fn lemma_filled_in(first: Seq<Kwarg>, now: Seq<Kwarg>, name: Seq<char>, from: int)
    requires
        filled_in(first, now),
        0 <= from,
    ensures
        find_kw(now, name, from) is None ==> find_kw(first, name, from) is None,
        find_kw(now, name, from) is Some && now[find_kw(now, name, from)->0].value is Infer
            ==> find_kw(first, name, from) == find_kw(now, name, from),
        find_kw(now, name, from) is Some ==> from <= find_kw(now, name, from)->0 < now.len(),
    decreases now.len() - from,
{
    if from < now.len() {
        if from < first.len() {
            assert(now[from].name@ == first[from].name@);
        }
        lemma_filled_in(first, now, name, from + 1);
    }
}

/// `after` are the keywords once a parameter that is not given by its place has been
/// looked at.
pub open spec fn param_inferred<H: TypeHost>(
    ts: Types,
    p: BuildsParam,
    busy: Seq<u64>,
    before: Seq<Kwarg>,
    after: Seq<Kwarg>,
) -> bool {
    let of = param_type(ts, p);
    match find_kw(before, p.name@, 0) {
        Some(j) => if before[j].value is Infer {
            &&& of is Some
            &&& after.len() == before.len()
            &&& forall|i: int| 0 <= i < before.len() && i != j ==> (#[trigger] after[i]) == before[i]
            &&& after[j].name@ == p.name@
            &&& after[j].value is Planned
            &&& resolved::<H>(ts, of->0, busy, after[j].value->plan)
            &&& after[j].value->default == p.default
        } else {
            after == before
        },
        None => if p.default is Some || p.kind == ParamKind::PositionalOnly || of is None {
            after == before
        } else {
            &&& after.len() == before.len() + 1
            &&& after.drop_last() == before
            &&& after.last().name@ == p.name@
            &&& after.last().value is Planned
            &&& resolved::<H>(ts, of->0, busy, after.last().value->plan)
            &&& after.last().value->default is None
        },
    }
}

proof fn lemma_inferred_fills<H: TypeHost>(
    ts: Types,
    p: BuildsParam,
    busy: Seq<u64>,
    first: Seq<Kwarg>,
    before: Seq<Kwarg>,
    after: Seq<Kwarg>,
)
    requires
        filled_in(first, before),
        param_inferred::<H>(ts, p, busy, before, after),
    ensures
        filled_in(first, after),
{
    lemma_filled_in(before, before, p.name@, 0);
    lemma_found_name(before, p.name@, 0);
    assert forall|i: int| 0 <= i < first.len() implies (#[trigger] after[i]).name@ == first[i].name@
        && (after[i] == first[i] || after[i].value is Planned) by {
        assert(before[i].name@ == first[i].name@);
        if after.len() > before.len() {
            assert(after.drop_last()[i] == before[i]);
        }
    }
    assert forall|i: int| first.len() <= i < after.len() implies (
    #[trigger] after[i]).value is Planned by {
        if i < before.len() {
            assert(before[i].value is Planned);
            if after.len() > before.len() {
                assert(after.drop_last()[i] == before[i]);
            }
        }
    }
}

proof fn lemma_found_name(kw: Seq<Kwarg>, name: Seq<char>, from: int)
    requires
        0 <= from,
    ensures
        find_kw(kw, name, from) is Some ==> kw[find_kw(kw, name, from)->0].name@ == name,
    decreases kw.len() - from,
{
    if from < kw.len() {
        lemma_found_name(kw, name, from + 1);
    }
}

/// `after` are the keywords once the first `n` parameters have been looked at.
pub open spec fn params_inferred<H: TypeHost>(
    ts: Types,
    params: Seq<BuildsParam>,
    given: int,
    busy: Seq<u64>,
    before: Seq<Kwarg>,
    after: Seq<Kwarg>,
    n: int,
) -> bool
    decreases n,
{
    if n <= 0 {
        after == before
    } else if is_var(params[n - 1].kind) || is_covered(params, n - 1, given) {
        params_inferred::<H>(ts, params, given, busy, before, after, n - 1)
    } else {
        exists|between: Seq<Kwarg>|
            params_inferred::<H>(ts, params, given, busy, before, between, n - 1)
                && #[trigger] param_inferred::<H>(ts, params[n - 1], busy, between, after)
    }
}

/// The parameters before one were found out, so that it is the first one that is asked for
/// and has no type.
pub open spec fn stuck_at<H: TypeHost>(
    ts: Types,
    params: Seq<BuildsParam>,
    given: int,
    busy: Seq<u64>,
    before: Seq<Kwarg>,
    k: int,
) -> bool {
    exists|between: Seq<Kwarg>| #[trigger]
        params_inferred::<H>(ts, params, given, busy, before, between, k) && is_asked(
            between,
            params[k],
        ) && param_type(ts, params[k]) is None
}

/// The parameters before one were found out, and its type has to be looked up.
pub open spec fn asks_at<H: TypeHost>(
    ts: Types,
    params: Seq<BuildsParam>,
    given: int,
    busy: Seq<u64>,
    before: Seq<Kwarg>,
    k: int,
) -> bool {
    exists|between: Seq<Kwarg>| #[trigger]
        params_inferred::<H>(ts, params, given, busy, before, between, k) && needs_type(
            ts,
            between,
            params[k],
        )
}

/// The dots are among the arguments that are given by their place.
pub open spec fn dots_placed(positional: Seq<bool>) -> bool {
    exists|i: int| 0 <= i < positional.len() && #[trigger] positional[i]
}

/// What is said of dots in a place.
pub open spec fn dots_text() -> Seq<char> {
    "... was passed as a positional argument to builds(), but is only allowed as a keyword argument"@
}

/// What is said of dots where the parameters are not known.
pub open spec fn no_signature_text(name: Seq<char>) -> Seq<char> {
    "Cannot infer a strategy for "@ + name + "=... (no signature available)"@
}

/// What is said of dots for a parameter without a type.
pub open spec fn no_annotation_text(name: Seq<char>) -> Seq<char> {
    "passed ... for "@ + name + ", but "@ + name + " has no type annotation"@
}

/// The first keyword that asks to find its value out.
pub open spec fn first_dots(kw: Seq<Kwarg>, k: int) -> bool {
    0 <= k < kw.len() && kw[k].value is Infer && forall|i: int|
        0 <= i < k ==> !((#[trigger] kw[i]).value is Infer)
}

/// No keyword asks to find its value out.
pub open spec fn no_dots(kw: Seq<Kwarg>) -> bool {
    forall|i: int| 0 <= i < kw.len() ==> !((#[trigger] kw[i]).value is Infer)
}

fn find_placed_dots(positional: &Vec<bool>) -> (r: bool)
    ensures
        r == dots_placed(positional@),
{
    let mut i: usize = 0;
    while i < positional.len()
        invariant
            i <= positional.len(),
            forall|k: int| 0 <= k < i ==> !#[trigger] positional@[k],
        decreases positional.len() - i,
    {
        if positional[i] {
            return true;
        }
        i = i + 1;
    }
    false
}

fn find_dots(kw: &Vec<Kwarg>) -> (r: Option<usize>)
    ensures
        r is None ==> no_dots(kw@),
        r is Some ==> first_dots(kw@, r->0 as int),
{
    let mut i: usize = 0;
    while i < kw.len()
        invariant
            i <= kw.len(),
            forall|k: int| 0 <= k < i ==> !((#[trigger] kw@[k]).value is Infer),
        decreases kw.len() - i,
    {
        if let KwValue::Infer = &kw[i].value {
            return Some(i);
        }
        i = i + 1;
    }
    None
}

/// Looks at a parameter that is not given by its place.
fn infer_param<H: TypeHost>(
    host: &mut H,
    ts: &Types,
    p: &BuildsParam,
    busy: &Vec<u64>,
    kw: Vec<Kwarg>,
) -> (r: Result<Vec<Kwarg>, BuildsError>)
    ensures
        r is Ok ==> param_inferred::<H>(*ts, *p, busy@, kw@, r->Ok_0@),
        r is Err && r->Err_0 is Invalid <==> is_asked(kw@, *p) && param_type(*ts, *p) is None,
        r is Err && r->Err_0 is Invalid ==> invalid(
            r->Err_0->Invalid_0,
            no_annotation_text(p.name@),
        ),
        param_known::<H>(*ts, kw@, *p, busy@) ==> r is Ok,
        r is Err && r->Err_0 is Fault ==> host_raised::<H>(r->Err_0->Fault_0) && needs_type(
            *ts,
            kw@,
            *p,
        ),
{
    let mut kw = kw;
    let of = find_type(ts, p);
    match look_for(&kw, p.name.as_str()) {
        Some(j) => {
            let asked = match &kw[j].value {
                KwValue::Infer => true,
                _ => false,
            };
            if asked {
                match of {
                    Some(t) => match from_type(host, ts, t, busy) {
                        Ok(plan) => {
                            let name = p.name.clone();
                            kw.set(
                                j,
                                Kwarg { name, value: KwValue::Planned { plan, default: p.default } },
                            );
                        },
                        Err(f) => {
                            return Err(BuildsError::Fault(f));
                        },
                    },
                    None => {
                        let mut msg = String::new();
                        msg.append("passed ... for ");
                        msg.append(p.name.as_str());
                        msg.append(", but ");
                        msg.append(p.name.as_str());
                        msg.append(" has no type annotation");
                        assert(msg@ =~= no_annotation_text(p.name@));
                        return Err(BuildsError::Invalid(invalid_argument(msg)));
                    },
                }
            }
            Ok(kw)
        },
        None => {
            if p.default.is_some() || p.kind == ParamKind::PositionalOnly {
                return Ok(kw);
            }
            if let Some(t) = of {
                match from_type(host, ts, t, busy) {
                    Ok(plan) => {
                        let ghost before = kw@;
                        let name = p.name.clone();
                        kw.push(Kwarg { name, value: KwValue::Planned { plan, default: None } });
                        assert(kw@.drop_last() =~= before);
                    },
                    Err(f) => {
                        return Err(BuildsError::Fault(f));
                    },
                }
            }
            Ok(kw)
        },
    }
}

/// Finds out the keyword arguments that are asked for, and those that must be given and
/// whose types are known. While that happens the target itself counts as being looked
/// up. `positional` tells of each argument that is given by its place whether it is the
/// dots.
pub fn infer_builds_kwargs<H: TypeHost>(
    host: &mut H,
    ts: &Types,
    target: u64,
    busy: &Vec<u64>,
    positional: &Vec<bool>,
    kwargs: Vec<Kwarg>,
    no_type_check: bool,
    signature: &Option<Vec<BuildsParam>>,
) -> (r: Result<Vec<Kwarg>, BuildsError>)
    ensures
        dots_placed(positional@) ==> r is Err && r->Err_0 is Invalid && invalid(
            r->Err_0->Invalid_0,
            dots_text(),
        ),
        !dots_placed(positional@) && no_type_check ==> r is Ok && r->Ok_0@ == kwargs@,
        !dots_placed(positional@) && !no_type_check && signature is None && no_dots(kwargs@)
            ==> r is Ok && r->Ok_0@ == kwargs@,
        !dots_placed(positional@) && !no_type_check && signature is None && !no_dots(kwargs@)
            ==> r is Err && exists|k: int| #[trigger]
            first_dots(kwargs@, k) && r->Err_0 is Invalid && invalid(
                r->Err_0->Invalid_0,
                no_signature_text(kwargs@[k].name@),
            ),
        !dots_placed(positional@) && !no_type_check && signature is Some ==> match r {
            Ok(after) => params_inferred::<H>(
                *ts,
                signature->0@,
                positional@.len() as int,
                busy@.push(target),
                kwargs@,
                after@,
                signature->0@.len() as int,
            ),
            Err(BuildsError::Invalid(e)) => exists|k: int|
                0 <= k < signature->0@.len() && invalid(
                    e,
                    no_annotation_text((#[trigger] signature->0@[k]).name@),
                ) && param_type(*ts, signature->0@[k]) is None && is_asked(
                    kwargs@,
                    signature->0@[k],
                ) && !is_var(signature->0@[k].kind) && !is_covered(
                    signature->0@,
                    k,
                    positional@.len() as int,
                ) && stuck_at::<H>(
                    *ts,
                    signature->0@,
                    positional@.len() as int,
                    busy@.push(target),
                    kwargs@,
                    k,
                ),
            Err(BuildsError::Fault(f)) => host_raised::<H>(f) && exists|k: int|
                0 <= k < signature->0@.len() && #[trigger] asks_at::<H>(
                    *ts,
                    signature->0@,
                    positional@.len() as int,
                    busy@.push(target),
                    kwargs@,
                    k,
                ),
        },
        !dots_placed(positional@) && !no_type_check && signature is Some && params_known::<H>(
            *ts,
            signature->0@,
            positional@.len() as int,
            busy@.push(target),
            kwargs@,
        ) ==> r is Ok,
{
    if find_placed_dots(positional) {
        let mut msg = String::new();
        msg.append(
            "... was passed as a positional argument to builds(), but is only allowed as a keyword argument",
        );
        assert(msg@ =~= dots_text());
        return Err(BuildsError::Invalid(invalid_argument(msg)));
    }
    if no_type_check {
        return Ok(kwargs);
    }
    let params = match signature {
        Some(p) => p,
        None => {
            return match find_dots(&kwargs) {
                Some(k) => {
                    let mut msg = String::new();
                    msg.append("Cannot infer a strategy for ");
                    msg.append(kwargs[k].name.as_str());
                    msg.append("=... (no signature available)");
                    assert(msg@ =~= no_signature_text(kwargs@[k as int].name@));
                    assert(!no_dots(kwargs@));
                    Err(BuildsError::Invalid(invalid_argument(msg)))
                },
                None => Ok(kwargs),
            };
        },
    };
    let deeper = with_one(busy, target);
    let given: usize = positional.len();
    let mut taken: usize = 0;
    let ghost first = kwargs@;
    let mut kw = kwargs;
    let mut n: usize = 0;
    while n < params.len()
        invariant
            n <= params.len(),
            taken <= n,
            taken == places(params@, n as int),
            given == positional@.len(),
            deeper@ == busy@.push(target),
            *signature == Some(*params),
            first == kwargs@,
            filled_in(first, kw@),
            !dots_placed(positional@),
            !no_type_check,
            params_inferred::<H>(
                *ts,
                params@,
                given as int,
                deeper@,
                first,
                kw@,
                n as int,
            ),
        decreases params.len() - n,
    {
        let kind = params[n].kind;
        let var = kind == ParamKind::VarPositional || kind == ParamKind::VarKeyword;
        let positional_one = !var && kind != ParamKind::KeywordOnly;
        let covered = positional_one && taken < given;
        if positional_one {
            taken = taken + 1;
        }
        if !var && !covered {
            let ghost before = kw@;
            proof {
                lemma_filled_in(first, kw@, params@[n as int].name@, 0);
                if params_known::<H>(*ts, params@, given as int, deeper@, first) {
                    assert(param_known::<H>(*ts, first, params@[n as int], deeper@));
                }
            }
            match infer_param(host, ts, &params[n], &deeper, kw) {
                Ok(after) => {
                    kw = after;
                    proof {
                        assert(param_inferred::<H>(*ts, params@[n as int], deeper@, before, kw@));
                        lemma_inferred_fills::<H>(
                            *ts,
                            params@[n as int],
                            deeper@,
                            first,
                            before,
                            kw@,
                        );
                    }
                },
                Err(e) => {
                    proof {
                        if e is Invalid {
                            assert(invalid(
                                e->Invalid_0,
                                no_annotation_text(signature->0@[n as int].name@),
                            ));
                            assert(stuck_at::<H>(
                                *ts,
                                params@,
                                given as int,
                                deeper@,
                                first,
                                n as int,
                            ));
                        } else {
                            assert(asks_at::<H>(
                                *ts,
                                params@,
                                given as int,
                                deeper@,
                                first,
                                n as int,
                            ));
                        }
                    }
                    return Err(e);
                },
            }
        }
        n = n + 1;
    }
    Ok(kw)
}

// ---- failing calls ----------------------------------------------------------

/// A call with a wrong number or kind of arguments, as the host sees it.
#[derive(Debug)]
pub struct BadCall {
    /// There were no arguments.
    pub bare: bool,
    /// The target is a parametrized type.
    pub generic: bool,
    /// The target is another name for a type.
    pub renamed: bool,
    /// The target asks not to look at its types.
    pub no_type_check: bool,
    /// How the target is shown.
    pub shown: String,
}

/// What is made of a failing call.
#[derive(Debug)]
pub enum Explanation {
    /// The exception of the call stands.
    Stands,
    /// The argument of `builds` was a mistake.
    Invalid(ArgumentError),
    /// The call is wrong for a reason that can be told.
    WrongCall(String),
}

/// What is said where a type was called that should have been looked up.
pub open spec fn uncalled_type_text(shown: Seq<char>) -> Seq<char> {
    "Calling "@ + shown + " with no arguments raised an error - try using from_type("@ + shown
        + ") instead of builds("@ + shown + ")"@
}

/// What is said where the types of arguments were not looked at.
pub open spec fn unchecked_text() -> Seq<char> {
    "This might be because the @no_type_check decorator prevented Hypothesis from inferring a strategy for some required arguments."@
}

/// Explains a call that failed because of its arguments.
pub fn explain_build(c: &BadCall) -> (r: Explanation)
    ensures
        c.bare && (c.generic || c.renamed) ==> r is Invalid && invalid(
            r->Invalid_0,
            uncalled_type_text(c.shown@),
        ),
        !(c.bare && (c.generic || c.renamed)) && c.no_type_check ==> r is WrongCall
            && r->WrongCall_0@ == unchecked_text(),
        !(c.bare && (c.generic || c.renamed)) && !c.no_type_check ==> r is Stands,
{
    let mut msg = String::new();
    if c.bare && (c.generic || c.renamed) {
        msg.append("Calling ");
        msg.append(c.shown.as_str());
        msg.append(" with no arguments raised an error - try using from_type(");
        msg.append(c.shown.as_str());
        msg.append(") instead of builds(");
        msg.append(c.shown.as_str());
        msg.append(")");
        assert(msg@ =~= uncalled_type_text(c.shown@));
        return Explanation::Invalid(invalid_argument(msg));
    }
    if c.no_type_check {
        msg.append(
            "This might be because the @no_type_check decorator prevented Hypothesis from inferring a strategy for some required arguments.",
        );
        assert(msg@ =~= unchecked_text());
        return Explanation::WrongCall(msg);
    }
    Explanation::Stands
}

} // verus!
