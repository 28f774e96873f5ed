//! From types to strategies.
use crate::types::{
    entry_gives, entry_outcome, entry_text, may_decline, maybe_entry, one_of_plan, plan_failed, plan_one_of,
    registry_gives, resolve_registry_entry, Entry, Kept, Outcome, Plan, Registration,
};
use vstd::prelude::*;
use vstd::string::StrSliceExecFns;

verus! {

/// An exception of the host.
#[derive(Clone, Copy, Debug, PartialEq, Eq, Structural)]
pub struct Fault(pub u64);

/// What only the host can find out about types.
pub trait TypeHost {
    /// Calls a registered factory for a type.
    fn call_factory(&mut self, factory: u64, thing: u64) -> (r: Result<Outcome, Fault>);

    /// Looks a type up in the older way.
    fn legacy(&mut self, thing: u64) -> (r: Result<Kept, Fault>);
}

/// The host raised this: a factory did, or the older lookup.
pub open spec fn host_raised<H: TypeHost>(f: Fault) -> bool {
    ||| exists|h: &mut H, factory: u64, thing: u64| #[trigger]
        call_ensures(H::call_factory, (h, factory, thing), Err::<Outcome, Fault>(f))
    ||| exists|h: &mut H, thing: u64| #[trigger]
        call_ensures(H::legacy, (h, thing), Err::<Kept, Fault>(f))
}

/// An entry was asked for the plan of a type: a factory was called once, with the type, and a
/// strategy was taken as it is. This is what came of it.
pub open spec fn consulted<H: TypeHost>(
    fut: spec_fn(&mut H) -> H,
    before: H,
    left: H,
    e: Entry,
    t: u64,
    shown: Seq<char>,
    r: Result<Option<Plan>, Fault>,
) -> bool {
    match e {
        Entry::Strategy(k) => before == left && outcome_taken(
            Ok(Outcome::Strategy(k)),
            entry_text(e),
            shown,
            r,
        ),
        Entry::Factory { id, .. } => exists|h: &mut H, answer: Result<Outcome, Fault>|
            {
                &&& #[trigger] call_ensures(H::call_factory, (h, id, t), answer)
                &&& *h == before && fut(h) == left
                &&& outcome_taken(answer, entry_text(e), shown, r)
            },
    }
}

/// What is made of the outcome of an entry.
pub open spec fn outcome_taken(
    answer: Result<Outcome, Fault>,
    entry: Seq<char>,
    shown: Seq<char>,
    r: Result<Option<Plan>, Fault>,
) -> bool {
    match answer {
        Ok(o) => {
            &&& r is Ok
            &&& r->Ok_0 is None <==> o is Declined
            &&& r->Ok_0 is Some ==> registry_gives(o, entry, shown, r->Ok_0->0)
        },
        Err(f) => r == Err::<Option<Plan>, Fault>(f),
    }
}

/// Asks an entry for the plan of a type; nothing where it declines.
pub(crate) fn consult<H: TypeHost>(host: &mut H, e: &Entry, thing: u64, shown: &str) -> (r: Result<
    Option<Plan>,
    Fault,
>)
    ensures
        *e is Strategy ==> r is Ok,
        r is Ok && r->Ok_0 is Some ==> entry_gives::<H>(*e, thing, shown@, r->Ok_0->0),
        r is Ok && r->Ok_0 is None ==> may_decline::<H>(Some(*e), thing),
        r is Err ==> host_raised::<H>(r->Err_0),
        consulted(
            |h: &mut H| *final(h),
            *old(host),
            *final(host),
            *e,
            thing,
            shown@,
            r,
        ),
{
    match e {
        Entry::Strategy(k) => {
            let o = Outcome::Strategy(*k);
            let r = resolve_registry_entry(&o, "", shown);
            assert(registry_gives(o, entry_text(*e), shown@, r->0));
            Ok(r)
        },
        Entry::Factory { id, shown: entry_shown } => match host.call_factory(*id, thing) {
            Ok(o) => {
                let r = resolve_registry_entry(&o, entry_shown.as_str(), shown);
                assert(entry_outcome::<H>(*e, thing, o));
                assert(r is Some ==> registry_gives(o, entry_text(*e), shown@, r->0));
                Ok(r)
            },
            Err(f) => Err(f),
        },
    }
}

/// Asks an entry, if there is one.
pub(crate) fn consult_maybe<H: TypeHost>(host: &mut H, e: &Option<Entry>, thing: u64, shown: &str) -> (r:
    Result<Option<Plan>, Fault>)
    ensures
        *e is None || e->0 is Strategy ==> r is Ok,
        r is Ok && r->Ok_0 is Some ==> maybe_entry::<H>(*e, thing, shown@, r->Ok_0->0),
        r is Ok && r->Ok_0 is None ==> may_decline::<H>(*e, thing),
        r is Err ==> host_raised::<H>(r->Err_0),
{
    match e {
        Some(entry) => consult(host, entry, thing, shown),
        None => Ok(None),
    }
}

/// `p` is what the older way of looking types up gave.
pub open spec fn legacy_plan<H: TypeHost>(t: u64, p: Plan) -> bool {
    p is Legacy && p->of == t && exists|h: &mut H| #[trigger]
        call_ensures(H::legacy, (h, t), Ok::<Kept, Fault>(p->kept))
}

pub(crate) fn ask_legacy<H: TypeHost>(host: &mut H, t: u64) -> (r: Result<Plan, Fault>)
    ensures
        r is Ok ==> legacy_plan::<H>(t, r->Ok_0),
        r is Err ==> host_raised::<H>(r->Err_0),
{
    let answer = host.legacy(t);
    match answer {
        Ok(kept) => {
            let p = Plan::Legacy { of: t, kept };
            assert(answer == Ok::<Kept, Fault>(p->kept));
            Ok(p)
        },
        Err(f) => Err(f),
    }
}

// ---- registered types below another one -------------------------------------

/// A string comes before another one.
pub open spec fn text_before(a: Seq<char>, b: Seq<char>, k: int) -> bool
    decreases a.len() - k,
{
    if k < 0 || k >= b.len() {
        false
    } else if k >= a.len() {
        true
    } else if a[k] != b[k] {
        (a[k] as int) < (b[k] as int)
    } else {
        text_before(a, b, k + 1)
    }
}

fn comes_before(a: &str, b: &str) -> (r: bool)
    ensures
        r == text_before(a@, b@, 0),
{
    let n: usize = a.unicode_len();
    let m: usize = b.unicode_len();
    let mut k: usize = 0;
    while k < n && k < m
        invariant
            k <= n,
            k <= m,
            n == a@.len(),
            m == b@.len(),
            text_before(a@, b@, 0) == text_before(a@, b@, k as int),
        decreases n - k,
    {
        let x: char = a.get_char(k);
        let y: char = b.get_char(k);
        if x != y {
            return (x as u32) < (y as u32);
        }
        k = k + 1;
    }
    k < m
}

/// A type is registered.
pub open spec fn is_registered(regs: Seq<Registration>, t: u64) -> bool {
    exists|k: int| 0 <= k < regs.len() && (#[trigger] regs[k]).of == t
}

fn check_registered(regs: &Vec<Registration>, t: u64) -> (r: bool)
    ensures
        r == is_registered(regs@, t),
{
    let mut i: usize = 0;
    while i < regs.len()
        invariant
            i <= regs.len(),
            forall|k: int| 0 <= k < i ==> (#[trigger] regs@[k]).of != t,
        decreases regs.len() - i,
    {
        if regs[i].of == t {
            return true;
        }
        i = i + 1;
    }
    false
}

/// How many of the types are registered.
pub open spec fn registered_count(mro: Seq<u64>, regs: Seq<Registration>) -> int
    decreases mro.len(),
{
    if mro.len() == 0 {
        0
    } else {
        registered_count(mro.drop_last(), regs) + (if is_registered(regs, mro.last()) {
            1int
        } else {
            0int
        })
    }
}

fn count_registered(mro: &Vec<u64>, regs: &Vec<Registration>) -> (r: usize)
    ensures
        r == registered_count(mro@, regs@),
{
    let mut n: usize = 0;
    let mut i: usize = 0;
    assert(mro@.take(0) =~= Seq::<u64>::empty());
    while i < mro.len()
        invariant
            i <= mro.len(),
            n <= i,
            n == registered_count(mro@.take(i as int), regs@),
        decreases mro.len() - i,
    {
        proof {
            assert(mro@.take(i + 1).drop_last() =~= mro@.take(i as int));
            assert(mro@.take(i + 1).last() == mro@[i as int]);
        }
        if check_registered(regs, mro[i]) {
            n = n + 1;
        }
        i = i + 1;
    }
    assert(mro@.take(i as int) =~= mro@);
    n
}

/// A registered type answers for one above it: no other registered type lies between
/// them.
pub open spec fn answers(r: Registration, regs: Seq<Registration>) -> bool {
    !r.itself && r.below && (r.mro is Some ==> registered_count(r.mro->0@, regs) == 1)
}

/// A place in the list, put behind those whose types are shown by strings that do not
/// come later.
pub open spec fn placed(order: Seq<int>, regs: Seq<Registration>, i: int) -> Seq<int>
    decreases order.len(),
{
    if order.len() == 0 || !text_before(regs[i].shown@, regs[order.last()].shown@, 0) {
        order.push(i)
    } else {
        placed(order.drop_last(), regs, i).push(order.last())
    }
}

/// The registered types that answer for one above them, ordered by how they are shown.
pub open spec fn answering(regs: Seq<Registration>, n: int) -> Seq<int>
    decreases n,
{
    if n <= 0 {
        Seq::empty()
    } else if answers(regs[n - 1], regs) {
        placed(answering(regs, n - 1), regs, n - 1)
    } else {
        answering(regs, n - 1)
    }
}

/// Places as machine integers.
pub open spec fn as_places(order: Seq<int>) -> Seq<usize> {
    Seq::new(order.len(), |i: int| order[i] as usize)
}

proof fn lemma_placed(order: Seq<int>, regs: Seq<Registration>, i: int, at: int)
    requires
        0 <= at <= order.len(),
        forall|k: int|
            at <= k < order.len() ==> text_before(
                regs[i].shown@,
                regs[#[trigger] order[k]].shown@,
                0,
            ),
        at > 0 ==> !text_before(regs[i].shown@, regs[order[at - 1]].shown@, 0),
    ensures
        placed(order, regs, i) == order.insert(at, i),
    decreases order.len(),
{
    if order.len() == 0 || at == order.len() {
        assert(placed(order, regs, i) =~= order.insert(at, i));
    } else {
        let shorter = order.drop_last();
        assert forall|k: int| at <= k < shorter.len() implies text_before(
            regs[i].shown@,
            regs[#[trigger] shorter[k]].shown@,
            0,
        ) by {
            assert(shorter[k] == order[k]);
        }
        assert(text_before(regs[i].shown@, regs[order[order.len() - 1]].shown@, 0));
        lemma_placed(shorter, regs, i, at);
        assert(placed(order, regs, i) =~= order.insert(at, i));
    }
}

proof fn lemma_answering(regs: Seq<Registration>, n: int)
    requires
        0 <= n <= regs.len(),
    ensures
        forall|k: int|
            0 <= k < answering(regs, n).len() ==> 0 <= #[trigger] answering(regs, n)[k] < n,
    decreases n,
{
    if n > 0 {
        lemma_answering(regs, n - 1);
        if answers(regs[n - 1], regs) {
            lemma_placed_range(answering(regs, n - 1), regs, n - 1, n);
        }
    }
}

proof fn lemma_placed_range(order: Seq<int>, regs: Seq<Registration>, i: int, n: int)
    requires
        0 <= i < n,
        forall|k: int| 0 <= k < order.len() ==> 0 <= #[trigger] order[k] < n,
    ensures
        forall|k: int|
            0 <= k < placed(order, regs, i).len() ==> 0 <= #[trigger] placed(order, regs, i)[k]
                < n,
    decreases order.len(),
{
    if order.len() == 0 || !text_before(regs[i].shown@, regs[order.last()].shown@, 0) {
    } else {
        assert forall|k: int| 0 <= k < order.drop_last().len() implies 0
            <= #[trigger] order.drop_last()[k] < n by {
            assert(order.drop_last()[k] == order[k]);
        }
        lemma_placed_range(order.drop_last(), regs, i, n);
        assert(0 <= order[order.len() - 1] < n);
        let inner = placed(order.drop_last(), regs, i);
        assert forall|k: int| 0 <= k < placed(order, regs, i).len() implies 0
            <= #[trigger] placed(order, regs, i)[k] < n by {
            if k < inner.len() {
                assert(placed(order, regs, i)[k] == inner[k]);
            }
        }
    }
}

/// Finds the registered types that answer for one above them.
fn find_answering(regs: &Vec<Registration>) -> (r: Vec<usize>)
    ensures
        r@ == as_places(answering(regs@, regs@.len() as int)),
        forall|k: int| 0 <= k < r@.len() ==> (#[trigger] r@[k]) < regs@.len(),
{
    let mut order: Vec<usize> = Vec::new();
    let mut n: usize = 0;
    assert(order@ =~= as_places(Seq::<int>::empty()));
    while n < regs.len()
        invariant
            n <= regs.len(),
            order@ == as_places(answering(regs@, n as int)),
            forall|k: int| 0 <= k < order@.len() ==> (#[trigger] order@[k]) < n,
        decreases regs.len() - n,
    {
        let ghost before = answering(regs@, n as int);
        proof {
            lemma_answering(regs@, n as int);
        }
        let one = match &regs[n].mro {
            Some(mro) => count_registered(mro, regs) == 1,
            None => true,
        };
        if !regs[n].itself && regs[n].below && one {
            let mut at: usize = order.len();
            let mut done = false;
            while at > 0 && !done
                invariant
                    at <= order.len(),
                    n < regs.len(),
                    order@ == as_places(before),
                    forall|k: int| 0 <= k < order@.len() ==> (#[trigger] order@[k]) < n,
                    forall|k: int| 0 <= k < before.len() ==> 0 <= (#[trigger] before[k]) < n,
                    forall|k: int|
                        at <= k < before.len() ==> text_before(
                            regs@[n as int].shown@,
                            regs@[#[trigger] before[k]].shown@,
                            0,
                        ),
                    done ==> at > 0 && !text_before(
                        regs@[n as int].shown@,
                        regs@[before[at - 1]].shown@,
                        0,
                    ),
                decreases at, if done {
                    0int
                } else {
                    1int
                },
            {
                let other: usize = order[at - 1];
                assert(other == order@[at - 1]);
                assert(before[at - 1] == other);
                if comes_before(regs[n].shown.as_str(), regs[other].shown.as_str()) {
                    at = at - 1;
                } else {
                    done = true;
                }
            }
            order.insert(at, n);
            proof {
                lemma_placed(before, regs@, n as int, at as int);
                assert(order@ =~= as_places(answering(regs@, n + 1)));
            }
        }
        n = n + 1;
    }
    order
}

/// `s` are the plans that entries gave, in their order; those that declined are left
/// out.
pub open spec fn gathered<H: TypeHost>(
    regs: Seq<Registration>,
    order: Seq<int>,
    t: u64,
    shown: Seq<char>,
    s: Seq<Plan>,
) -> bool
    decreases order.len(),
{
    if order.len() == 0 {
        s.len() == 0
    } else {
        let e = regs[order.last()].entry;
        ||| may_decline::<H>(Some(e), t) && gathered::<H>(
            regs,
            order.drop_last(),
            t,
            shown,
            s,
        )
        ||| s.len() > 0 && entry_gives::<H>(e, t, shown, s.last()) && gathered::<H>(
            regs,
            order.drop_last(),
            t,
            shown,
            s.drop_last(),
        )
    }
}

/// The entries were asked one after the other, each one once, and `s` are the plans that they
/// gave.
pub open spec fn gathered_along<H: TypeHost>(
    fut: spec_fn(&mut H) -> H,
    start: H,
    end: H,
    regs: Seq<Registration>,
    order: Seq<int>,
    t: u64,
    shown: Seq<char>,
    s: Seq<Plan>,
) -> bool
    decreases order.len(),
{
    if order.len() == 0 {
        s.len() == 0 && start == end
    } else {
        exists|a: H, r: Option<Plan>|
            {
                &&& #[trigger] consulted(
                    fut,
                    a,
                    end,
                    regs[order.last()].entry,
                    t,
                    shown,
                    Ok(r),
                )
                &&& r is Some ==> s.len() > 0 && s.last() == r->0
                &&& gathered_along(
                    fut,
                    start,
                    a,
                    regs,
                    order.drop_last(),
                    t,
                    shown,
                    if r is Some {
                        s.drop_last()
                    } else {
                        s
                    },
                )
            }
    }
}

/// The entries that answer for a type were asked one after the other, and nothing else was
/// done: all of them, or those up to one whose factory failed.
pub open spec fn resolved_along<H: TypeHost>(
    fut: spec_fn(&mut H) -> H,
    start: H,
    end: H,
    regs: Seq<Registration>,
    t: u64,
    shown: Seq<char>,
    r: Result<Option<Plan>, Fault>,
) -> bool {
    let order = answering(regs, regs.len() as int);
    match r {
        Ok(p) => exists|s: Seq<Plan>| #[trigger]
            gathered_along(fut, start, end, regs, order, t, shown, s) && match p {
                Some(p) => s.len() > 0 && one_of_plan(p, s),
                None => s.len() == 0,
            },
        Err(f) => exists|k: int, a: H, s: Seq<Plan>|
            {
                &&& 0 <= k < order.len()
                &&& #[trigger] gathered_along(fut, start, a, regs, order.take(k), t, shown, s)
                &&& consulted(fut, a, end, regs[order[k]].entry, t, shown, Err(f))
            },
    }
}

/// `s` are the plans of the registered types below a type.
pub open spec fn via_subclasses<H: TypeHost>(
    regs: Seq<Registration>,
    t: u64,
    shown: Seq<char>,
    s: Seq<Plan>,
) -> bool {
    gathered::<H>(regs, answering(regs, regs.len() as int), t, shown, s)
}

/// No factory answers for a type below: what does is a strategy each time.
pub open spec fn only_strategies(regs: Seq<Registration>) -> bool {
    let order = answering(regs, regs.len() as int);
    forall|k: int| 0 <= k < order.len() ==> regs[#[trigger] order[k]].entry is Strategy
}

/// The plan for a type out of those registered for types below it.
pub fn resolve_via_subclasses<H: TypeHost>(
    host: &mut H,
    regs: &Vec<Registration>,
    thing: u64,
    shown: &str,
) -> (r: Result<Option<Plan>, Fault>)
    ensures
        r is Ok && r->Ok_0 is None ==> via_subclasses::<H>(regs@, thing, shown@, Seq::empty()),
        r is Ok && r->Ok_0 is Some ==> exists|s: Seq<Plan>| #[trigger]
            via_subclasses::<H>(regs@, thing, shown@, s) && s.len() > 0 && one_of_plan(r->Ok_0->0, s),
        only_strategies(regs@) ==> r is Ok && (r->Ok_0 is Some <==> answering(
            regs@,
            regs@.len() as int,
        ).len() > 0),
        r is Err ==> host_raised::<H>(r->Err_0),
        resolved_along(
            |h: &mut H| *final(h),
            *old(host),
            *final(host),
            regs@,
            thing,
            shown@,
            r,
        ),
{
    let order = find_answering(regs);
    let count: usize = regs.len();
    let ghost full = answering(regs@, regs@.len() as int);
    let mut strats: Vec<Plan> = Vec::new();
    let mut i: usize = 0;
    proof {
        lemma_answering(regs@, regs@.len() as int);
        assert(full.take(0) =~= Seq::<int>::empty());
        assert(strats@ =~= Seq::<Plan>::empty());
    }
    while i < order.len()
        invariant
            i <= order.len(),
            count == regs@.len(),
            order@ == as_places(full),
            forall|k: int| 0 <= k < order@.len() ==> (#[trigger] order@[k]) < regs@.len(),
            forall|k: int| 0 <= k < full.len() ==> 0 <= (#[trigger] full[k]) < regs@.len(),
            gathered::<H>(regs@, full.take(i as int), thing, shown@, strats@),
            full == answering(regs@, regs@.len() as int),
            only_strategies(regs@) ==> strats@.len() == i,
            gathered_along(
                |h: &mut H| *final(h),
                *old(host),
                *host,
                regs@,
                full.take(i as int),
                thing,
                shown@,
                strats@,
            ),
        decreases order.len() - i,
    {
        let at: usize = order[i];
        let ghost before = strats@;
        proof {
            assert(full.take(i + 1).drop_last() =~= full.take(i as int));
            assert(full.take(i + 1).last() == full[i as int]);
            assert(at as int == full[i as int]);
        }
        let ghost a = *host;
        let answer = consult(host, &regs[at].entry, thing, shown);
        assert(consulted(
            |h: &mut H| *final(h),
            a,
            *host,
            regs@[at as int].entry,
            thing,
            shown@,
            answer,
        ));
        match answer {
            Ok(Some(p)) => {
                strats.push(p);
                assert(strats@.drop_last() =~= before);
            },
            Ok(None) => {},
            Err(f) => {
                return Err(f);
            },
        }
        assert(gathered::<H>(regs@, full.take(i + 1), thing, shown@, strats@));
        assert(gathered_along(
            |h: &mut H| *final(h),
            *old(host),
            *host,
            regs@,
            full.take(i + 1),
            thing,
            shown@,
            strats@,
        ));
        i = i + 1;
    }
    assert(full.take(i as int) =~= full);
    if strats.len() == 0 {
        assert(strats@ =~= Seq::<Plan>::empty());
        return Ok(None);
    }
    let ghost s = strats@;
    assert(gathered_along(
        |h: &mut H| *final(h),
        *old(host),
        *host,
        regs@,
        full,
        thing,
        shown@,
        s,
    ));
    assert(via_subclasses::<H>(regs@, thing, shown@, s));
    Ok(Some(plan_one_of(strats)))
}

/// A type below an abstract one, with what its strategy turned out to be.
#[derive(Debug)]
pub struct Candidate {
    pub plan: Plan,
    pub invalid: bool,
    pub empty: bool,
}

/// The plans that can be used.
pub open spec fn usable(c: Seq<Candidate>) -> Seq<Plan>
    decreases c.len(),
{
    if c.len() == 0 {
        Seq::empty()
    } else if c.last().plan.native() && !c.last().invalid && !c.last().empty {
        usable(c.drop_last()).push(c.last().plan)
    } else {
        usable(c.drop_last())
    }
}

/// What is said of an abstract type that nothing can be made of.
pub open spec fn abstract_text(shown: Seq<char>) -> Seq<char> {
    "Could not resolve "@ + shown
        + " to a strategy, because it is an abstract type without resolvable subclasses. Consider using register_type_strategy"@
}

/// The plan for an abstract type: what is registered for types below it, or else those
/// of them that can be used.
pub fn resolve_abstract_uncached(
    registered: Option<Plan>,
    subclasses: Vec<Candidate>,
    shown: &str,
) -> (p: Plan)
    ensures
        registered is Some ==> p == registered->0,
        registered is None && usable(subclasses@).len() == 0 ==> plan_failed(
            p,
            abstract_text(shown@),
        ),
        registered is None && usable(subclasses@).len() > 0 ==> one_of_plan(
            p,
            usable(subclasses@),
        ),
{
    if let Some(p) = registered {
        return p;
    }
    let ghost all = subclasses@;
    let mut rest = subclasses;
    let mut plans: Vec<Plan> = Vec::new();
    let ghost mut done: int = 0;
    assert(all.take(0) =~= Seq::<Candidate>::empty());
    assert(plans@ =~= Seq::<Plan>::empty());
    while rest.len() > 0
        invariant
            0 <= done <= all.len(),
            rest@ == all.skip(done),
            plans@ == usable(all.take(done)),
        decreases rest.len(),
    {
        let ghost before = rest@;
        let c = rest.remove(0);
        proof {
            assert(c == all[done]);
            assert(rest@ =~= all.skip(done + 1));
            assert(all.take(done + 1).drop_last() =~= all.take(done));
            assert(all.take(done + 1).last() == c);
        }
        if c.plan.is_native() && !c.invalid && !c.empty {
            plans.push(c.plan);
        }
        proof {
            done = done + 1;
        }
    }
    assert(all.take(done) =~= all);
    if plans.len() == 0 {
        let mut msg = String::new();
        msg.append("Could not resolve ");
        msg.append(shown);
        msg.append(
            " to a strategy, because it is an abstract type without resolvable subclasses. Consider using register_type_strategy",
        );
        assert(msg@ =~= abstract_text(shown@));
        return Plan::Invalid { msg, failed: true };
    }
    plan_one_of(plans)
}

} // verus!
