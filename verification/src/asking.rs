//! Which registered types answer for another one, and in which order.
use crate::typeres::{
    answering, answers, is_registered, placed, registered_count, text_before, usable, Candidate,
};
use crate::types::{Plan, Registration};
use vstd::prelude::*;

verus! {

/// One string comes before another: it is the beginning of it, or smaller where they differ first.
pub open spec fn sorts_before(a: Seq<char>, b: Seq<char>) -> bool {
    exists|k: int| #[trigger] differs_at(a, b, k)
}

/// The strings agree before place `k`; there the one ends, or holds the smaller character.
pub open spec fn differs_at(a: Seq<char>, b: Seq<char>, k: int) -> bool {
    &&& 0 <= k <= a.len() && k < b.len()
    &&& forall|j: int| 0 <= j < k ==> #[trigger] a[j] == b[j]
    &&& k < a.len() ==> (a[k] as int) < (b[k] as int)
}

proof fn lemma_before(a: Seq<char>, b: Seq<char>, k: int)
    requires
        0 <= k <= a.len(),
        k <= b.len(),
        forall|j: int| 0 <= j < k ==> #[trigger] a[j] == b[j],
    ensures
        text_before(a, b, k) <==> sorts_before(a, b),
    decreases a.len() - k,
{
    if k < b.len() && k < a.len() && a[k] == b[k] {
        lemma_before(a, b, k + 1);
    } else if text_before(a, b, k) {
        assert(differs_at(a, b, k));
    } else if sorts_before(a, b) {
        let m = choose|m: int| #[trigger] differs_at(a, b, m);
        if m < k {
            assert(a[m] == b[m]);
        } else if m > k {
            assert(a[k] == b[k]);
        }
    }
}

proof fn lemma_not_after(a: Seq<char>, b: Seq<char>, c: Seq<char>, k: int)
    requires
        0 <= k,
        !text_before(b, a, k),
        !text_before(c, b, k),
    ensures
        !text_before(c, a, k),
    decreases a.len() - k,
{
    if k < a.len() && k < b.len() && k < c.len() && a[k] == b[k] && b[k] == c[k] {
        lemma_not_after(a, b, c, k + 1);
    }
}

proof fn lemma_not_both(a: Seq<char>, b: Seq<char>, k: int)
    requires
        0 <= k,
        text_before(a, b, k),
    ensures
        !text_before(b, a, k),
    decreases a.len() - k,
{
    if k < a.len() && k < b.len() && a[k] == b[k] {
        lemma_not_both(a, b, k + 1);
    }
}

/// No later place has a string that comes before that of an earlier one.
pub open spec fn in_order(order: Seq<int>, regs: Seq<Registration>) -> bool {
    forall|x: int, y: int|
        0 <= x < y < order.len() ==> !text_before(
            regs[#[trigger] order[y]].shown@,
            regs[#[trigger] order[x]].shown@,
            0,
        )
}

proof fn lemma_placed_in_order(order: Seq<int>, regs: Seq<Registration>, i: int)
    requires
        in_order(order, regs),
        !order.contains(i),
        order.no_duplicates(),
    ensures
        in_order(placed(order, regs, i), regs),
        placed(order, regs, i).no_duplicates(),
        forall|x: int|
            #[trigger] placed(order, regs, i).contains(x) <==> x == i || order.contains(x),
    decreases order.len(),
{
    let r = placed(order, regs, i);
    if order.len() == 0 || !text_before(regs[i].shown@, regs[order.last()].shown@, 0) {
        assert(r == order.push(i));
        assert forall|x: int, y: int| 0 <= x < y < r.len() implies !text_before(
            regs[#[trigger] r[y]].shown@,
            regs[#[trigger] r[x]].shown@,
            0,
        ) by {
            if y == order.len() && x < order.len() - 1 {
                assert(!text_before(
                    regs[order[order.len() - 1]].shown@,
                    regs[order[x]].shown@,
                    0,
                ));
                lemma_not_after(
                    regs[order[x]].shown@,
                    regs[order.last()].shown@,
                    regs[i].shown@,
                    0,
                );
            } else if y < order.len() {
                assert(r[x] == order[x] && r[y] == order[y]);
            }
        }
        assert forall|x: int| #[trigger] r.contains(x) <==> x == i || order.contains(x) by {
            if order.contains(x) {
                let k = order.index_of(x);
                assert(r[k] == x);
            }
            assert(r[order.len() as int] == i);
        }
    } else {
        let rest = order.drop_last();
        let last = order.last();
        assert forall|x: int| #[trigger] rest.contains(x) implies order.contains(x) && x != last by {
            let k = rest.index_of(x);
            assert(order[k] == x);
        }
        assert forall|x: int, y: int| 0 <= x < y < rest.len() implies !text_before(
            regs[#[trigger] rest[y]].shown@,
            regs[#[trigger] rest[x]].shown@,
            0,
        ) by {
            assert(rest[x] == order[x] && rest[y] == order[y]);
        }
        lemma_placed_in_order(rest, regs, i);
        let p = placed(rest, regs, i);
        assert(r == p.push(last));
        lemma_not_both(regs[i].shown@, regs[last].shown@, 0);
        assert forall|x: int, y: int| 0 <= x < y < r.len() implies !text_before(
            regs[#[trigger] r[y]].shown@,
            regs[#[trigger] r[x]].shown@,
            0,
        ) by {
            if y == p.len() {
                assert(p.contains(p[x]));
                if p[x] != i {
                    let k = rest.index_of(p[x]);
                    assert(order[k] == p[x]);
                    assert(order[order.len() - 1] == last);
                }
            } else {
                assert(r[x] == p[x] && r[y] == p[y]);
            }
        }
        assert forall|x: int| #[trigger] r.contains(x) <==> x == i || order.contains(x) by {
            if p.contains(x) {
                let k = p.index_of(x);
                assert(r[k] == x);
            }
            if order.contains(x) {
                let k = order.index_of(x);
                if k < rest.len() {
                    assert(rest[k] == x);
                    assert(rest.contains(x));
                }
            }
            assert(r[p.len() as int] == last);
            assert(order[order.len() - 1] == last);
            if r.contains(x) {
                let k = r.index_of(x);
                if k < p.len() {
                    assert(p[k] == x);
                    assert(p.contains(x));
                }
            }
        }
        assert(!p.contains(last)) by {
            if p.contains(last) {
                assert(order[order.len() - 1] == last);
            }
        }
        assert forall|x: int, y: int| 0 <= x < y < r.len() implies r[x] != r[y] by {
            if y == p.len() {
                assert(p[x] == r[x]);
            } else {
                assert(p[x] == r[x] && p[y] == r[y]);
            }
        }
    }
}

proof fn lemma_answering_order(regs: Seq<Registration>, n: int)
    requires
        0 <= n <= regs.len(),
    ensures
        in_order(answering(regs, n), regs),
        answering(regs, n).no_duplicates(),
        forall|i: int|
            #[trigger] answering(regs, n).contains(i) <==> 0 <= i < n && answers(regs[i], regs),
    decreases n,
{
    if n > 0 {
        lemma_answering_order(regs, n - 1);
        if answers(regs[n - 1], regs) {
            lemma_placed_in_order(answering(regs, n - 1), regs, n - 1);
        }
    }
}

/// Place `p` of a line of types holds a registered one, and no other place does.
pub open spec fn only_registered(mro: Seq<u64>, regs: Seq<Registration>, p: int) -> bool {
    &&& 0 <= p < mro.len()
    &&& is_registered(regs, mro[p])
    &&& forall|q: int| 0 <= q < mro.len() && q != p ==> !is_registered(regs, #[trigger] mro[q])
}

proof fn lemma_count(mro: Seq<u64>, regs: Seq<Registration>)
    ensures
        registered_count(mro, regs) >= 0,
        registered_count(mro, regs) == 0 <==> (forall|q: int|
            0 <= q < mro.len() ==> !is_registered(regs, #[trigger] mro[q])),
        registered_count(mro, regs) == 1 <==> (exists|p: int| #[trigger]
            only_registered(mro, regs, p)),
    decreases mro.len(),
{
    if mro.len() > 0 {
        let rest = mro.drop_last();
        let n = mro.len() - 1;
        lemma_count(rest, regs);
        assert forall|q: int| 0 <= q < n implies #[trigger] mro[q] == rest[q] by {}
        if is_registered(regs, mro[n]) {
            if registered_count(rest, regs) == 0 {
                assert forall|q: int| 0 <= q < mro.len() && q != n implies !is_registered(
                    regs,
                    #[trigger] mro[q],
                ) by {
                    assert(mro[q] == rest[q]);
                }
                assert(only_registered(mro, regs, n));
            } else {
                let w = choose|q: int|
                    0 <= q < rest.len() && is_registered(regs, #[trigger] rest[q]);
                assert(is_registered(regs, mro[w]));
                assert forall|p: int| !(#[trigger] only_registered(mro, regs, p)) by {
                    if only_registered(mro, regs, p) {
                        if p == n {
                            assert(!is_registered(regs, mro[w]));
                        } else {
                            assert(!is_registered(regs, mro[n]));
                        }
                    }
                }
            }
        } else {
            assert forall|q: int| 0 <= q < rest.len() && is_registered(
                regs,
                #[trigger] rest[q],
            ) implies is_registered(regs, mro[q]) by {}
            if registered_count(rest, regs) == 1 {
                let p = choose|p: int| #[trigger] only_registered(rest, regs, p);
                assert forall|q: int| 0 <= q < mro.len() && q != p implies !is_registered(
                    regs,
                    #[trigger] mro[q],
                ) by {
                    if q < n {
                        assert(mro[q] == rest[q]);
                    }
                }
                assert(only_registered(mro, regs, p));
            }
            if exists|p: int| #[trigger] only_registered(mro, regs, p) {
                let p = choose|p: int| #[trigger] only_registered(mro, regs, p);
                assert forall|q: int| 0 <= q < rest.len() && q != p implies !is_registered(
                    regs,
                    #[trigger] rest[q],
                ) by {
                    assert(mro[q] == rest[q]);
                }
                assert(rest[p] == mro[p]);
                assert(only_registered(rest, regs, p));
            }
        }
    }
}

/// For a type answer, once each, the registered types that lie below it with no other registered
/// type in between, and not the type itself; they answer in the order in which they are shown.
pub proof fn types_below_answer_in_order(regs: Seq<Registration>)
    ensures
        ({
            let order = answering(regs, regs.len() as int);
            &&& order.no_duplicates()
            &&& forall|i: int|
                #[trigger] order.contains(i) <==> {
                    &&& 0 <= i < regs.len() && regs[i].below && !regs[i].itself
                    &&& regs[i].mro is Some ==> exists|p: int| #[trigger]
                        only_registered(regs[i].mro->0@, regs, p)
                }
            &&& forall|x: int, y: int|
                0 <= x < y < order.len() ==> !sorts_before(
                    regs[#[trigger] order[y]].shown@,
                    regs[#[trigger] order[x]].shown@,
                )
        }),
{
    let order = answering(regs, regs.len() as int);
    lemma_answering_order(regs, regs.len() as int);
    assert forall|i: int| #[trigger] order.contains(i) <==> {
        &&& 0 <= i < regs.len() && regs[i].below && !regs[i].itself
        &&& regs[i].mro is Some ==> exists|p: int| #[trigger]
            only_registered(regs[i].mro->0@, regs, p)
    } by {
        if 0 <= i < regs.len() && regs[i].mro is Some {
            lemma_count(regs[i].mro->0@, regs);
        }
    }
    assert forall|x: int, y: int| 0 <= x < y < order.len() implies !sorts_before(
        regs[#[trigger] order[y]].shown@,
        regs[#[trigger] order[x]].shown@,
    ) by {
        lemma_before(regs[order[y]].shown@, regs[order[x]].shown@, 0);
    }
}

/// A candidate can be made natively, is no mistake and has values.
pub open spec fn is_usable(c: Candidate) -> bool {
    !c.invalid && !c.empty && c.plan.native()
}

/// What is made of an abstract type holds the plans of the candidates that can be used, of all of
/// them and of no others, in their order.
pub proof fn candidates_that_can_be_used_are(c: Seq<Candidate>, p: Plan)
    ensures
        usable(c).contains(p) <==> exists|i: int|
            0 <= i < c.len() && is_usable(#[trigger] c[i]) && c[i].plan == p,
        c.len() > 0 ==> usable(c) == usable(c.drop_last()) + (if is_usable(c.last()) {
            seq![c.last().plan]
        } else {
            Seq::empty()
        }),
    decreases c.len(),
{
    if c.len() > 0 {
        let rest = c.drop_last();
        candidates_that_can_be_used_are(rest, p);
        let n = c.len() - 1;
        if is_usable(c[n]) {
            assert(usable(c) == usable(rest).push(c[n].plan));
            assert(usable(c) =~= usable(rest) + seq![c.last().plan]);
            assert(usable(c)[usable(rest).len() as int] == c[n].plan);
        } else {
            assert(usable(c) =~= usable(rest) + Seq::empty());
        }
        if usable(rest).contains(p) {
            let k = usable(rest).index_of(p);
            assert(usable(c)[k] == p);
            let i = choose|i: int|
                0 <= i < rest.len() && is_usable(#[trigger] rest[i]) && rest[i].plan == p;
            assert(is_usable(c[i]) && c[i].plan == p);
        }
        if exists|i: int| 0 <= i < c.len() && is_usable(#[trigger] c[i]) && c[i].plan == p {
            let i = choose|i: int| 0 <= i < c.len() && is_usable(#[trigger] c[i]) && c[i].plan == p;
            if i < n {
                assert(rest[i] == c[i]);
            }
        }
        if usable(c).contains(p) && !usable(rest).contains(p) {
            let k = usable(c).index_of(p);
            if k < usable(rest).len() {
                assert(usable(rest)[k] == p);
            }
            assert(c[n].plan == p);
        }
    }
}

} // verus!
