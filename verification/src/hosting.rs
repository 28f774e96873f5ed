//! What the host has to do with a value: which of its functions were called, on what, and
//! what they answered.
use crate::choice::ChoiceModel;
use crate::data::{Case, ConjectureData};
use crate::drawing::{
    conforms, decimal_unit, is_sample, is_short_sample, patience, ratio_at_least, ratio_at_most,
    sampled, Budget, DrawError, Entry, Host, NamedValue, Value, MAX_FILTER_CALLS, MAX_FILTER_TRIES,
};
use crate::floats::{float_lt, is_finite_bits, is_nan_bits, FloatBounds};
use crate::reading::{at_places, picked, tried};
use crate::runner::Raised;
use crate::strategy::{Atom, Ratio, StrategyNode};
use vstd::prelude::*;

verus! {

// ---- single answers ---------------------------------------------------------

/// The host made `v` of `u` with a function.
pub open spec fn applied<H: Host>(func: u64, u: Value, v: Value) -> bool {
    exists|h: &mut H| #[trigger] call_ensures(H::apply, (h, func, u), Ok::<Value, Raised>(v))
}

/// The host was asked whether a function accepts a value, and answered.
pub open spec fn judged<H: Host>(func: u64, v: Value, answer: bool) -> bool {
    exists|h: &mut H| #[trigger]
        call_ensures(H::accepts, (h, func, &v), Ok::<bool, Raised>(answer))
}

/// The host made a strategy of a value with a function.
pub open spec fn expanded<H: Host>(func: u64, u: Value, next: StrategyNode) -> bool {
    exists|h: &mut H| #[trigger]
        call_ensures(H::expand, (h, func, u), Ok::<StrategyNode, Raised>(next))
}

/// A deferred strategy turned out to be this one.
pub open spec fn turned_out<H: Host>(thunk: u64, next: StrategyNode) -> bool {
    exists|h: &mut H| #[trigger]
        call_ensures(H::resolve, (h, thunk), Ok::<StrategyNode, Raised>(next))
}

/// The host found the key of a value.
pub open spec fn keyed<H: Host>(func: u64, v: Value, key: Value) -> bool {
    exists|h: &mut H| #[trigger] call_ensures(H::key, (h, func, &v), Ok::<Value, Raised>(key))
}

/// The host was asked whether a value is among others, and answered.
pub open spec fn compared<H: Host>(others: Seq<Value>, v: Value, answer: bool) -> bool {
    exists|h: &mut H, list: Vec<Value>| #[trigger]
        call_ensures(H::is_seen, (h, &list, &v), Ok::<bool, Raised>(answer)) && list@ == others
}

/// The host was asked whether a value is among the keys of entries, and answered.
pub open spec fn compared_key<H: Host>(entries: Seq<Entry>, key: Value, answer: bool) -> bool {
    exists|h: &mut H, list: Vec<Entry>| #[trigger]
        call_ensures(H::is_key, (h, &list, &key), Ok::<bool, Raised>(answer)) && list@ == entries
}

/// The host called a target with arguments.
pub open spec fn built<H: Host>(
    target: u64,
    args: Vec<Value>,
    kwargs: Vec<NamedValue>,
    v: Value,
) -> bool {
    exists|h: &mut H| #[trigger]
        call_ensures(H::build, (h, target, args, kwargs), Ok::<Value, Raised>(v))
}

/// The host had drawn this under a key.
pub open spec fn shared_before<H: Host>(key: String, v: Value) -> bool {
    exists|h: &mut H| #[trigger] call_ensures(H::shared, (h, &key), Some(v))
}

/// The host was told to keep this under a key.
pub open spec fn shared_now<H: Host>(key: String, v: Value) -> bool {
    exists|h: &mut H| #[trigger] call_ensures(H::keep_shared, (h, &key, &v), ())
}

/// The host made a function.
pub open spec fn made_function<H: Host>(
    id: u64,
    result: StrategyNode,
    pure: bool,
    v: Value,
) -> bool {
    exists|h: &mut H| #[trigger]
        call_ensures(H::function, (h, id, &result, pure), Ok::<Value, Raised>(v))
}

/// The host made a generator of random numbers.
pub open spec fn made_random<H: Host>(true_random: bool, noted: bool, v: Value) -> bool {
    exists|h: &mut H| #[trigger]
        call_ensures(H::random, (h, true_random, noted), Ok::<Value, Raised>(v))
}

/// A function of the user drew as it went and gave this.
pub open spec fn composed<H: Host>(func: u64, v: Value, b: Budget) -> bool {
    exists|h: &mut H, given: ConjectureData, back: ConjectureData| #[trigger]
        call_ensures(H::composite, (h, func, b, given), (back, Ok::<Value, Raised>(v)))
}

/// A strategy of somebody else gave this.
pub open spec fn drawn_elsewhere<H: Host>(id: u64, v: Value, b: Budget) -> bool {
    exists|h: &mut H, given: ConjectureData, back: ConjectureData| #[trigger]
        call_ensures(H::foreign, (h, id, b, given), (back, Ok::<Value, Raised>(v)))
}

/// The host found the float of a width that is nearest to another one.
pub open spec fn narrow_gave<H: Host>(f: u64, width: u32, n: u64) -> bool {
    exists|h: &mut H| #[trigger] call_ensures(H::narrow, (h, f, width), n)
}

/// What becomes of a float that is to have a width: the nearest one that has it, kept within
/// the bounds. One that is not finite stays.
pub open spec fn narrowed<H: Host>(f: u64, width: u32, bounds: FloatBounds, v: u64) -> bool {
    if !is_finite_bits(f) {
        v == f
    } else {
        exists|n: u64| #[trigger]
            narrow_gave::<H>(f, width, n) && v == (if is_nan_bits(n) {
                f
            } else if float_lt(n, bounds.min_value) {
                bounds.min_value
            } else if float_lt(bounds.max_value, n) {
                bounds.max_value
            } else {
                n
            })
    }
}

/// The host raised this when it was asked something.
pub open spec fn raised_by<H: Host>(e: Raised) -> bool {
    ||| exists|h: &mut H, func: u64, u: Value| #[trigger]
        call_ensures(H::apply, (h, func, u), Err::<Value, Raised>(e))
    ||| exists|h: &mut H, func: u64, v: Value| #[trigger]
        call_ensures(H::accepts, (h, func, &v), Err::<bool, Raised>(e))
    ||| exists|h: &mut H, func: u64, u: Value| #[trigger]
        call_ensures(H::expand, (h, func, u), Err::<StrategyNode, Raised>(e))
    ||| exists|h: &mut H, thunk: u64| #[trigger]
        call_ensures(H::resolve, (h, thunk), Err::<StrategyNode, Raised>(e))
    ||| exists|h: &mut H, func: u64, v: Value| #[trigger]
        call_ensures(H::key, (h, func, &v), Err::<Value, Raised>(e))
    ||| exists|h: &mut H, list: Vec<Value>, v: Value| #[trigger]
        call_ensures(H::is_seen, (h, &list, &v), Err::<bool, Raised>(e))
    ||| exists|h: &mut H, list: Vec<Entry>, v: Value| #[trigger]
        call_ensures(H::is_key, (h, &list, &v), Err::<bool, Raised>(e))
    ||| exists|h: &mut H, target: u64, args: Vec<Value>, kwargs: Vec<NamedValue>| #[trigger]
        call_ensures(H::build, (h, target, args, kwargs), Err::<Value, Raised>(e))
    ||| exists|h: &mut H, id: u64, result: StrategyNode, pure: bool| #[trigger]
        call_ensures(H::function, (h, id, &result, pure), Err::<Value, Raised>(e))
    ||| exists|h: &mut H, true_random: bool, noted: bool| #[trigger]
        call_ensures(H::random, (h, true_random, noted), Err::<Value, Raised>(e))
    ||| exists|func: u64, b: Budget| #[trigger] composite_raised::<H>(func, e, b)
    ||| exists|id: u64, b: Budget| #[trigger] foreign_raised::<H>(id, e, b)
}

/// The host raised this when it was to apply a function to a value.
pub open spec fn apply_raised<H: Host>(func: u64, u: Value, e: Raised) -> bool {
    exists|h: &mut H| #[trigger] call_ensures(H::apply, (h, func, u), Err::<Value, Raised>(e))
}

/// The host raised this when it was asked whether a function accepts a value.
pub open spec fn judge_raised<H: Host>(func: u64, v: Value, e: Raised) -> bool {
    exists|h: &mut H| #[trigger] call_ensures(H::accepts, (h, func, &v), Err::<bool, Raised>(e))
}

/// The host raised this when it was to make a strategy of a value.
pub open spec fn expand_raised<H: Host>(func: u64, u: Value, e: Raised) -> bool {
    exists|h: &mut H| #[trigger]
        call_ensures(H::expand, (h, func, u), Err::<StrategyNode, Raised>(e))
}

/// The host raised this when it was to find a deferred strategy out.
pub open spec fn resolve_raised<H: Host>(thunk: u64, e: Raised) -> bool {
    exists|h: &mut H| #[trigger]
        call_ensures(H::resolve, (h, thunk), Err::<StrategyNode, Raised>(e))
}

/// The host raised this when it was to find the key of a value.
pub open spec fn key_raised<H: Host>(func: u64, v: Value, e: Raised) -> bool {
    exists|h: &mut H| #[trigger] call_ensures(H::key, (h, func, &v), Err::<Value, Raised>(e))
}

/// The host raised this when it was asked whether a value is among others.
pub open spec fn compare_raised<H: Host>(v: Value, e: Raised) -> bool {
    exists|h: &mut H, list: Vec<Value>| #[trigger]
        call_ensures(H::is_seen, (h, &list, &v), Err::<bool, Raised>(e))
}

/// The host raised this when it was asked whether a value is among the keys of entries.
pub open spec fn compare_key_raised<H: Host>(key: Value, e: Raised) -> bool {
    exists|h: &mut H, list: Vec<Entry>| #[trigger]
        call_ensures(H::is_key, (h, &list, &key), Err::<bool, Raised>(e))
}

/// The host raised this when it called a target.
pub open spec fn build_raised<H: Host>(
    target: u64,
    args: Vec<Value>,
    kwargs: Vec<NamedValue>,
    e: Raised,
) -> bool {
    exists|h: &mut H| #[trigger]
        call_ensures(H::build, (h, target, args, kwargs), Err::<Value, Raised>(e))
}

/// The host raised this when it was to make a function.
pub open spec fn function_raised<H: Host>(
    id: u64,
    result: StrategyNode,
    pure: bool,
    e: Raised,
) -> bool {
    exists|h: &mut H| #[trigger]
        call_ensures(H::function, (h, id, &result, pure), Err::<Value, Raised>(e))
}

/// The host raised this when it was to make a generator of random numbers.
pub open spec fn random_raised<H: Host>(true_random: bool, noted: bool, e: Raised) -> bool {
    exists|h: &mut H| #[trigger]
        call_ensures(H::random, (h, true_random, noted), Err::<Value, Raised>(e))
}

/// A function of the user that drew as it went raised this.
pub open spec fn composite_raised<H: Host>(func: u64, e: Raised, b: Budget) -> bool {
    exists|h: &mut H, given: ConjectureData, back: ConjectureData| #[trigger]
        call_ensures(H::composite, (h, func, b, given), (back, Err::<Value, Raised>(e)))
}

/// A strategy of somebody else raised this.
pub open spec fn foreign_raised<H: Host>(id: u64, e: Raised, b: Budget) -> bool {
    exists|h: &mut H, given: ConjectureData, back: ConjectureData| #[trigger]
        call_ensures(H::foreign, (h, id, b, given), (back, Err::<Value, Raised>(e)))
}

/// The host raised this when it was to tell whether a value is new by each of the functions.
pub open spec fn unique_raised<H: Host>(funcs: Seq<u64>, v: Value, e: Raised) -> bool {
    ||| exists|j: int| 0 <= j < funcs.len() && #[trigger] key_raised::<H>(funcs[j], v, e)
    ||| exists|j: int, key: Value|
        0 <= j < funcs.len() && #[trigger] keyed::<H>(funcs[j], v, key) && compare_raised::<H>(
            key,
            e,
        )
}

// ---- no two alike -----------------------------------------------------------

/// No value is among those before it, by the host's word.
pub open spec fn distinct<H: Host>(vs: Seq<Value>) -> bool {
    forall|i: int| 0 <= i < vs.len() ==> #[trigger] compared::<H>(vs.take(i), vs[i], false)
}

/// No key is among those before it, by the host's word.
pub open spec fn distinct_keys<H: Host>(es: Seq<Entry>) -> bool {
    forall|i: int|
        0 <= i < es.len() ==> #[trigger] compared_key::<H>(es.take(i), es[i].key, false)
}

/// `keys` are the keys of values by a function, and none of them is among those before it.
pub open spec fn distinct_by<H: Host>(func: u64, vs: Seq<Value>, keys: Seq<Value>) -> bool {
    &&& keys.len() == vs.len()
    &&& forall|i: int| 0 <= i < vs.len() ==> #[trigger] keyed::<H>(func, vs[i], keys[i])
    &&& distinct::<H>(keys)
}

/// `keys` are the keys of values by each function, and for each of the functions none of
/// them is among those before it.
pub open spec fn distinct_by_all<H: Host>(
    funcs: Seq<u64>,
    vs: Seq<Value>,
    keys: Seq<Seq<Value>>,
) -> bool {
    &&& keys.len() == funcs.len()
    &&& forall|j: int|
        0 <= j < funcs.len() ==> #[trigger] distinct_by::<H>(funcs[j], vs, keys[j])
}

/// The values are unique by each of the functions.
pub open spec fn unique<H: Host>(funcs: Seq<u64>, vs: Seq<Value>) -> bool {
    exists|keys: Seq<Seq<Value>>| #[trigger] distinct_by_all::<H>(funcs, vs, keys)
}

pub(crate) proof fn lemma_one_more_distinct<H: Host>(vs: Seq<Value>, v: Value)
    requires
        distinct::<H>(vs),
        compared::<H>(vs, v, false),
    ensures
        distinct::<H>(vs.push(v)),
{
    let all = vs.push(v);
    assert forall|i: int| 0 <= i < all.len() implies #[trigger] compared::<H>(
        all.take(i),
        all[i],
        false,
    ) by {
        if i < vs.len() {
            assert(all.take(i) =~= vs.take(i));
            assert(compared::<H>(vs.take(i), vs[i], false));
        } else {
            assert(all.take(i) =~= vs);
        }
    }
}

pub(crate) proof fn lemma_one_more_key<H: Host>(es: Seq<Entry>, e: Entry)
    requires
        distinct_keys::<H>(es),
        compared_key::<H>(es, e.key, false),
    ensures
        distinct_keys::<H>(es.push(e)),
{
    let all = es.push(e);
    assert forall|i: int| 0 <= i < all.len() implies #[trigger] compared_key::<H>(
        all.take(i),
        all[i].key,
        false,
    ) by {
        if i < es.len() {
            assert(all.take(i) =~= es.take(i));
            assert(compared_key::<H>(es.take(i), es[i].key, false));
        } else {
            assert(all.take(i) =~= es);
        }
    }
}

/// A value was new by each of the functions, and its keys were added to those before.
pub open spec fn noted_new<H: Host>(
    funcs: Seq<u64>,
    v: Value,
    before: Seq<Seq<Value>>,
    after: Seq<Seq<Value>>,
) -> bool {
    &&& after.len() == before.len()
    &&& forall|j: int|
        0 <= j < funcs.len() ==> #[trigger] noted_by::<H>(funcs[j], v, before[j], after[j])
}

/// A value was new by a function, and its key was added to those before.
pub open spec fn noted_by<H: Host>(
    func: u64,
    v: Value,
    before: Seq<Value>,
    after: Seq<Value>,
) -> bool {
    &&& after.len() > 0
    &&& after.drop_last() == before
    &&& keyed::<H>(func, v, after.last())
    &&& compared::<H>(before, after.last(), false)
}

/// A value was not new by one of the functions.
pub open spec fn noted_old<H: Host>(funcs: Seq<u64>, v: Value, before: Seq<Seq<Value>>) -> bool {
    exists|j: int, key: Value|
        0 <= j < funcs.len() && #[trigger] keyed::<H>(funcs[j], v, key) && compared::<H>(
            before[j],
            key,
            true,
        )
}

pub(crate) proof fn lemma_one_more_unique<H: Host>(
    funcs: Seq<u64>,
    vs: Seq<Value>,
    v: Value,
    before: Seq<Seq<Value>>,
    after: Seq<Seq<Value>>,
)
    requires
        distinct_by_all::<H>(funcs, vs, before),
        noted_new::<H>(funcs, v, before, after),
    ensures
        distinct_by_all::<H>(funcs, vs.push(v), after),
{
    let all = vs.push(v);
    assert forall|j: int| 0 <= j < funcs.len() implies #[trigger] distinct_by::<H>(
        funcs[j],
        all,
        after[j],
    ) by {
        assert(distinct_by::<H>(funcs[j], vs, before[j]));
        assert(noted_by::<H>(funcs[j], v, before[j], after[j]));
        let keys = after[j];
        assert(keys =~= before[j].push(keys.last()));
        lemma_one_more_distinct::<H>(before[j], keys.last());
        assert forall|i: int| 0 <= i < all.len() implies #[trigger] keyed::<H>(
            funcs[j],
            all[i],
            keys[i],
        ) by {
            if i < vs.len() {
                assert(keyed::<H>(funcs[j], vs[i], before[j][i]));
            }
        }
    }
}

/// `vs` are those of `us` that were new when they came; each of the others was among those
/// kept before it.
pub open spec fn kept_new<H: Host>(us: Seq<Value>, vs: Seq<Value>) -> bool
    decreases us.len(),
{
    if us.len() == 0 {
        vs.len() == 0
    } else {
        ||| compared::<H>(vs, us.last(), true) && kept_new::<H>(us.drop_last(), vs)
        ||| vs.len() > 0 && vs.last() == us.last() && compared::<H>(
            vs.drop_last(),
            us.last(),
            false,
        ) && kept_new::<H>(us.drop_last(), vs.drop_last())
    }
}

/// `vs` are those entries of `us` whose keys were new when they came.
pub open spec fn kept_new_keys<H: Host>(us: Seq<Entry>, vs: Seq<Entry>) -> bool
    decreases us.len(),
{
    if us.len() == 0 {
        vs.len() == 0
    } else {
        ||| compared_key::<H>(vs, us.last().key, true) && kept_new_keys::<H>(us.drop_last(), vs)
        ||| vs.len() > 0 && vs.last() == us.last() && compared_key::<H>(
            vs.drop_last(),
            us.last().key,
            false,
        ) && kept_new_keys::<H>(us.drop_last(), vs.drop_last())
    }
}

/// `vs` are those of `us` that were new by each of the functions when they came, and `keys`
/// are their keys.
pub open spec fn kept_new_by<H: Host>(
    funcs: Seq<u64>,
    us: Seq<Value>,
    vs: Seq<Value>,
    keys: Seq<Seq<Value>>,
) -> bool
    decreases us.len(),
{
    if us.len() == 0 {
        vs.len() == 0
    } else {
        ||| noted_old::<H>(funcs, us.last(), keys) && kept_new_by::<H>(
            funcs,
            us.drop_last(),
            vs,
            keys,
        )
        ||| vs.len() > 0 && vs.last() == us.last() && exists|before: Seq<Seq<Value>>|
            #[trigger] noted_new::<H>(funcs, us.last(), before, keys) && kept_new_by::<H>(
                funcs,
                us.drop_last(),
                vs.drop_last(),
                before,
            )
    }
}

/// `vs` are those of `us` that were new by each of the functions when they came.
pub open spec fn kept_unique<H: Host>(funcs: Seq<u64>, us: Seq<Value>, vs: Seq<Value>) -> bool {
    exists|keys: Seq<Seq<Value>>| #[trigger] kept_new_by::<H>(funcs, us, vs, keys)
}

pub(crate) proof fn lemma_kept_new<H: Host>(us: Seq<Value>, vs: Seq<Value>, u: Value)
    requires
        kept_new::<H>(us, vs),
    ensures
        compared::<H>(vs, u, true) ==> kept_new::<H>(us.push(u), vs),
        compared::<H>(vs, u, false) ==> kept_new::<H>(us.push(u), vs.push(u)),
{
    assert(us.push(u).drop_last() =~= us);
    assert(vs.push(u).drop_last() =~= vs);
}

pub(crate) proof fn lemma_kept_new_keys<H: Host>(us: Seq<Entry>, vs: Seq<Entry>, u: Entry)
    requires
        kept_new_keys::<H>(us, vs),
    ensures
        compared_key::<H>(vs, u.key, true) ==> kept_new_keys::<H>(us.push(u), vs),
        compared_key::<H>(vs, u.key, false) ==> kept_new_keys::<H>(us.push(u), vs.push(u)),
{
    assert(us.push(u).drop_last() =~= us);
    assert(vs.push(u).drop_last() =~= vs);
}

pub(crate) proof fn lemma_kept_new_by<H: Host>(
    funcs: Seq<u64>,
    us: Seq<Value>,
    vs: Seq<Value>,
    keys: Seq<Seq<Value>>,
    u: Value,
    after: Seq<Seq<Value>>,
)
    requires
        kept_new_by::<H>(funcs, us, vs, keys),
    ensures
        noted_old::<H>(funcs, u, keys) ==> kept_new_by::<H>(funcs, us.push(u), vs, keys),
        noted_new::<H>(funcs, u, keys, after) ==> kept_new_by::<H>(
            funcs,
            us.push(u),
            vs.push(u),
            after,
        ),
{
    assert(us.push(u).drop_last() =~= us);
    assert(vs.push(u).drop_last() =~= vs);
}

// ---- values and strategies --------------------------------------------------

/// The sample at a place was accepted.
pub open spec fn accepted_at<H: Host>(node: StrategyNode, i: int, func: u64) -> bool {
    exists|u: Value| #[trigger] is_sample(node, i, u) && judged::<H>(func, u, true)
}

/// The sample at a place was refused.
pub open spec fn refused_at<H: Host>(node: StrategyNode, i: int, func: u64) -> bool {
    exists|u: Value| #[trigger] is_sample(node, i, u) && judged::<H>(func, u, false)
}

/// Each of the places is one of a sample of `n` elements, and what is there was refused.
pub open spec fn all_refused_at<H: Host>(
    node: StrategyNode,
    n: int,
    func: u64,
    places: Seq<int>,
) -> bool {
    forall|x: int|
        0 <= x < places.len() ==> 0 <= (#[trigger] places[x]) < n && refused_at::<H>(
            node,
            places[x],
            func,
        )
}

/// The places of a sample were gone through from the first one on, as far as `upto`, without
/// those in `known`: `allowed` are those whose element was accepted, and the elements at the
/// others were refused.
pub open spec fn sieved<H: Host>(
    node: StrategyNode,
    func: u64,
    known: Seq<int>,
    upto: int,
    allowed: Seq<int>,
) -> bool
    decreases upto,
{
    if upto <= 0 {
        allowed.len() == 0
    } else {
        ||| (known.contains(upto - 1) || refused_at::<H>(node, upto - 1, func)) && sieved::<H>(
            node,
            func,
            known,
            upto - 1,
            allowed,
        )
        ||| allowed.len() > 0 && allowed.last() == upto - 1 && !known.contains(upto - 1)
            && accepted_at::<H>(node, upto - 1, func) && sieved::<H>(
            node,
            func,
            known,
            upto - 1,
            allowed.drop_last(),
        )
    }
}

/// So many elements of a sample of `n` are gone through.
pub open spec fn filter_reach(n: int) -> int {
    if n < MAX_FILTER_CALLS - 3 {
        n
    } else {
        MAX_FILTER_CALLS - 3
    }
}

/// How many elements a sample has.
pub open spec fn sample_size(node: StrategyNode) -> int {
    match node {
        StrategyNode::SampledFrom { elements, .. } => elements@.len() as int,
        StrategyNode::SampledFromRange { len, .. } => len@,
        _ => 0,
    }
}

/// The three first tries at a sample were refused, and so was everything that was gone
/// through after them.
pub open spec fn sample_spent<H: Host>(node: StrategyNode, func: u64) -> bool {
    exists|known: Seq<int>|
        {
            &&& #[trigger] at_places(known)
            &&& known.len() == 3
            &&& all_refused_at::<H>(node, sample_size(node), func, known)
            &&& sieved::<H>(
                node,
                func,
                known,
                filter_reach(sample_size(node)),
                Seq::empty(),
            )
        }
}

/// The choices that name places.
pub open spec fn place_numbers(places: Seq<int>) -> Seq<ChoiceModel> {
    Seq::new(places.len(), |x: int| ChoiceModel::Integer(places[x]))
}

/// How choices pick an element of a sample that a function accepts. Up to three of them name
/// places; the element at the first of these that is accepted is it. If all three are
/// refused, the next one is the number, among the elements still accepted, of the one that
/// is it; if there are not so many of them, one more choice gives the number.
pub open spec fn picks_sample<H: Host>(
    node: StrategyNode,
    func: u64,
    t: Seq<ChoiceModel>,
    known: Seq<int>,
    allowed: Seq<int>,
    i: int,
) -> bool {
    &&& known.len() <= 3
    &&& all_refused_at::<H>(node, sample_size(node), func, known)
    &&& accepted_at::<H>(node, i, func)
    &&& {
        ||| known.len() < 3 && t == place_numbers(known.push(i))
        ||| known.len() == 3 && t == place_numbers(known.push(allowed.len() as int))
            && !known.contains(i) && i < filter_reach(sample_size(node)) && sieved::<H>(
            node,
            func,
            known,
            i,
            allowed,
        )
        ||| known.len() == 3 && t.len() == 5 && t[3] is Integer && t[3]->Integer_0 >= allowed.len()
            && t[4] is Integer && 0 <= t[4]->Integer_0 < allowed.len() && i
            == allowed[t[4]->Integer_0] && t.take(3) == place_numbers(known) && sieved::<H>(
            node,
            func,
            known,
            filter_reach(sample_size(node)),
            allowed,
        )
    }
}

/// The choices pick an element of a sample that a function accepts, and the value is that.
pub open spec fn spells_sample<H: Host>(
    node: StrategyNode,
    func: u64,
    t: Seq<ChoiceModel>,
    v: Value,
) -> bool {
    exists|known: Seq<int>, allowed: Seq<int>, i: int| #[trigger]
        picks_sample::<H>(node, func, t, known, allowed, i) && is_sample(node, i, v)
}

/// The host was told that a filter refused something.
pub open spec fn told_of_retry<H: Host>(base: StrategyNode, func: u64) -> bool {
    exists|h: &mut H| #[trigger] call_ensures(H::retried, (h, &base, func), ())
}

/// A sample was accepted.
pub open spec fn accepted_sample<H: Host>(node: StrategyNode, func: u64, v: Value) -> bool {
    exists|i: int, u: Value| #[trigger]
        is_sample(node, i, u) && is_sample(node, i, v) && judged::<H>(func, u, true)
}

/// The last of the values was accepted, and the others were refused; there are not too many
/// of them.
pub open spec fn sifted<H: Host>(func: u64, us: Seq<Value>) -> bool {
    &&& 0 < us.len() <= MAX_FILTER_TRIES + 1
    &&& all_refused::<H>(func, us.drop_last())
    &&& judged::<H>(func, us.last(), true)
}

/// All of the values were refused.
pub open spec fn all_refused<H: Host>(func: u64, us: Seq<Value>) -> bool {
    forall|i: int| 0 <= i < us.len() ==> #[trigger] judged::<H>(func, us[i], false)
}

/// How a value came out of a strategy: as the strategy and the host's answers say.
pub open spec fn gives<H: Host>(node: StrategyNode, v: Value, b: Budget) -> bool
    decreases b.expanded, b.deferred, node,
{
    match node {
        StrategyNode::OneOf(children) => exists|i: int|
            0 <= i < children@.len() && gives::<H>(#[trigger] children@[i], v, b),
        StrategyNode::Tuples(children) => {
            &&& conforms(node, v)
            &&& forall|i: int|
                0 <= i < children@.len() ==> gives::<H>(children@[i], #[trigger] v->Tuple_0@[i], b)
        },
        StrategyNode::Lists { elem, unique_by, swap_domain, .. } => {
            &&& conforms(node, v)
            &&& match swap_domain {
                Some(_) => distinct::<H>(v->List_0@),
                None => {
                    &&& forall|i: int|
                        0 <= i < v->List_0@.len() ==> gives::<H>(*elem, #[trigger] v->List_0@[i], b)
                    &&& unique::<H>(unique_by@, v->List_0@)
                },
            }
        },
        StrategyNode::Sets { elem, .. } => {
            &&& conforms(node, v)
            &&& forall|i: int|
                0 <= i < v->items@.len() ==> gives::<H>(*elem, #[trigger] v->items@[i], b)
            &&& distinct::<H>(v->items@)
        },
        StrategyNode::Dictionaries { keys, values, .. } => {
            &&& conforms(node, v)
            &&& forall|i: int|
                0 <= i < v->Dict_0@.len() ==> gives::<H>(*keys, (#[trigger] v->Dict_0@[i]).key, b)
                    && gives::<H>(*values, v->Dict_0@[i].value, b)
            &&& distinct_keys::<H>(v->Dict_0@)
        },
        StrategyNode::FixedDict { items } => {
            &&& conforms(node, v)
            &&& forall|i: int|
                0 <= i < items@.len() ==> gives::<H>(
                    items@[i].value,
                    (#[trigger] v->Dict_0@[i]).value,
                    b,
                )
        },
        StrategyNode::Mapped { base, func } => exists|u: Value| #[trigger]
            applied::<H>(func, u, v) && gives::<H>(*base, u, b),
        StrategyNode::Filtered { base, func } => if is_short_sample(*base) {
            accepted_sample::<H>(*base, func, v)
        } else {
            exists|us: Seq<Value>|
                {
                    &&& #[trigger] tried(us)
                    &&& sifted::<H>(func, us)
                    &&& us.last() == v
                    &&& us.len() > 1 ==> told_of_retry::<H>(*base, func)
                    &&& forall|i: int| 0 <= i < us.len() ==> gives::<H>(*base, #[trigger] us[i], b)
                }
        },
        StrategyNode::Flatmapped { base, func } => b.expanded > 0 && exists|
            u: Value,
            next: StrategyNode,
        | #[trigger]
            expanded::<H>(func, u, next) && gives::<H>(*base, u, b) && next.ok() && gives::<H>(
                next,
                v,
                b.once_expanded(),
            ),
        StrategyNode::Deferred { thunk } => b.deferred > 0 && exists|next: StrategyNode| #[trigger]
            turned_out::<H>(thunk, next) && next.ok() && gives::<H>(next, v, b.once_deferred()),
        StrategyNode::Builds { target, args, kwargs } => exists|
            us: Vec<Value>,
            ws: Vec<NamedValue>,
        |
            {
                &&& #[trigger] built::<H>(target, us, ws, v)
                &&& us@.len() == args@.len()
                &&& forall|i: int| 0 <= i < args@.len() ==> gives::<H>(#[trigger] args@[i], us@[i], b)
                &&& ws@.len() == kwargs@.len()
                &&& forall|i: int|
                    0 <= i < kwargs@.len() ==> ws@[i].name@ == (#[trigger] kwargs@[i]).name@
                        && gives::<H>(kwargs@[i].node, ws@[i].value, b)
            },
        StrategyNode::Shared { base, key, .. } => {
            ||| shared_before::<H>(key, v)
            ||| gives::<H>(*base, v, b) && shared_now::<H>(key, v)
        },
        StrategyNode::Functions { id, result, pure } => made_function::<H>(id, *result, pure, v),
        StrategyNode::Randoms { use_true_random, note_method_calls } => made_random::<H>(
            use_true_random,
            note_method_calls,
            v,
        ),
        StrategyNode::Composite { func } => composed::<H>(func, v, b),
        StrategyNode::Foreign { id } => drawn_elsewhere::<H>(id, v, b),
        _ => conforms(node, v),
    }
}

// ---- why nothing was drawn --------------------------------------------------

/// More of the values were seen before than there is patience for, and those that were new
/// are too few.
pub open spec fn too_few(tried: int, kept: int, min: int) -> bool {
    kept < min && tried - kept > patience(kept)
}

/// No numerator makes a fraction between the bounds with the denominator.
pub open spec fn no_numerator(min: Option<Ratio>, max: Option<Ratio>, den: int) -> bool {
    forall|num: int| #![trigger ratio_at_least(num, den, min)]
        !(ratio_at_least(num, den, min) && ratio_at_most(num, den, max))
}

/// Some denominator leaves no numerator.
pub open spec fn some_without_numerator(
    min: Option<Ratio>,
    max: Option<Ratio>,
    max_denom: int,
) -> bool {
    exists|den: int| 1 <= den <= max_denom && #[trigger] no_numerator(min, max, den)
}

/// A function refused so much that a filter gives up: what there is in a sample, or as
/// many values as there are tries.
pub open spec fn refused_too_often<H: Host>(base: StrategyNode, func: u64, b: Budget) -> bool {
    if is_short_sample(base) {
        sample_spent::<H>(base, func)
    } else {
        exists|us: Seq<Value>|
            {
                &&& #[trigger] tried(us)
                &&& us.len() == MAX_FILTER_TRIES + 1
                &&& all_refused::<H>(func, us)
                &&& told_of_retry::<H>(base, func)
                &&& forall|i: int| 0 <= i < us.len() ==> gives::<H>(base, #[trigger] us[i], b)
            }
    }
}

/// Values came out of a strategy of which too few were new.
pub open spec fn values_spent<H: Host>(elem: StrategyNode, min: int, b: Budget) -> bool {
    exists|us: Seq<Value>, vs: Seq<Value>|
        {
            &&& #[trigger] kept_new::<H>(us, vs)
            &&& too_few(us.len() as int, vs.len() as int, min)
            &&& forall|i: int| 0 <= i < us.len() ==> gives::<H>(elem, #[trigger] us[i], b)
        }
}

/// Values came out of a strategy of which too few were new by each of the functions.
pub open spec fn keys_spent<H: Host>(
    elem: StrategyNode,
    funcs: Seq<u64>,
    min: int,
    b: Budget,
) -> bool {
    exists|us: Seq<Value>, vs: Seq<Value>|
        {
            &&& #[trigger] kept_unique::<H>(funcs, us, vs)
            &&& too_few(us.len() as int, vs.len() as int, min)
            &&& forall|i: int| 0 <= i < us.len() ==> gives::<H>(elem, #[trigger] us[i], b)
        }
}

/// Entries came out of strategies of which too few had new keys.
pub open spec fn entries_spent<H: Host>(
    keys: StrategyNode,
    values: StrategyNode,
    min: int,
    b: Budget,
) -> bool {
    exists|us: Seq<Entry>, vs: Seq<Entry>|
        {
            &&& #[trigger] kept_new_keys::<H>(us, vs)
            &&& too_few(us.len() as int, vs.len() as int, min)
            &&& forall|i: int|
                0 <= i < us.len() ==> gives::<H>(keys, (#[trigger] us[i]).key, b) && gives::<H>(
                    values,
                    us[i].value,
                    b,
                )
        }
}

/// Of what was taken out of a domain too little was new.
pub open spec fn domain_spent<H: Host>(domain: Seq<Atom>, min: int) -> bool {
    exists|places: Seq<int>, vs: Seq<Value>|
        {
            &&& #[trigger] kept_new::<H>(picked(domain, places), vs)
            &&& places.len() <= domain.len()
            &&& forall|x: int|
                0 <= x < places.len() ==> 0 <= (#[trigger] places[x]) < domain.len() - x
            &&& too_few(places.len() as int, vs.len() as int, min)
        }
}

/// Why a strategy can give a test case up: there is nothing to choose from, too much was
/// refused or seen before, or it is for the host to say.
pub open spec fn gives_up<H: Host>(node: StrategyNode, b: Budget) -> bool
    decreases b.expanded, b.deferred, node,
{
    match node {
        StrategyNode::Nothing => true,
        StrategyNode::SampledFrom { elements, .. } => elements@.len() == 0,
        StrategyNode::SampledFromRange { len, .. } => len@ <= 0,
        StrategyNode::Fractions { min, max, max_denom } => some_without_numerator(
            min,
            max,
            max_denom as int,
        ),
        StrategyNode::Decimals { min, max, places } => no_numerator(
            min,
            max,
            decimal_unit(places),
        ),
        StrategyNode::OneOf(children) => children@.len() == 0 || exists|i: int|
            0 <= i < children@.len() && gives_up::<H>(#[trigger] children@[i], b),
        StrategyNode::Tuples(children) => exists|i: int|
            0 <= i < children@.len() && gives_up::<H>(#[trigger] children@[i], b),
        StrategyNode::FixedDict { items } => exists|i: int|
            0 <= i < items@.len() && gives_up::<H>((#[trigger] items@[i]).value, b),
        StrategyNode::Lists { elem, min, unique_by, swap_domain, .. } => match swap_domain {
            Some(domain) => domain_spent::<H>(domain@, min as int),
            None => gives_up::<H>(*elem, b) || keys_spent::<H>(*elem, unique_by@, min as int, b),
        },
        StrategyNode::Sets { elem, min, .. } => gives_up::<H>(*elem, b) || values_spent::<H>(
            *elem,
            min as int,
            b,
        ),
        StrategyNode::Dictionaries { keys, values, min, .. } => gives_up::<H>(*keys, b)
            || gives_up::<H>(*values, b) || entries_spent::<H>(*keys, *values, min as int, b),
        StrategyNode::Mapped { base, .. } => gives_up::<H>(*base, b),
        StrategyNode::Filtered { base, func } => gives_up::<H>(*base, b)
            || refused_too_often::<H>(*base, func, b),
        StrategyNode::Builds { args, kwargs, .. } => {
            ||| exists|i: int| 0 <= i < args@.len() && gives_up::<H>(#[trigger] args@[i], b)
            ||| exists|i: int|
                0 <= i < kwargs@.len() && gives_up::<H>((#[trigger] kwargs@[i]).node, b)
        },
        StrategyNode::Shared { base, .. } => gives_up::<H>(*base, b),
        StrategyNode::Flatmapped { base, func } => gives_up::<H>(*base, b) || exists|
            u: Value,
            next: StrategyNode,
        |
            {
                &&& #[trigger] expanded::<H>(func, u, next)
                &&& gives::<H>(*base, u, b)
                &&& b.expanded == 0 || (next.ok() && gives_up::<H>(next, b.once_expanded()))
            },
        StrategyNode::Deferred { thunk } => exists|next: StrategyNode|
            {
                &&& #[trigger] turned_out::<H>(thunk, next)
                &&& b.deferred == 0 || (next.ok() && gives_up::<H>(next, b.once_deferred()))
            },
        _ => false,
    }
}

/// A part of the strategy is a mistake, or may turn out to be one.
pub open spec fn mistaken<H: Host>(node: StrategyNode, b: Budget) -> bool
    decreases b.expanded, b.deferred, node,
{
    match node {
        StrategyNode::Invalid { .. } => true,
        StrategyNode::OneOf(children) => exists|i: int|
            0 <= i < children@.len() && mistaken::<H>(#[trigger] children@[i], b),
        StrategyNode::Tuples(children) => exists|i: int|
            0 <= i < children@.len() && mistaken::<H>(#[trigger] children@[i], b),
        StrategyNode::FixedDict { items } => exists|i: int|
            0 <= i < items@.len() && mistaken::<H>((#[trigger] items@[i]).value, b),
        StrategyNode::Lists { elem, swap_domain, .. } => swap_domain is None && mistaken::<H>(*elem, b),
        StrategyNode::Sets { elem, .. } => mistaken::<H>(*elem, b),
        StrategyNode::Dictionaries { keys, values, .. } => mistaken::<H>(*keys, b) || mistaken::<H>(*values, b),
        StrategyNode::Mapped { base, .. } => mistaken::<H>(*base, b),
        StrategyNode::Filtered { base, .. } => mistaken::<H>(*base, b),
        StrategyNode::Builds { args, kwargs, .. } => {
            ||| exists|i: int| 0 <= i < args@.len() && mistaken::<H>(#[trigger] args@[i], b)
            ||| exists|i: int| 0 <= i < kwargs@.len() && mistaken::<H>((#[trigger] kwargs@[i]).node, b)
        },
        StrategyNode::Shared { base, .. } => mistaken::<H>(*base, b),
        StrategyNode::Flatmapped { base, func } => mistaken::<H>(*base, b) || (b.expanded > 0
            && exists|u: Value, next: StrategyNode|
            {
                &&& #[trigger] expanded::<H>(func, u, next)
                &&& gives::<H>(*base, u, b)
                &&& next.ok() && mistaken::<H>(next, b.once_expanded())
            }),
        StrategyNode::Deferred { thunk } => b.deferred > 0 && exists|next: StrategyNode|
            {
                &&& #[trigger] turned_out::<H>(thunk, next)
                &&& next.ok() && mistaken::<H>(next, b.once_deferred())
            },
        _ => false,
    }
}

/// The host raised this over a value of a strategy that a filter asked it about.
pub open spec fn filter_raised<H: Host>(
    base: StrategyNode,
    func: u64,
    e: Raised,
    b: Budget,
) -> bool {
    exists|u: Value| #[trigger]
        judge_raised::<H>(func, u, e) && if is_short_sample(base) {
            sampled(base, u)
        } else {
            gives::<H>(base, u, b)
        }
}

/// The host raised this over a value of a strategy when it was to tell whether the value is
/// new by each of the functions.
pub open spec fn keys_raised<H: Host>(
    elem: StrategyNode,
    funcs: Seq<u64>,
    e: Raised,
    b: Budget,
) -> bool {
    exists|v: Value| #[trigger] unique_raised::<H>(funcs, v, e) && gives::<H>(elem, v, b)
}

/// The host raised this over a value of a strategy when it compared it.
pub open spec fn values_raised<H: Host>(elem: StrategyNode, e: Raised, b: Budget) -> bool {
    exists|v: Value| #[trigger] compare_raised::<H>(v, e) && gives::<H>(elem, v, b)
}

/// The host raised this over an element of a domain when it compared it.
pub open spec fn domain_raised<H: Host>(domain: Seq<Atom>, e: Raised) -> bool {
    exists|a: Atom| #[trigger] compare_raised::<H>(Value::Atom(a), e) && domain.contains(a)
}

/// The host raised this over the key of an entry when it compared it.
pub open spec fn entries_raised<H: Host>(keys: StrategyNode, e: Raised, b: Budget) -> bool {
    exists|k: Value| #[trigger] compare_key_raised::<H>(k, e) && gives::<H>(keys, k, b)
}

/// The host raised this when it applied a function to a value of a strategy.
pub open spec fn mapping_raised<H: Host>(
    base: StrategyNode,
    func: u64,
    e: Raised,
    b: Budget,
) -> bool {
    exists|u: Value| #[trigger] apply_raised::<H>(func, u, e) && gives::<H>(base, u, b)
}

/// The host raised this when it was to make a strategy of a value of another one.
pub open spec fn expansion_raised<H: Host>(
    base: StrategyNode,
    func: u64,
    e: Raised,
    b: Budget,
) -> bool {
    exists|u: Value| #[trigger] expand_raised::<H>(func, u, e) && gives::<H>(base, u, b)
}

/// The host raised this when it called a target with arguments that were drawn for it.
pub open spec fn target_raised<H: Host>(node: StrategyNode, e: Raised, b: Budget) -> bool {
    match node {
        StrategyNode::Builds { target, args, kwargs } => exists|
            us: Vec<Value>,
            ws: Vec<NamedValue>,
        |
            {
                &&& #[trigger] build_raised::<H>(target, us, ws, e)
                &&& us@.len() == args@.len()
                &&& forall|i: int|
                    0 <= i < args@.len() ==> gives::<H>(#[trigger] args@[i], us@[i], b)
                &&& ws@.len() == kwargs@.len()
                &&& forall|i: int|
                    0 <= i < kwargs@.len() ==> ws@[i].name@ == (#[trigger] kwargs@[i]).name@
                        && gives::<H>(kwargs@[i].node, ws@[i].value, b)
            },
        _ => false,
    }
}

/// Why a draw from a strategy fails on account of the host: something that the strategy asked
/// of it raised this, or it came up with a strategy that cannot be drawn from.
pub open spec fn fails<H: Host>(node: StrategyNode, e: DrawError, b: Budget) -> bool
    decreases b.expanded, b.deferred, node,
{
    match node {
        StrategyNode::OneOf(children) => exists|i: int|
            0 <= i < children@.len() && fails::<H>(#[trigger] children@[i], e, b),
        StrategyNode::Tuples(children) => exists|i: int|
            0 <= i < children@.len() && fails::<H>(#[trigger] children@[i], e, b),
        StrategyNode::FixedDict { items } => exists|i: int|
            0 <= i < items@.len() && fails::<H>((#[trigger] items@[i]).value, e, b),
        StrategyNode::Lists { elem, unique_by, swap_domain, .. } => match swap_domain {
            Some(domain) => e is Raised && domain_raised::<H>(domain@, e->Raised_0),
            None => fails::<H>(*elem, e, b) || (e is Raised && keys_raised::<H>(
                *elem,
                unique_by@,
                e->Raised_0,
                b,
            )),
        },
        StrategyNode::Sets { elem, .. } => fails::<H>(*elem, e, b) || (e is Raised
            && values_raised::<H>(*elem, e->Raised_0, b)),
        StrategyNode::Dictionaries { keys, values, .. } => {
            ||| fails::<H>(*keys, e, b)
            ||| fails::<H>(*values, e, b)
            ||| e is Raised && entries_raised::<H>(*keys, e->Raised_0, b)
        },
        StrategyNode::Mapped { base, func } => {
            ||| fails::<H>(*base, e, b)
            ||| e is Raised && mapping_raised::<H>(*base, func, e->Raised_0, b)
        },
        StrategyNode::Filtered { base, func } => fails::<H>(*base, e, b) || (e is Raised
            && filter_raised::<H>(*base, func, e->Raised_0, b)),
        StrategyNode::Flatmapped { base, func } => {
            ||| fails::<H>(*base, e, b)
            ||| e is Raised && expansion_raised::<H>(*base, func, e->Raised_0, b)
            ||| b.expanded > 0 && exists|u: Value, next: StrategyNode|
                {
                    &&& #[trigger] expanded::<H>(func, u, next)
                    &&& gives::<H>(*base, u, b)
                    &&& if next.ok() {
                        fails::<H>(next, e, b.once_expanded())
                    } else {
                        e is BadStrategy
                    }
                }
        },
        StrategyNode::Deferred { thunk } => {
            ||| e is Raised && resolve_raised::<H>(thunk, e->Raised_0)
            ||| e is DeferredToItself && turned_out::<H>(thunk, StrategyNode::Deferred { thunk })
            ||| b.deferred > 0 && exists|next: StrategyNode|
                {
                    &&& #[trigger] turned_out::<H>(thunk, next)
                    &&& if next.ok() {
                        fails::<H>(next, e, b.once_deferred())
                    } else {
                        e is BadStrategy
                    }
                }
        },
        StrategyNode::Builds { target, args, kwargs } => {
            ||| exists|i: int| 0 <= i < args@.len() && fails::<H>(#[trigger] args@[i], e, b)
            ||| exists|i: int|
                0 <= i < kwargs@.len() && fails::<H>((#[trigger] kwargs@[i]).node, e, b)
            ||| e is Raised && target_raised::<H>(node, e->Raised_0, b)
        },
        StrategyNode::Shared { base, .. } => fails::<H>(*base, e, b),
        StrategyNode::Functions { id, result, pure } => e is Raised && function_raised::<H>(
            id,
            *result,
            pure,
            e->Raised_0,
        ),
        StrategyNode::Randoms { use_true_random, note_method_calls } => e is Raised
            && random_raised::<H>(use_true_random, note_method_calls, e->Raised_0),
        StrategyNode::Composite { func } => e is Raised && composite_raised::<H>(
            func,
            e->Raised_0,
            b,
        ),
        StrategyNode::Foreign { id } => e is Raised && foreign_raised::<H>(id, e->Raised_0, b),
        _ => false,
    }
}

/// Why nothing was drawn from a strategy: there is no more room, the strategy gave the test
/// case up, a part of it is a mistake, or the host is the reason.
pub open spec fn stops_by<H: Host>(
    node: StrategyNode,
    after: Case,
    e: DrawError,
    b: Budget,
) -> bool {
    match e {
        DrawError::Stop(_) => after.overran() || gives_up::<H>(node, b),
        DrawError::Invalid { .. } => mistaken::<H>(node, b),
        _ => fails::<H>(node, e, b),
    }
}

} // verus!
