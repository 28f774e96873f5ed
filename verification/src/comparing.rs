//! How the host is asked whether values are new, question by question.
//!
//! `fut` tells what a host that was borrowed for a call is left as.
use crate::drawing::{Entry, Host, Value};
use crate::runner::Raised;
use vstd::prelude::*;

verus! {

/// The host was asked whether a value is among others, once.
pub open spec fn seen_from<H: Host>(
    fut: spec_fn(&mut H) -> H,
    before: H,
    left: H,
    others: Seq<Value>,
    v: Value,
    answer: Result<bool, Raised>,
) -> bool {
    exists|h: &mut H, list: Vec<Value>|
        #[trigger] call_ensures(H::is_seen, (h, &list, &v), answer) && list@ == others && *h
            == before && fut(h) == left
}

/// The host was asked whether a value is among the keys of entries, once.
pub open spec fn key_seen_from<H: Host>(
    fut: spec_fn(&mut H) -> H,
    before: H,
    left: H,
    entries: Seq<Entry>,
    key: Value,
    answer: Result<bool, Raised>,
) -> bool {
    exists|h: &mut H, list: Vec<Entry>|
        #[trigger] call_ensures(H::is_key, (h, &list, &key), answer) && list@ == entries && *h
            == before && fut(h) == left
}

/// The host was asked for the key of a value, once.
pub open spec fn key_from<H: Host>(
    fut: spec_fn(&mut H) -> H,
    before: H,
    left: H,
    func: u64,
    v: Value,
    answer: Result<Value, Raised>,
) -> bool {
    exists|h: &mut H|
        #[trigger] call_ensures(H::key, (h, func, &v), answer) && *h == before && fut(h) == left
}

/// The keys of a value by the first functions were found, each one once, and each one was
/// new.
pub open spec fn keyed_in_turn<H: Host>(
    fut: spec_fn(&mut H) -> H,
    start: H,
    end: H,
    funcs: Seq<u64>,
    seen: Seq<Seq<Value>>,
    v: Value,
    keys: Seq<Value>,
) -> bool
    decreases keys.len(),
{
    if keys.len() == 0 {
        start == end
    } else {
        exists|h: H, k: H|
            {
                &&& #[trigger] key_from(fut, h, k, funcs[keys.len() - 1], v, Ok(keys.last()))
                &&& #[trigger] seen_from(
                    fut,
                    k,
                    end,
                    seen[keys.len() - 1],
                    keys.last(),
                    Ok(false),
                )
                &&& keyed_in_turn(fut, start, h, funcs, seen, v, keys.drop_last())
            }
    }
}

/// The keys seen, with those of another value behind them.
pub open spec fn with_keys(seen: Seq<Seq<Value>>, keys: Seq<Value>) -> Seq<Seq<Value>> {
    Seq::new(seen.len(), |j: int| seen[j].push(keys[j]))
}

/// The host was asked whether a value is new by each of the functions, one after the other,
/// up to the first one by which it is not. `after` are the keys seen then.
pub open spec fn noted_from<H: Host>(
    fut: spec_fn(&mut H) -> H,
    before: H,
    left: H,
    funcs: Seq<u64>,
    seen: Seq<Seq<Value>>,
    v: Value,
    after: Seq<Seq<Value>>,
    r: Result<bool, Raised>,
) -> bool {
    exists|keys: Seq<Value>, h: H| #[trigger]
        keyed_in_turn(fut, before, h, funcs, seen, v, keys) && noted_at(
            fut,
            h,
            left,
            funcs,
            seen,
            v,
            keys,
            after,
            r,
        )
}

/// What became of a value once it was new by the first functions.
pub open spec fn noted_at<H: Host>(
    fut: spec_fn(&mut H) -> H,
    before: H,
    left: H,
    funcs: Seq<u64>,
    seen: Seq<Seq<Value>>,
    v: Value,
    keys: Seq<Value>,
    after: Seq<Seq<Value>>,
    r: Result<bool, Raised>,
) -> bool {
    if keys.len() == funcs.len() {
        r == Ok::<bool, Raised>(true) && before == left && after == with_keys(seen, keys)
    } else {
        let func = funcs[keys.len() as int];
        &&& keys.len() < funcs.len()
        &&& after == seen
        &&& match r {
            Ok(new) => !new && exists|k: H, key: Value| #[trigger]
                key_from(fut, before, k, func, v, Ok(key)) && seen_from(
                    fut,
                    k,
                    left,
                    seen[keys.len() as int],
                    key,
                    Ok(true),
                ),
            Err(e) => {
                ||| key_from(fut, before, left, func, v, Err(e))
                ||| exists|k: H, key: Value| #[trigger]
                    key_from(fut, before, k, func, v, Ok(key)) && seen_from(
                        fut,
                        k,
                        left,
                        seen[keys.len() as int],
                        key,
                        Err(e),
                    )
            },
        }
    }
}

/// By what values are compared: as they are, or by their keys.
pub enum Comparing {
    Values,
    Keys(Seq<u64>),
}

/// The keys seen before there are any values.
pub open spec fn none_seen(how: Comparing) -> Seq<Seq<Value>> {
    match how {
        Comparing::Values => Seq::empty(),
        Comparing::Keys(funcs) => Seq::new(funcs.len(), |j: int| Seq::<Value>::empty()),
    }
}

/// The host was asked whether a value is new beside those kept.
pub open spec fn told_new<H: Host>(
    fut: spec_fn(&mut H) -> H,
    before: H,
    left: H,
    how: Comparing,
    kept: Seq<Value>,
    seen: Seq<Seq<Value>>,
    v: Value,
    after: Seq<Seq<Value>>,
    r: Result<bool, Raised>,
) -> bool {
    match how {
        Comparing::Values => after == seen && seen_from(
            fut,
            before,
            left,
            kept,
            v,
            match r {
                Ok(new) => Ok(!new),
                Err(e) => Err(e),
            },
        ),
        Comparing::Keys(funcs) => noted_from(fut, before, left, funcs, seen, v, after, r),
    }
}

} // verus!
