//! Strategies for collections, moments, addresses and the like.
use crate::arguments::{
    check_ordered_sample, check_strategy, collection_sizes, deferred_invalid, invalid,
    invalid_argument, not_a_strategy, push_count, push_number, sample_mistake, size_of,
    sizes_mistake, strat_is_empty, ArgumentError, Kind, Sample, SizeArg, StrategyArg,
};
use crate::calendar::MAX_ORDINAL;
use crate::integer::{decimal, Int};
use crate::nodes::{empty_in, Facts};
use crate::scalars::{lists, lists_strategy, says, ListsArgs};
use crate::strategy::{
    Atom, FixedItem, StrategyNode, COLLECTION_DEFAULT_MAX_SIZE, US_PER_DAY,
};
use vstd::arithmetic::power2::{lemma2_to64, lemma_pow2_unfold, pow2};
use vstd::prelude::*;

verus! {

// ---- collections ------------------------------------------------------------

/// `r` is the strategy of sets of values of a strategy.
pub open spec fn sets_strategy(
    r: StrategyNode,
    elem: StrategyNode,
    min_size: SizeArg,
    max_size: SizeArg,
    kind: Kind,
    empty: bool,
    shown: Seq<char>,
) -> bool {
    let mistake = sizes_mistake(min_size, max_size, kind, empty, shown);
    if mistake is Some {
        says(r, mistake->0)
    } else {
        &&& r is Sets
        &&& *r->Sets_elem == elem
        &&& r->Sets_min == size_of(min_size, 0)
        &&& r->Sets_max == size_of(max_size, COLLECTION_DEFAULT_MAX_SIZE)
        &&& r->frozen == (kind == Kind::Frozensets)
    }
}

fn make_sets(
    elem: StrategyNode,
    min_size: &SizeArg,
    max_size: &SizeArg,
    kind: Kind,
    shown: &str,
    facts: &Facts,
) -> (r: StrategyNode)
    ensures
        sets_strategy(
            r,
            elem,
            *min_size,
            *max_size,
            kind,
            empty_in(elem, *facts, Seq::empty()),
            shown@,
        ),
{
    let empty = strat_is_empty(&elem, facts);
    match collection_sizes(min_size, max_size, kind, empty, shown) {
        Ok((min, max)) => StrategyNode::Sets {
            elem: Box::new(elem),
            min,
            max,
            frozen: kind == Kind::Frozensets,
        },
        Err(m) => deferred_invalid(m),
    }
}

/// Sets of values of a strategy.
pub fn sets(
    elem: StrategyNode,
    min_size: &SizeArg,
    max_size: &SizeArg,
    shown: &str,
    facts: &Facts,
) -> (r: StrategyNode)
    ensures
        sets_strategy(
            r,
            elem,
            *min_size,
            *max_size,
            Kind::Sets,
            empty_in(elem, *facts, Seq::empty()),
            shown@,
        ),
{
    make_sets(elem, min_size, max_size, Kind::Sets, shown, facts)
}

/// Sets that do not change, of values of a strategy.
pub fn frozensets(
    elem: StrategyNode,
    min_size: &SizeArg,
    max_size: &SizeArg,
    shown: &str,
    facts: &Facts,
) -> (r: StrategyNode)
    ensures
        sets_strategy(
            r,
            elem,
            *min_size,
            *max_size,
            Kind::Frozensets,
            empty_in(elem, *facts, Seq::empty()),
            shown@,
        ),
{
    make_sets(elem, min_size, max_size, Kind::Frozensets, shown, facts)
}

/// Dictionaries from values of a strategy to values of another one. `shown` shows the
/// strategy of the keys.
pub fn dictionaries(
    keys: StrategyArg,
    values: StrategyArg,
    min_size: &SizeArg,
    max_size: &SizeArg,
    shown: &str,
    facts: &Facts,
) -> (r: Result<StrategyNode, ArgumentError>)
    ensures
        !(keys is Strategy) ==> r is Err && invalid(
            r->Err_0,
            not_a_strategy(keys, "dictionaries() keys"@ + "="@),
        ),
        keys is Strategy && !(values is Strategy) ==> r is Err && invalid(
            r->Err_0,
            not_a_strategy(values, "dictionaries() values"@ + "="@),
        ),
        keys is Strategy && values is Strategy ==> r is Ok && ({
            let mistake = sizes_mistake(
                *min_size,
                *max_size,
                Kind::Dictionaries,
                empty_in(keys->Strategy_0, *facts, Seq::empty()) || empty_in(
                    values->Strategy_0,
                    *facts,
                    Seq::empty(),
                ),
                shown@,
            );
            if mistake is Some {
                says(r->Ok_0, mistake->0)
            } else {
                &&& r->Ok_0 is Dictionaries
                &&& *r->Ok_0->keys == keys->Strategy_0
                &&& *r->Ok_0->values == values->Strategy_0
                &&& r->Ok_0->Dictionaries_min == size_of(*min_size, 0)
                &&& r->Ok_0->Dictionaries_max == size_of(*max_size, COLLECTION_DEFAULT_MAX_SIZE)
            }
        }),
{
    match check_strategy(&keys, "dictionaries() keys") {
        Ok(_) => {},
        Err(e) => {
            return Err(e);
        },
    }
    match check_strategy(&values, "dictionaries() values") {
        Ok(_) => {},
        Err(e) => {
            return Err(e);
        },
    }
    match (keys, values) {
        (StrategyArg::Strategy(k), StrategyArg::Strategy(v)) => {
            let no_keys = strat_is_empty(&k, facts);
            let no_values = strat_is_empty(&v, facts);
            match collection_sizes(
                min_size,
                max_size,
                Kind::Dictionaries,
                no_keys || no_values,
                shown,
            ) {
                Ok((min, max)) => Ok(
                    StrategyNode::Dictionaries {
                        keys: Box::new(k),
                        values: Box::new(v),
                        min,
                        max,
                    },
                ),
                Err(m) => Ok(deferred_invalid(m)),
            }
        },
        _ => {
            assert(false);
            Ok(StrategyNode::Nothing)
        },
    }
}

/// Strings of bytes.
pub fn binary(min_size: &SizeArg, max_size: &SizeArg) -> (r: StrategyNode)
    ensures
        r.ok(),
        ({
            let mistake = sizes_mistake(*min_size, *max_size, Kind::Binary, false, ""@);
            if mistake is Some {
                says(r, mistake->0)
            } else {
                r == (StrategyNode::Binary {
                    min: size_of(*min_size, 0),
                    max: size_of(*max_size, COLLECTION_DEFAULT_MAX_SIZE),
                })
            }
        }),
{
    match collection_sizes(min_size, max_size, Kind::Binary, false, "") {
        Ok((min, max)) => StrategyNode::Binary { min, max },
        Err(m) => deferred_invalid(m),
    }
}

/// Iterators over the values of lists: the host makes one of each list.
pub fn iterables(elements: StrategyArg, a: &ListsArgs, facts: &Facts, make_iter: u64) -> (r: Result<
    StrategyNode,
    ArgumentError,
>)
    requires
        a.wide <= u64::MAX - 256,
    ensures
        r is Ok ==> r->Ok_0 is Mapped && r->Ok_0->Mapped_func == make_iter && elements is Strategy
            && lists_strategy(
            *r->Ok_0->Mapped_base,
            elements->Strategy_0,
            *a,
            empty_in(elements->Strategy_0, *facts, Seq::empty()),
        ),
        r is Err <==> !(elements is Strategy) || (!a.unique && a.unique_by is Some
            && !crate::scalars::callable(a.unique_by->0)),
{
    match lists(elements, a, facts) {
        Ok(base) => Ok(StrategyNode::Mapped { base: Box::new(base), func: make_iter }),
        Err(e) => Err(e),
    }
}

/// An entry of a mapping.
#[derive(Debug)]
pub struct MappingEntry {
    pub key: Atom,
    pub key_shown: String,
    /// The other mapping has the key, too.
    pub in_other: bool,
    pub value: StrategyArg,
}

/// A mapping from keys to strategies.
#[derive(Debug)]
pub struct MappingArg {
    pub is_dict: bool,
    pub shown: String,
    /// The name of its type.
    pub of_type: String,
    pub entries: Vec<MappingEntry>,
}

/// What is wrong with one entry of the optional mapping.
pub open spec fn optional_mistake(e: MappingEntry) -> Option<Seq<char>> {
    if e.in_other {
        Some(
            "The following keys were in both mapping and optional, which is invalid: {"@
                + e.key_shown@ + "}"@,
        )
    } else if !(e.value is Strategy) {
        Some(not_a_strategy(e.value, "fixed_dictionaries() optional value"@ + "="@))
    } else {
        None
    }
}

/// What is wrong with the first entry of the optional mapping that is wrong, from place
/// `k` on.
pub open spec fn optional_fault(entries: Seq<MappingEntry>, k: int) -> Option<Seq<char>>
    decreases entries.len() - k,
{
    if k < 0 || k >= entries.len() {
        None
    } else if optional_mistake(entries[k]) is Some {
        optional_mistake(entries[k])
    } else {
        optional_fault(entries, k + 1)
    }
}

/// What is wrong with the first entry of the mapping that is no strategy, from place `k`
/// on.
pub open spec fn required_fault(entries: Seq<MappingEntry>, k: int) -> Option<Seq<char>>
    decreases entries.len() - k,
{
    if k < 0 || k >= entries.len() {
        None
    } else if !(entries[k].value is Strategy) {
        Some(not_a_strategy(entries[k].value, "fixed_dictionaries() value"@ + "="@))
    } else {
        required_fault(entries, k + 1)
    }
}

/// What is wrong with the mappings: the first rule that they break.
pub open spec fn mappings_fault(
    mapping: MappingArg,
    optional: Option<MappingArg>,
    same_type: bool,
) -> Option<Seq<char>> {
    if !mapping.is_dict {
        Some(
            "mapping="@ + mapping.shown@ + " must be a dict mapping keys to strategies."@,
        )
    } else if optional is Some && !optional->0.is_dict {
        Some(
            "optional="@ + optional->0.shown@ + " must be a dict mapping keys to strategies."@,
        )
    } else if optional is Some && !same_type {
        Some(
            "Got arguments of different types: mapping="@ + mapping.of_type@ + ", optional="@
                + optional->0.of_type@,
        )
    } else if optional is Some && optional_fault(optional->0.entries@, 0) is Some {
        optional_fault(optional->0.entries@, 0)
    } else {
        required_fault(mapping.entries@, 0)
    }
}

fn not_a_dict(name: &str, shown: &str) -> (r: ArgumentError)
    ensures
        invalid(r, name@ + shown@ + " must be a dict mapping keys to strategies."@),
{
    let mut msg = String::new();
    msg.append(name);
    msg.append(shown);
    msg.append(" must be a dict mapping keys to strategies.");
    assert(msg@ =~= name@ + shown@ + " must be a dict mapping keys to strategies."@);
    invalid_argument(msg)
}

fn check_optional(entries: &Vec<MappingEntry>) -> (r: Result<(), ArgumentError>)
    ensures
        r is Ok <==> optional_fault(entries@, 0) is None,
        r is Err ==> invalid(r->Err_0, optional_fault(entries@, 0)->0),
{
    let mut i: usize = 0;
    while i < entries.len()
        invariant
            i <= entries.len(),
            optional_fault(entries@, 0) == optional_fault(entries@, i as int),
        decreases entries.len() - i,
    {
        if entries[i].in_other {
            let mut msg = String::new();
            msg.append("The following keys were in both mapping and optional, which is invalid: {");
            msg.append(entries[i].key_shown.as_str());
            msg.append("}");
            assert(msg@
                =~= "The following keys were in both mapping and optional, which is invalid: {"@
                + entries@[i as int].key_shown@ + "}"@);
            return Err(invalid_argument(msg));
        }
        match check_strategy(&entries[i].value, "fixed_dictionaries() optional value") {
            Ok(_) => {},
            Err(e) => {
                return Err(e);
            },
        }
        i = i + 1;
    }
    Ok(())
}

fn check_required(entries: &Vec<MappingEntry>) -> (r: Result<(), ArgumentError>)
    ensures
        r is Ok <==> required_fault(entries@, 0) is None,
        r is Ok ==> forall|k: int|
            0 <= k < entries@.len() ==> (#[trigger] entries@[k]).value is Strategy,
        r is Err ==> invalid(r->Err_0, required_fault(entries@, 0)->0),
{
    let mut i: usize = 0;
    while i < entries.len()
        invariant
            i <= entries.len(),
            forall|k: int| 0 <= k < i ==> (#[trigger] entries@[k]).value is Strategy,
            required_fault(entries@, 0) == required_fault(entries@, i as int),
        decreases entries.len() - i,
    {
        match check_strategy(&entries[i].value, "fixed_dictionaries() value") {
            Ok(_) => {},
            Err(e) => {
                return Err(e);
            },
        }
        i = i + 1;
    }
    Ok(())
}

/// Dictionaries with fixed keys. Keys that are optional are checked, and left out.
pub fn fixed_dictionaries(
    mapping: MappingArg,
    optional: &Option<MappingArg>,
    same_type: bool,
) -> (r: Result<StrategyNode, ArgumentError>)
    ensures
        r is Ok <==> mappings_fault(mapping, *optional, same_type) is None,
        r is Err ==> invalid(r->Err_0, mappings_fault(mapping, *optional, same_type)->0),
        r is Ok ==> {
            &&& r->Ok_0 is FixedDict
            &&& r->Ok_0->items@.len() == mapping.entries@.len()
            &&& forall|i: int|
                0 <= i < mapping.entries@.len() ==> (#[trigger] r->Ok_0->items@[i]).key
                    == mapping.entries@[i].key && r->Ok_0->items@[i].value
                    == mapping.entries@[i].value->Strategy_0
        },
{
    if !mapping.is_dict {
        return Err(not_a_dict("mapping=", mapping.shown.as_str()));
    }
    if let Some(o) = optional {
        if !o.is_dict {
            return Err(not_a_dict("optional=", o.shown.as_str()));
        }
        if !same_type {
            let mut msg = String::new();
            msg.append("Got arguments of different types: mapping=");
            msg.append(mapping.of_type.as_str());
            msg.append(", optional=");
            msg.append(o.of_type.as_str());
            assert(msg@ =~= "Got arguments of different types: mapping="@ + mapping.of_type@
                + ", optional="@ + o.of_type@);
            return Err(invalid_argument(msg));
        }
        match check_optional(&o.entries) {
            Ok(_) => {},
            Err(e) => {
                return Err(e);
            },
        }
    }
    match check_required(&mapping.entries) {
        Ok(_) => {},
        Err(e) => {
            return Err(e);
        },
    }
    let ghost all = mapping.entries@;
    let mut rest = mapping.entries;
    let mut items: Vec<FixedItem> = Vec::new();
    while rest.len() > 0
        invariant
            items@.len() + rest@.len() == all.len(),
            rest@ == all.skip(items@.len() as int),
            forall|k: int| 0 <= k < all.len() ==> (#[trigger] all[k]).value is Strategy,
            forall|i: int|
                0 <= i < items@.len() ==> (#[trigger] items@[i]).key == all[i].key
                    && items@[i].value == all[i].value->Strategy_0,
        decreases rest.len(),
    {
        let ghost n = items@.len() as int;
        let e = rest.remove(0);
        proof {
            assert(e == all[n]);
            assert(rest@ =~= all.skip(n + 1));
        }
        match e.value {
            StrategyArg::Strategy(value) => items.push(FixedItem { key: e.key, value }),
            StrategyArg::Other { .. } => {
                assert(all[n].value is Strategy);
            },
        }
    }
    Ok(StrategyNode::FixedDict { items })
}

/// The orders of a sample.
pub fn permutations(sample: Sample, shown: &str, values: Vec<Atom>) -> (r: Result<
    StrategyNode,
    ArgumentError,
>)
    ensures
        r is Ok <==> sample_mistake(sample, shown@, "permutations"@) is None,
        r is Ok ==> r->Ok_0 == StrategyNode::Permutations(values),
        r is Err ==> invalid(r->Err_0, sample_mistake(sample, shown@, "permutations"@)->0),
{
    match check_ordered_sample(sample, shown, "permutations") {
        Ok(_) => Ok(StrategyNode::Permutations(values)),
        Err(e) => Err(e),
    }
}

// ---- flags and numbers ------------------------------------------------------

/// An argument that should be a truth value.
#[derive(Debug)]
pub enum FlagArg {
    Absent,
    Flag(bool),
    /// Something else, as it is shown.
    Other(String),
}

/// Reads a truth value.
pub fn check_bool_flag(v: &FlagArg, default: bool, name: &str) -> (r: Result<bool, ArgumentError>)
    ensures
        r is Err <==> *v is Other,
        r is Ok ==> r->Ok_0 == (match *v {
            FlagArg::Flag(b) => b,
            _ => default,
        }),
        r is Err ==> invalid(
            r->Err_0,
            "Expected "@ + name@ + " to be a bool, but got "@ + v->Other_0@,
        ),
{
    match v {
        FlagArg::Absent => Ok(default),
        FlagArg::Flag(b) => Ok(*b),
        FlagArg::Other(shown) => {
            let mut msg = String::new();
            msg.append("Expected ");
            msg.append(name);
            msg.append(" to be a bool, but got ");
            msg.append(shown.as_str());
            assert(msg@ =~= "Expected "@ + name@ + " to be a bool, but got "@ + shown@);
            Err(invalid_argument(msg))
        },
    }
}

/// Random number generators.
pub fn randoms(note_method_calls: &FlagArg, use_true_random: &FlagArg) -> (r: Result<
    StrategyNode,
    ArgumentError,
>)
    ensures
        r is Err <==> *note_method_calls is Other || *use_true_random is Other,
        *note_method_calls is Other ==> invalid(
            r->Err_0,
            "Expected "@ + "note_method_calls"@ + " to be a bool, but got "@
                + note_method_calls->Other_0@,
        ),
        !(*note_method_calls is Other) && *use_true_random is Other ==> invalid(
            r->Err_0,
            "Expected "@ + "use_true_random"@ + " to be a bool, but got "@
                + use_true_random->Other_0@,
        ),
        r is Ok ==> r->Ok_0 == (StrategyNode::Randoms {
            use_true_random: *use_true_random == FlagArg::Flag(true),
            note_method_calls: *note_method_calls == FlagArg::Flag(true),
        }),
{
    let note = match check_bool_flag(note_method_calls, false, "note_method_calls") {
        Ok(b) => b,
        Err(e) => {
            return Err(e);
        },
    };
    match check_bool_flag(use_true_random, false, "use_true_random") {
        Ok(b) => Ok(StrategyNode::Randoms { use_true_random: b, note_method_calls: note }),
        Err(e) => Err(e),
    }
}

/// What is wrong with the arguments of unique identifiers.
pub open spec fn uuids_mistake(version: Option<u8>, allow_nil: FlagArg) -> Option<Seq<char>> {
    if allow_nil is Other {
        Some("allow_nil must be a boolean value, got allow_nil="@ + allow_nil->Other_0@)
    } else if version is Some && !(1 <= version->0 <= 5) {
        Some(
            "version="@ + decimal(version->0 as int)
                + " is not valid; use a version between 1 and 5, or None"@,
        )
    } else if allow_nil == FlagArg::Flag(true) && version is Some {
        Some("The nil UUID is not of any version, so you must use version=None"@)
    } else {
        None
    }
}

/// Unique identifiers.
pub fn uuids(version: Option<u8>, allow_nil: &FlagArg) -> (r: Result<StrategyNode, ArgumentError>)
    ensures
        r is Ok <==> uuids_mistake(version, *allow_nil) is None,
        r is Ok ==> r->Ok_0 == (StrategyNode::Uuids {
            version,
            allow_nil: *allow_nil == FlagArg::Flag(true),
        }),
        r is Err ==> invalid(r->Err_0, uuids_mistake(version, *allow_nil)->0),
{
    let mut msg = String::new();
    let nil = match allow_nil {
        FlagArg::Absent => false,
        FlagArg::Flag(b) => *b,
        FlagArg::Other(shown) => {
            msg.append("allow_nil must be a boolean value, got allow_nil=");
            msg.append(shown.as_str());
            assert(msg@ =~= "allow_nil must be a boolean value, got allow_nil="@ + shown@);
            return Err(invalid_argument(msg));
        },
    };
    if let Some(v) = version {
        if !(1 <= v && v <= 5) {
            msg.append("version=");
            push_count(&mut msg, v as u64);
            msg.append(" is not valid; use a version between 1 and 5, or None");
            assert(msg@ =~= "version="@ + decimal(v as int)
                + " is not valid; use a version between 1 and 5, or None"@);
            return Err(invalid_argument(msg));
        }
        if nil {
            msg.append("The nil UUID is not of any version, so you must use version=None");
            assert(msg@ =~= "The nil UUID is not of any version, so you must use version=None"@);
            return Err(invalid_argument(msg));
        }
    }
    Ok(StrategyNode::Uuids { version, allow_nil: nil })
}

/// Complex numbers.
pub fn complex_numbers(allow_nan: Option<bool>) -> (r: StrategyNode)
    ensures
        r == (StrategyNode::ComplexNumbers { allow_nan: allow_nan != Some(false) }),
{
    StrategyNode::ComplexNumbers {
        allow_nan: match allow_nan {
            Some(b) => b,
            None => true,
        },
    }
}

/// An argument for a network.
#[derive(Debug)]
pub enum NetworkArg {
    Absent,
    /// The version of its addresses, how it is shown, and its first and last address.
    Known { version: u8, shown: String, first: Int, last: Int },
    /// Something that is no network, as it is shown.
    Unknown(String),
}

/// What is wrong with the arguments of addresses.
pub open spec fn addresses_mistake(v: SizeArg, network: NetworkArg) -> Option<Seq<char>> {
    if v is Other {
        Some("v="@ + v->Other_0@ + ", but only v=4 or v=6 are valid."@)
    } else if v is Number && v->Number_0 != 4 && v->Number_0 != 6 {
        Some("v="@ + decimal(v->Number_0 as int) + ", but only v=4 or v=6 are valid."@)
    } else {
        match network {
            NetworkArg::Unknown(shown) => Some(
                "network="@ + shown@ + " is not a valid IP network."@,
            ),
            NetworkArg::Known { version, shown, .. } => if v is Number && v->Number_0 != version {
                Some("v="@ + decimal(v->Number_0 as int) + " is incompatible with network="@ + shown@)
            } else {
                None
            },
            NetworkArg::Absent => None,
        }
    }
}

/// Addresses, all or those of a network.
pub fn ip_addresses(v: &SizeArg, network: NetworkArg) -> (r: Result<StrategyNode, ArgumentError>)
    ensures
        r is Ok <==> addresses_mistake(*v, network) is None,
        r is Err ==> invalid(r->Err_0, addresses_mistake(*v, network)->0),
        r is Ok ==> r->Ok_0 == (StrategyNode::IpAddresses {
            v6: match network {
                NetworkArg::Known { version, .. } => Some(version == 6),
                _ => match *v {
                    SizeArg::Number(n) => Some(n == 6),
                    _ => None,
                },
            },
            net_range: match network {
                NetworkArg::Known { first, last, .. } => Some((first, last)),
                _ => None,
            },
        }),
{
    let mut msg = String::new();
    let wanted: Option<i64> = match v {
        SizeArg::Absent => None,
        SizeArg::Number(n) => {
            if *n != 4 && *n != 6 {
                msg.append("v=");
                push_number(&mut msg, &Int::of(*n));
                msg.append(", but only v=4 or v=6 are valid.");
                assert(msg@ =~= "v="@ + decimal(*n as int) + ", but only v=4 or v=6 are valid."@);
                return Err(invalid_argument(msg));
            }
            Some(*n)
        },
        SizeArg::Other(shown) => {
            msg.append("v=");
            msg.append(shown.as_str());
            msg.append(", but only v=4 or v=6 are valid.");
            assert(msg@ =~= "v="@ + shown@ + ", but only v=4 or v=6 are valid."@);
            return Err(invalid_argument(msg));
        },
    };
    match network {
        NetworkArg::Unknown(shown) => {
            msg.append("network=");
            msg.append(shown.as_str());
            msg.append(" is not a valid IP network.");
            assert(msg@ =~= "network="@ + shown@ + " is not a valid IP network."@);
            Err(invalid_argument(msg))
        },
        NetworkArg::Known { version, shown, first, last } => {
            if let Some(n) = wanted {
                if n != version as i64 {
                    msg.append("v=");
                    push_number(&mut msg, &Int::of(n));
                    msg.append(" is incompatible with network=");
                    msg.append(shown.as_str());
                    assert(msg@ =~= "v="@ + decimal(n as int) + " is incompatible with network="@
                        + shown@);
                    return Err(invalid_argument(msg));
                }
            }
            Ok(StrategyNode::IpAddresses { v6: Some(version == 6), net_range: Some((first, last)) })
        },
        NetworkArg::Absent => Ok(
            StrategyNode::IpAddresses {
                v6: match wanted {
                    Some(n) => Some(n == 6),
                    None => None,
                },
                net_range: None,
            },
        ),
    }
}

// ---- moments ----------------------------------------------------------------

/// The classes of moments and spans of time.
#[derive(Clone, Copy, Debug, PartialEq, Eq, Structural)]
pub enum DtClass {
    Date,
    Time,
    Datetime,
    Timedelta,
}

impl DtClass {
    pub open spec fn shown(self) -> Seq<char> {
        match self {
            DtClass::Date => "date"@,
            DtClass::Time => "time"@,
            DtClass::Datetime => "datetime"@,
            DtClass::Timedelta => "timedelta"@,
        }
    }

    pub fn name(self) -> (r: &'static str)
        ensures
            r@ == self.shown(),
    {
        match self {
            DtClass::Date => "date",
            DtClass::Time => "time",
            DtClass::Datetime => "datetime",
            DtClass::Timedelta => "timedelta",
        }
    }
}

/// A bound for moments or spans of time.
#[derive(Debug)]
pub struct Moment {
    /// The object itself.
    pub object: Atom,
    pub shown: String,
    /// It is of the class that is asked for.
    pub proper: bool,
    /// A number that orders it among the others of its class.
    pub key: Int,
    /// The day, or for a time the microseconds since midnight.
    pub part: i64,
}

/// How many days a span of time can have.
pub const MAX_DAYS: i64 = 999_999_999;

/// The key of the first or the last of a class: the day of a date, the microseconds of a
/// time or of a span, and the microseconds since the day zero of a moment.
pub open spec fn end_of(class: DtClass, last: bool) -> int {
    match class {
        DtClass::Date => if last {
            MAX_ORDINAL as int
        } else {
            1
        },
        DtClass::Time => if last {
            US_PER_DAY - 1
        } else {
            0
        },
        DtClass::Datetime => if last {
            (MAX_ORDINAL + 1) * US_PER_DAY - 1
        } else {
            US_PER_DAY as int
        },
        DtClass::Timedelta => if last {
            (MAX_DAYS + 1) * US_PER_DAY - 1
        } else {
            -MAX_DAYS * US_PER_DAY
        },
    }
}

/// The first or the last of a class.
pub fn dt_attr(class: DtClass, last: bool) -> (r: Int)
    ensures
        r@ == end_of(class, last),
{
    let day = Int::of(US_PER_DAY);
    match class {
        DtClass::Date => if last {
            Int::of(MAX_ORDINAL)
        } else {
            Int::of(1)
        },
        DtClass::Time => if last {
            Int::of(US_PER_DAY - 1)
        } else {
            Int::of(0)
        },
        DtClass::Datetime => if last {
            Int::of(MAX_ORDINAL + 1).times(&day).minus(&Int::of(1))
        } else {
            day
        },
        DtClass::Timedelta => if last {
            Int::of(MAX_DAYS + 1).times(&day).minus(&Int::of(1))
        } else {
            Int::of(-MAX_DAYS).times(&day)
        },
    }
}

/// The part of the first or the last of a class.
pub open spec fn end_part(class: DtClass, last: bool) -> i64 {
    match class {
        DtClass::Time => if last {
            (US_PER_DAY - 1) as i64
        } else {
            0
        },
        _ => if last {
            MAX_ORDINAL
        } else {
            1
        },
    }
}

/// What is said of a bound of another class.
pub open spec fn class_text(name: Seq<char>, class: DtClass, shown: Seq<char>) -> Seq<char> {
    "Expected "@ + name + " to be a datetime."@ + class.shown() + ", but got "@ + shown
}

/// Refuses a bound of another class.
pub fn check_dt_type(v: &Moment, class: DtClass, arg_name: &str) -> (r: Result<(), ArgumentError>)
    ensures
        r is Ok <==> v.proper,
        r is Err ==> invalid(r->Err_0, class_text(arg_name@, class, v.shown@)),
{
    if v.proper {
        return Ok(());
    }
    let mut msg = String::new();
    msg.append("Expected ");
    msg.append(arg_name);
    msg.append(" to be a datetime.");
    msg.append(class.name());
    msg.append(", but got ");
    msg.append(v.shown.as_str());
    assert(msg@ =~= class_text(arg_name@, class, v.shown@));
    Err(invalid_argument(msg))
}

/// The bounds of moments; where none is given, the first or the last of the class, which
/// the host keeps.
#[derive(Debug)]
pub struct Span {
    pub min: Option<Moment>,
    pub max: Option<Moment>,
    pub first: Atom,
    pub last: Atom,
}

impl Span {
    pub open spec fn low(self, class: DtClass) -> int {
        match self.min {
            Some(m) => m.key@,
            None => end_of(class, false),
        }
    }

    pub open spec fn high(self, class: DtClass) -> int {
        match self.max {
            Some(m) => m.key@,
            None => end_of(class, true),
        }
    }

    pub open spec fn low_part(self, class: DtClass) -> i64 {
        match self.min {
            Some(m) => m.part,
            None => end_part(class, false),
        }
    }

    pub open spec fn high_part(self, class: DtClass) -> i64 {
        match self.max {
            Some(m) => m.part,
            None => end_part(class, true),
        }
    }

    pub open spec fn low_object(self) -> Atom {
        match self.min {
            Some(m) => m.object,
            None => self.first,
        }
    }
}

/// How a bound is shown; one that is not given is shown by its class.
pub open spec fn bound_text(m: Option<Moment>, class: DtClass, last: bool) -> Seq<char> {
    match m {
        Some(m) => m.shown@,
        None => "datetime."@ + class.shown() + (if last {
            ".max"@
        } else {
            ".min"@
        }),
    }
}

/// What is wrong with the bounds of moments.
pub open spec fn span_mistake(s: Span, class: DtClass) -> Option<Seq<char>> {
    if s.min is Some && !s.min->0.proper {
        Some(class_text("min_value"@, class, s.min->0.shown@))
    } else if s.max is Some && !s.max->0.proper {
        Some(class_text("max_value"@, class, s.max->0.shown@))
    } else if s.high(class) < s.low(class) {
        Some(
            "Cannot have max_value="@ + bound_text(s.max, class, true) + " < min_value="@
                + bound_text(s.min, class, false),
        )
    } else {
        None
    }
}

fn push_bound(out: &mut String, m: &Option<Moment>, class: DtClass, last: bool)
    ensures
        final(out)@ == old(out)@ + bound_text(*m, class, last),
{
    match m {
        Some(m) => out.append(m.shown.as_str()),
        None => {
            out.append("datetime.");
            out.append(class.name());
            if last {
                out.append(".max");
            } else {
                out.append(".min");
            }
            assert(out@ =~= old(out)@ + bound_text(None, class, last));
        },
    }
}

/// Checks the bounds of moments and gives them back, as keys and as parts.
fn read_span(s: &Span, class: DtClass) -> (r: Result<(Int, Int, i64, i64), ArgumentError>)
    ensures
        r is Ok <==> span_mistake(*s, class) is None,
        r is Err ==> invalid(r->Err_0, span_mistake(*s, class)->0),
        r is Ok ==> r->Ok_0.0@ == s.low(class) && r->Ok_0.1@ == s.high(class) && r->Ok_0.2
            == s.low_part(class) && r->Ok_0.3 == s.high_part(class),
{
    if let Some(m) = &s.min {
        match check_dt_type(m, class, "min_value") {
            Ok(_) => {},
            Err(e) => {
                return Err(e);
            },
        }
    }
    if let Some(m) = &s.max {
        match check_dt_type(m, class, "max_value") {
            Ok(_) => {},
            Err(e) => {
                return Err(e);
            },
        }
    }
    let (low, low_part) = match &s.min {
        Some(m) => (m.key.clone(), m.part),
        None => (
            dt_attr(class, false),
            match class {
                DtClass::Time => 0,
                _ => 1,
            },
        ),
    };
    let (high, high_part) = match &s.max {
        Some(m) => (m.key.clone(), m.part),
        None => (
            dt_attr(class, true),
            match class {
                DtClass::Time => US_PER_DAY - 1,
                _ => MAX_ORDINAL,
            },
        ),
    };
    if high.less(&low) {
        let mut msg = String::new();
        msg.append("Cannot have max_value=");
        push_bound(&mut msg, &s.max, class, true);
        msg.append(" < min_value=");
        push_bound(&mut msg, &s.min, class, false);
        assert(msg@ =~= "Cannot have max_value="@ + bound_text(s.max, class, true)
            + " < min_value="@ + bound_text(s.min, class, false));
        return Err(invalid_argument(msg));
    }
    Ok((low, high, low_part, high_part))
}

fn low_object_of(s: &Span) -> (r: Atom)
    ensures
        r == s.low_object(),
{
    match &s.min {
        Some(m) => m.object,
        None => s.first,
    }
}

/// Days between two bounds.
pub fn dates(s: &Span) -> (r: Result<StrategyNode, ArgumentError>)
    ensures
        r is Ok <==> span_mistake(*s, DtClass::Date) is None,
        r is Err ==> invalid(r->Err_0, span_mistake(*s, DtClass::Date)->0),
        r is Ok ==> r->Ok_0 == (if s.low(DtClass::Date) == s.high(DtClass::Date) {
            StrategyNode::Just(s.low_object())
        } else {
            StrategyNode::Dates {
                min_ord: s.low_part(DtClass::Date),
                max_ord: s.high_part(DtClass::Date),
            }
        }),
{
    match read_span(s, DtClass::Date) {
        Ok((low, high, min_ord, max_ord)) => if low.same(&high) {
            Ok(StrategyNode::Just(low_object_of(s)))
        } else {
            Ok(StrategyNode::Dates { min_ord, max_ord })
        },
        Err(e) => Err(e),
    }
}

/// Times between two bounds.
pub fn times(s: &Span) -> (r: Result<StrategyNode, ArgumentError>)
    ensures
        r is Ok <==> span_mistake(*s, DtClass::Time) is None,
        r is Err ==> invalid(r->Err_0, span_mistake(*s, DtClass::Time)->0),
        r is Ok ==> r->Ok_0 == (if s.low(DtClass::Time) == s.high(DtClass::Time) {
            StrategyNode::Just(s.low_object())
        } else {
            StrategyNode::Times {
                min_us: s.low_part(DtClass::Time),
                max_us: s.high_part(DtClass::Time),
            }
        }),
{
    match read_span(s, DtClass::Time) {
        Ok((low, high, min_us, max_us)) => if low.same(&high) {
            Ok(StrategyNode::Just(low_object_of(s)))
        } else {
            Ok(StrategyNode::Times { min_us, max_us })
        },
        Err(e) => Err(e),
    }
}

/// Moments on the days between two bounds.
pub fn datetimes(s: &Span, allow_imaginary: &FlagArg) -> (r: Result<StrategyNode, ArgumentError>)
    ensures
        r is Ok <==> !(*allow_imaginary is Other) && span_mistake(*s, DtClass::Datetime) is None,
        *allow_imaginary is Other ==> r is Err && invalid(
            r->Err_0,
            "Expected "@ + "allow_imaginary"@ + " to be a bool, but got "@
                + allow_imaginary->Other_0@,
        ),
        !(*allow_imaginary is Other) && r is Err ==> invalid(
            r->Err_0,
            span_mistake(*s, DtClass::Datetime)->0,
        ),
        r is Ok ==> r->Ok_0 == (if s.low(DtClass::Datetime) == s.high(DtClass::Datetime) {
            StrategyNode::Just(s.low_object())
        } else {
            StrategyNode::Datetimes {
                min_ord: s.low_part(DtClass::Datetime),
                max_ord: s.high_part(DtClass::Datetime),
            }
        }),
{
    match check_bool_flag(allow_imaginary, true, "allow_imaginary") {
        Ok(_) => {},
        Err(e) => {
            return Err(e);
        },
    }
    match read_span(s, DtClass::Datetime) {
        Ok((low, high, min_ord, max_ord)) => if low.same(&high) {
            Ok(StrategyNode::Just(low_object_of(s)))
        } else {
            Ok(StrategyNode::Datetimes { min_ord, max_ord })
        },
        Err(e) => Err(e),
    }
}

/// Spans of time between two bounds.
pub fn timedeltas(s: &Span) -> (r: Result<StrategyNode, ArgumentError>)
    ensures
        r is Ok <==> span_mistake(*s, DtClass::Timedelta) is None,
        r is Err ==> invalid(r->Err_0, span_mistake(*s, DtClass::Timedelta)->0),
        r is Ok && s.low(DtClass::Timedelta) == s.high(DtClass::Timedelta) ==> r->Ok_0
            == StrategyNode::Just(s.low_object()),
        r is Ok && s.low(DtClass::Timedelta) != s.high(DtClass::Timedelta) ==> {
            &&& r->Ok_0 is Timedeltas
            &&& r->Ok_0->Timedeltas_min_us@ == s.low(DtClass::Timedelta)
            &&& r->Ok_0->Timedeltas_max_us@ == s.high(DtClass::Timedelta)
        },
        r is Ok ==> r->Ok_0.ok(),
{
    match read_span(s, DtClass::Timedelta) {
        Ok((low, high, _, _)) => if low.same(&high) {
            Ok(StrategyNode::Just(low_object_of(s)))
        } else {
            Ok(StrategyNode::Timedeltas { min_us: low, max_us: high })
        },
        Err(e) => Err(e),
    }
}

// ---- strategies inside strategies -------------------------------------------

/// How deep a recursive strategy goes: so often can its leaves double before there are
/// as many as wanted.
pub open spec fn is_depth(d: int, max_leaves: u64) -> bool {
    &&& d >= 1
    &&& pow2(d as nat) >= max_leaves
    &&& d > 1 ==> pow2((d - 1) as nat) < max_leaves
}

/// How deep a recursive strategy goes.
pub fn recursion_depth(max_leaves: u64) -> (d: u64)
    ensures
        is_depth(d as int, max_leaves),
        d <= 64,
{
    let mut d: u64 = 1;
    let mut leaves: u128 = 2;
    proof {
        lemma2_to64();
    }
    while leaves < max_leaves as u128
        invariant
            1 <= d <= 64,
            leaves == pow2(d as nat),
            d > 1 ==> pow2((d - 1) as nat) < max_leaves,
            max_leaves as int <= 0xFFFF_FFFF_FFFF_FFFF,
            pow2(64) == 0x1_0000_0000_0000_0000,
        decreases 64 - d,
    {
        proof {
            if d == 64 {
                assert(leaves > max_leaves);
            }
            lemma_pow2_unfold((d + 1) as nat);
            assert(pow2((d + 1) as nat) == 2 * pow2(d as nat));
        }
        leaves = leaves * 2;
        d = d + 1;
    }
    d
}

/// One layer of a recursive strategy: the leaves, or what they are extended to.
pub fn recursive_layer(base: StrategyNode, extended: StrategyNode) -> (r: StrategyNode)
    ensures
        r is OneOf,
        r->OneOf_0@ == seq![base, extended],
{
    let mut children: Vec<StrategyNode> = Vec::new();
    children.push(base);
    children.push(extended);
    assert(children@ =~= seq![base, extended]);
    StrategyNode::OneOf(children)
}

} // verus!
