//! Which arguments are accepted, and which are refused.
use crate::alphabet::{is_address_text, text_has};
use crate::arguments::{sample_mistake, Sample, SizeArg};
use crate::charset::codepoint_mistake;
use crate::combine::{branches, method_named, regex_plan, RegexPlan};
use crate::drawing::{conforms, is_sample, Value};
use crate::constructors::{
    addresses_mistake, is_depth, mappings_fault, optional_fault, required_fault, span_mistake, uuids_mistake,
    DtClass, FlagArg, MappingArg, MappingEntry, NetworkArg, Span,
};
use crate::nodes::{first_mistake, first_of, first_of_items, Names};
use crate::scalars::{
    denominator_of, end_point_mistake, fraction_bound, fractions_mistake, sampled_strategy,
    DenominatorArg, EndPoint, FractionArg, SampleSource,
};
use crate::strategy::{FixedItem, StrategyNode};
use vstd::prelude::*;

verus! {

/// An end point is accepted exactly where it equals itself and is an integer.
pub proof fn end_points_are_integers(v: EndPoint, name: Seq<char>)
    ensures
        end_point_mistake(v, name) is None <==> v.itself && v.exact && v.truncated is Some,
{
}

/// Bounds of moments are accepted exactly where they are of their class and the lower one is not
/// after the upper one; without one, the class's own end stands in its place.
pub proof fn moments_are_in_order(s: Span, class: DtClass)
    ensures
        span_mistake(s, class) is None <==> {
            &&& s.min is Some ==> s.min->0.proper
            &&& s.max is Some ==> s.max->0.proper
            &&& s.min is Some && s.max is Some ==> s.min->0.key@ <= s.max->0.key@
            &&& s.min is Some && s.max is None ==> match class {
                DtClass::Date => s.min->0.key@ <= 3_652_059,
                DtClass::Time => s.min->0.key@ < 86_400_000_000,
                DtClass::Datetime => s.min->0.key@ < 3_652_060 * 86_400_000_000,
                DtClass::Timedelta => s.min->0.key@ < 1_000_000_000 * 86_400_000_000,
            }
            &&& s.min is None && s.max is Some ==> match class {
                DtClass::Date => s.max->0.key@ >= 1,
                DtClass::Time => s.max->0.key@ >= 0,
                DtClass::Datetime => s.max->0.key@ >= 86_400_000_000,
                DtClass::Timedelta => s.max->0.key@ >= -999_999_999 * 86_400_000_000,
            }
        },
{
}

/// Fractions are accepted exactly where the largest denominator is positive, neither bound needs a
/// larger one, and the lower bound is not above the upper one. A denominator that is not given is
/// 65536, and does not limit the bounds.
pub proof fn fractions_have_room(min: FractionArg, max: FractionArg, d: DenominatorArg)
    ensures
        fractions_mistake(min, max, d) is None <==> {
            &&& !(d is Other) && !(min is Other) && !(max is Other)
            &&& d is Number ==> d->Number_0 >= 1
            &&& d is Number && min is Value ==> min->ratio.den@ <= d->Number_0
            &&& d is Number && max is Value ==> max->ratio.den@ <= d->Number_0
            &&& min is Value && max is Value ==> min->ratio.num@ * max->ratio.den@
                <= max->ratio.num@ * min->ratio.den@
        },
        d is Number ==> denominator_of(d) == d->Number_0,
        d is Absent ==> denominator_of(d) == 65536,
        min is Value ==> fraction_bound(min) == Some(min->ratio),
        min is Absent ==> fraction_bound(min) is None,
{
}

/// Addresses are of version 4 or 6, and of the version of their network.
pub proof fn addresses_have_a_version(v: SizeArg, network: NetworkArg)
    ensures
        addresses_mistake(v, network) is None <==> {
            &&& !(v is Other) && !(network is Unknown)
            &&& v is Number ==> v->Number_0 == 4 || v->Number_0 == 6
            &&& v is Number && network is Known ==> v->Number_0 == network->version
        },
{
}

/// Identifiers are of versions 1 to 5, or of none; the empty one is of none.
pub proof fn identifiers_have_a_version(version: Option<u8>, allow_nil: FlagArg)
    ensures
        uuids_mistake(version, allow_nil) is None <==> {
            &&& !(allow_nil is Other)
            &&& version is Some ==> 0 < version->0 < 6 && allow_nil != FlagArg::Flag(true)
        },
{
}

proof fn lemma_required(entries: Seq<MappingEntry>, k: int)
    requires
        0 <= k <= entries.len(),
    ensures
        required_fault(entries, k) is None <==> (forall|i: int|
            k <= i < entries.len() ==> (#[trigger] entries[i]).value is Strategy),
    decreases entries.len() - k,
{
    if k < entries.len() {
        lemma_required(entries, k + 1);
    }
}

proof fn lemma_optional(entries: Seq<MappingEntry>, k: int)
    requires
        0 <= k <= entries.len(),
    ensures
        optional_fault(entries, k) is None <==> (forall|i: int|
            k <= i < entries.len() ==> (#[trigger] entries[i]).value is Strategy
                && !entries[i].in_other),
    decreases entries.len() - k,
{
    if k < entries.len() {
        lemma_optional(entries, k + 1);
    }
}

/// Mappings are accepted exactly where they are dicts of one type whose values are strategies, and
/// no key is in both.
pub proof fn mappings_map_keys_to_strategies(
    mapping: MappingArg,
    optional: Option<MappingArg>,
    same_type: bool,
)
    ensures
        mappings_fault(mapping, optional, same_type) is None <==> {
            &&& mapping.is_dict
            &&& forall|i: int|
                0 <= i < mapping.entries@.len() ==> (#[trigger] mapping.entries@[i]).value
                    is Strategy
            &&& optional is Some ==> optional->0.is_dict && same_type && (forall|i: int|
                0 <= i < optional->0.entries@.len() ==> (#[trigger] optional->0.entries@[i]).value
                    is Strategy && !optional->0.entries@[i].in_other)
        },
{
    lemma_required(mapping.entries@, 0);
    if optional is Some {
        lemma_optional(optional->0.entries@, 0);
    }
}

// ---- mistakes inside strategies ---------------------------------------------

/// `m` is what the first of the strategies says that is a mistake, if one is.
pub open spec fn first_says(
    s: Seq<StrategyNode>,
    names: Names,
    m: Option<(Seq<char>, bool)>,
) -> bool {
    match m {
        None => forall|i: int| 0 <= i < s.len() ==> first_mistake(#[trigger] s[i], names) is None,
        Some(_) => exists|i: int|
            {
                &&& 0 <= i < s.len()
                &&& first_mistake(#[trigger] s[i], names) == m
                &&& forall|j: int| 0 <= j < i ==> first_mistake(#[trigger] s[j], names) is None
            },
    }
}

proof fn lemma_first_of(s: Seq<StrategyNode>, names: Names, n: nat)
    requires
        n <= s.len(),
    ensures
        first_says(s.take(n as int), names, first_of(s, names, n)),
    decreases n,
{
    if n > 0 {
        let shorter = s.take(n - 1);
        let longer = s.take(n as int);
        lemma_first_of(s, names, (n - 1) as nat);
        let m = first_of(s, names, (n - 1) as nat);
        assert forall|j: int| 0 <= j < n - 1 implies #[trigger] longer[j] == shorter[j] by {}
        assert(longer[n - 1] == s[n - 1]);
        if m is Some {
            let i = choose|i: int|
                {
                    &&& 0 <= i < shorter.len()
                    &&& first_mistake(#[trigger] shorter[i], names) == m
                    &&& forall|j: int|
                        0 <= j < i ==> first_mistake(#[trigger] shorter[j], names) is None
                };
            assert(first_mistake(longer[i], names) == m);
            assert forall|j: int| 0 <= j < i implies first_mistake(
                #[trigger] longer[j],
                names,
            ) is None by {
                assert(longer[j] == shorter[j]);
            }
        } else {
            assert forall|j: int| 0 <= j < n - 1 implies first_mistake(
                #[trigger] longer[j],
                names,
            ) is None by {
                assert(longer[j] == shorter[j]);
            }
            assert(first_of(s, names, n) == first_mistake(longer[n - 1], names));
        }
    }
}

/// The values of items.
pub open spec fn item_values(s: Seq<FixedItem>) -> Seq<StrategyNode> {
    Seq::new(s.len(), |i: int| s[i].value)
}

proof fn lemma_first_of_items(s: Seq<FixedItem>, names: Names, n: nat)
    requires
        n <= s.len(),
    ensures
        first_of_items(s, names, n) == first_of(item_values(s), names, n),
    decreases n,
{
    if n > 0 {
        lemma_first_of_items(s, names, (n - 1) as nat);
        assert(item_values(s)[n - 1] == s[n - 1].value);
    }
}

/// A mistake is found wherever it stands in a strategy: in what is mapped, filtered or repeated,
/// in keys before values, and in the first part that has one.
pub proof fn mistakes_are_found(node: StrategyNode, names: Names)
    ensures
        match node {
            StrategyNode::Invalid { msg, resolution_failed } => first_mistake(node, names) == Some(
                (msg@, resolution_failed),
            ),
            StrategyNode::Mapped { base, .. } => first_says(
                seq![*base],
                names,
                first_mistake(node, names),
            ),
            StrategyNode::Filtered { base, .. } => first_says(
                seq![*base],
                names,
                first_mistake(node, names),
            ),
            StrategyNode::Flatmapped { base, .. } => first_says(
                seq![*base],
                names,
                first_mistake(node, names),
            ),
            StrategyNode::Lists { elem, .. } => first_says(
                seq![*elem],
                names,
                first_mistake(node, names),
            ),
            StrategyNode::Sets { elem, .. } => first_says(
                seq![*elem],
                names,
                first_mistake(node, names),
            ),
            StrategyNode::Dictionaries { keys, values, .. } => first_says(
                seq![*keys, *values],
                names,
                first_mistake(node, names),
            ),
            StrategyNode::Tuples(children) => first_says(
                children@,
                names,
                first_mistake(node, names),
            ),
            StrategyNode::OneOf(children) => first_says(
                children@,
                names,
                first_mistake(node, names),
            ),
            StrategyNode::FixedDict { items } => first_says(
                item_values(items@),
                names,
                first_mistake(node, names),
            ),
            StrategyNode::Integers { .. } | StrategyNode::Booleans | StrategyNode::Text {
                ..
            } | StrategyNode::Just(_) => first_mistake(node, names) is None,
            _ => true,
        },
{
    match node {
        StrategyNode::Mapped { base, .. } => {
            lemma_alone(*base, names);
        },
        StrategyNode::Filtered { base, .. } => {
            lemma_alone(*base, names);
        },
        StrategyNode::Flatmapped { base, .. } => {
            lemma_alone(*base, names);
        },
        StrategyNode::Lists { elem, .. } => {
            lemma_alone(*elem, names);
        },
        StrategyNode::Sets { elem, .. } => {
            lemma_alone(*elem, names);
        },
        StrategyNode::Dictionaries { keys, values, .. } => {
            let s = seq![*keys, *values];
            assert(first_mistake(s[0], names) is Some ==> first_mistake(node, names)
                == first_mistake(s[0], names));
            assert(first_mistake(s[0], names) is None ==> first_mistake(node, names)
                == first_mistake(s[1], names));
        },
        StrategyNode::Tuples(children) => {
            lemma_first_of(children@, names, children@.len());
            assert(children@.take(children@.len() as int) =~= children@);
        },
        StrategyNode::OneOf(children) => {
            lemma_first_of(children@, names, children@.len());
            assert(children@.take(children@.len() as int) =~= children@);
        },
        StrategyNode::FixedDict { items } => {
            let s = item_values(items@);
            lemma_first_of_items(items@, names, items@.len());
            lemma_first_of(s, names, s.len());
            assert(s.take(s.len() as int) =~= s);
        },
        _ => {},
    }
}

proof fn lemma_alone(base: StrategyNode, names: Names)
    ensures
        first_says(seq![base], names, first_mistake(base, names)),
{
    let s = seq![base];
    assert(first_mistake(s[0], names) == first_mistake(base, names));
}

// ---- samples, choices and patterns ------------------------------------------

/// Samples are taken from what has an order, and from arrays of one dimension; bounds of codepoints
/// are numbers that are not negative.
pub proof fn samples_have_an_order(sample: Sample, v: SizeArg, shown: Seq<char>, name: Seq<char>)
    ensures
        sample_mistake(sample, shown, name) is None <==> sample == Sample::Ordered || sample
            == Sample::Array(1),
        codepoint_mistake(v, name) is None <==> v is Absent || (v is Number && v->Number_0 >= 0),
{
}

/// What is sampled is one of the elements, and each of them comes up; of a range, each of its
/// numbers.
pub proof fn samples_are_of_the_source(r: StrategyNode, s: SampleSource, v: Value)
    requires
        sampled_strategy(r, s),
    ensures
        s.range is None && s.elements@.len() > 0 ==> (conforms(r, v) <==> exists|i: int|
            0 <= i < s.elements@.len() && v == Value::Atom(#[trigger] s.elements@[i])),
        s.range is Some ==> (conforms(r, v) <==> v is Int && exists|k: int|
            0 <= k < (s.range->0).3@ && v->Int_0@ == (s.range->0).0@ + #[trigger] (k
                * (s.range->0).2@)),
        s.range is None && s.elements@.len() == 0 && s.zero_flag is Some ==> (conforms(r, v) <==> v
            == Value::Atom(s.zero_flag->0)),
{
    if s.range is Some {
        let (start, stop, step, len) = s.range->0;
        if conforms(r, v) {
            let k = choose|k: int| is_sample(r, k, v);
            assert(v->Int_0@ == start@ + k * step@);
        }
        if v is Int && exists|k: int|
            0 <= k < len@ && v->Int_0@ == start@ + #[trigger] (k * step@) {
            let k = choose|k: int| 0 <= k < len@ && v->Int_0@ == start@ + #[trigger] (k * step@);
            assert(is_sample(r, k, v));
        }
    } else if s.elements@.len() > 0 {
        if conforms(r, v) {
            let k = choose|k: int| is_sample(r, k, v);
            assert(v == Value::Atom(s.elements@[k]));
        }
        if exists|i: int|
            0 <= i < s.elements@.len() && v == Value::Atom(#[trigger] s.elements@[i]) {
            let k = choose|i: int|
                0 <= i < s.elements@.len() && v == Value::Atom(#[trigger] s.elements@[i]);
            assert(is_sample(r, k, v));
        }
    } else if s.zero_flag is Some {
        if conforms(r, v) {
            let k = choose|k: int| is_sample(r, k, v);
            assert(r->elements@[k] == s.zero_flag->0);
        }
        if v == Value::Atom(s.zero_flag->0) {
            assert(r->elements@[0] == s.zero_flag->0);
            assert(is_sample(r, 0, v));
        }
    }
}

/// A choice among two strategies has the values of both, and no others.
pub proof fn choices_have_the_values_of_both(
    r: StrategyNode,
    a: StrategyNode,
    b: StrategyNode,
    v: Value,
)
    requires
        r is OneOf,
        r->OneOf_0@ == branches(a) + branches(b),
    ensures
        conforms(r, v) <==> conforms(a, v) || conforms(b, v),
{
    let s = branches(r);
    let left = branches(a);
    let right = branches(b);
    lemma_branches(a, v);
    lemma_branches(b, v);
    lemma_branches(r, v);
    if exists|i: int| 0 <= i < s.len() && conforms(#[trigger] s[i], v) {
        let i = choose|i: int| 0 <= i < s.len() && conforms(#[trigger] s[i], v);
        if i < left.len() {
            assert(conforms(left[i], v));
        } else {
            assert(conforms(right[i - left.len()], v));
        }
    }
    if conforms(a, v) {
        let i = choose|i: int| 0 <= i < left.len() && conforms(#[trigger] left[i], v);
        assert(conforms(s[i], v));
    }
    if conforms(b, v) {
        let i = choose|i: int| 0 <= i < right.len() && conforms(#[trigger] right[i], v);
        assert(conforms(s[left.len() + i], v));
    }
}

proof fn lemma_branches(a: StrategyNode, v: Value)
    ensures
        conforms(a, v) <==> exists|i: int|
            0 <= i < branches(a).len() && conforms(#[trigger] branches(a)[i], v),
{
    match a {
        StrategyNode::OneOf(children) => {
            let s = children@;
            if conforms(a, v) {
                let i = choose|i: int|
                    0 <= i < children@.len() && conforms(#[trigger] children@[i], v);
                assert(conforms(branches(a)[i], v));
            }
            if exists|i: int| 0 <= i < s.len() && conforms(#[trigger] branches(a)[i], v) {
                let i = choose|i: int| 0 <= i < s.len() && conforms(#[trigger] branches(a)[i], v);
                assert(conforms(children@[i], v));
            }
        },
        _ => {
            assert(branches(a)[0] == a);
        },
    }
}

/// The names in addresses of mail have one to ten characters, each a small letter or a digit.
pub proof fn names_in_addresses_are_plain(r: StrategyNode, v: Value, i: int)
    requires
        is_address_text(r),
        conforms(r, v),
        0 <= i < v->Text_0@.len(),
    ensures
        v is Text && 1 <= v->Text_0@.len() <= 10,
        ('a' as u32) <= v->Text_0@[i] <= ('z' as u32) || ('0' as u32) <= v->Text_0@[i] <= (
        '9' as u32),
{
    reveal_strlit("abcdefghijklmnopqrstuvwxyz0123456789");
    let x = v->Text_0@[i] as int;
    assert(r->Text_alphabet.members().has(x));
    assert(text_has("abcdefghijklmnopqrstuvwxyz0123456789"@, x));
}

/// A recursive strategy of depth `d` can have as many leaves as wanted, and one less deep could not.
pub proof fn recursion_goes_as_deep_as_needed(d: int, max_leaves: u64)
    requires
        is_depth(d, max_leaves),
    ensures
        1 <= d,
        max_leaves <= vstd::arithmetic::power2::pow2(d as nat),
        max_leaves <= 2 ==> d == 1,
        max_leaves > 2 ==> vstd::arithmetic::power2::pow2(d as nat) < 2 * max_leaves,
{
    vstd::arithmetic::power2::lemma2_to64();
    if d > 1 {
        vstd::arithmetic::power2::lemma_pow2_unfold(d as nat);
        if d > 2 {
            vstd::arithmetic::power2::lemma_pow2_strictly_increases(1, (d - 1) as nat);
        }
    }
}

/// Strings under `match` begin with the pattern, those under `fullmatch` are all of it; the other
/// methods search for it. The lengths stay those of the strategy. Methods that let nearly all
/// strings through are warned about, and of other methods nothing is understood.
pub proof fn patterns_are_matched_as_named(
    r: RegexPlan,
    name: Seq<char>,
    pattern: Seq<char>,
    pretty: Seq<char>,
    min: u64,
    max: u64,
)
    requires
        regex_plan(r, method_named(name), pattern, pretty, min, max),
    ensures
        name == "match"@ ==> r is Generate && r->pattern@ == "^(?:"@ + pattern + ")"@
            && !r->fullmatch,
        name == "search"@ || name == "findall"@ ==> r is Generate && r->pattern@ == pattern
            && !r->fullmatch,
        name == "fullmatch"@ ==> r is Generate && r->pattern@ == pattern && r->fullmatch,
        name == "split"@ ==> r is Warn && r->nonempty,
        name == "finditer"@ || name == "scanner"@ ==> r is Warn && !r->nonempty,
        name == "sub"@ ==> r is NotUnderstood,
        r is Generate ==> {
            &&& min > 0 ==> r->min_len == Some(min)
            &&& min == 0 ==> r->min_len is None
            &&& max < 10_000_000_000 ==> r->max_len == Some(max)
            &&& max >= 10_000_000_000 ==> r->max_len is None
        },
{
    reveal_strlit("search");
    reveal_strlit("match");
    reveal_strlit("findall");
    reveal_strlit("fullmatch");
    reveal_strlit("finditer");
    reveal_strlit("scanner");
    reveal_strlit("split");
    reveal_strlit("sub");
    assert("search"@.len() == 6 && "search"@[0] == 's' && "search"@[1] == 'e');
    assert("match"@.len() == 5 && "match"@[0] == 'm');
    assert("findall"@.len() == 7 && "findall"@[0] == 'f');
    assert("fullmatch"@.len() == 9);
    assert("finditer"@.len() == 8);
    assert("scanner"@.len() == 7 && "scanner"@[0] == 's');
    assert("split"@.len() == 5 && "split"@[0] == 's');
    assert("sub"@.len() == 3);
}

} // verus!
