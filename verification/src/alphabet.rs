//! Strategies for characters and strings.
use crate::arguments::{
    collection_sizes, deferred_invalid, invalid, invalid_argument, size_of, sizes_mistake,
    ArgumentError, Kind, SizeArg,
};
use crate::charmap::{
    all_categories, as_general_categories, category_name, category_text, expanded, holds, Charmap,
    CATEGORY_COUNT, SURROGATES,
};
use crate::charset::{
    bound_part, build_characters_intervals, categories_fault, category_allowed, character_allowed,
    error_text, in_allowed_category, list_part, list_text, lists_fault, push_part, CharList,
    CharacterArgs, CharactersError, Codec,
};
use crate::choice::{holds_codepoints, CODEPOINT_LIMIT};
use crate::integer::decimal;
use crate::intervalset::{lemma_between_fits, lemma_covers_concat, IntervalSet};
use crate::scalars::says;
use crate::nodes::Names;
use crate::repr::{atom_repr, nice_repr};
use crate::strategy::{Alphabet, Atom, StrategyNode, COLLECTION_DEFAULT_MAX_SIZE};
use crate::words::{join, joined, same_str, show_tuple, texts, tuple_text};
use vstd::prelude::*;
use vstd::string::StrSliceExecFns;

verus! {

// ---- how a set of characters is shown ---------------------------------------

/// The categories that names stand for; none where a name is unknown.
pub open spec fn meant(cats: Seq<String>) -> Seq<u8> {
    if all_categories(texts(cats)) {
        expanded(texts(cats))
    } else {
        Seq::empty()
    }
}

fn find_meant(cats: &Vec<String>) -> (r: Vec<u8>)
    ensures
        r@ == meant(cats@),
        forall|k: int| 0 <= k < r@.len() ==> (#[trigger] r@[k]) < CATEGORY_COUNT,
{
    let shown = String::new();
    match as_general_categories(cats, shown.as_str(), "categories") {
        Ok(list) => list,
        Err(_) => {
            let none: Vec<u8> = Vec::new();
            assert(none@ =~= Seq::<u8>::empty());
            none
        },
    }
}

/// The first `n` categories without the given ones.
pub open spec fn remaining(given: Seq<u8>, n: int) -> Seq<u8>
    decreases n,
{
    if n <= 0 {
        Seq::empty()
    } else if given.contains((n - 1) as u8) {
        remaining(given, n - 1)
    } else {
        remaining(given, n - 1).push((n - 1) as u8)
    }
}

fn find_remaining(given: &Vec<u8>) -> (r: Vec<u8>)
    ensures
        r@ == remaining(given@, CATEGORY_COUNT as int),
        forall|k: int| 0 <= k < r@.len() ==> (#[trigger] r@[k]) < CATEGORY_COUNT,
{
    let mut out: Vec<u8> = Vec::new();
    let mut n: u8 = 0;
    assert(out@ =~= Seq::<u8>::empty());
    while n < CATEGORY_COUNT
        invariant
            n <= CATEGORY_COUNT,
            out@ == remaining(given@, n as int),
            forall|k: int| 0 <= k < out@.len() ==> (#[trigger] out@[k]) < CATEGORY_COUNT,
        decreases CATEGORY_COUNT - n,
    {
        if !holds(given, n) {
            out.push(n);
        }
        n = n + 1;
    }
    out
}

/// Categories without that of surrogates.
pub open spec fn without_surrogates(s: Seq<u8>) -> Seq<u8>
    decreases s.len(),
{
    if s.len() == 0 {
        Seq::empty()
    } else if s.last() == SURROGATES {
        without_surrogates(s.drop_last())
    } else {
        without_surrogates(s.drop_last()).push(s.last())
    }
}

fn drop_surrogates(s: &Vec<u8>) -> (r: Vec<u8>)
    requires
        forall|k: int| 0 <= k < s@.len() ==> (#[trigger] s@[k]) < CATEGORY_COUNT,
    ensures
        r@ == without_surrogates(s@),
        forall|k: int| 0 <= k < r@.len() ==> (#[trigger] r@[k]) < CATEGORY_COUNT,
{
    let mut out: Vec<u8> = Vec::new();
    let mut i: usize = 0;
    assert(s@.take(0) =~= Seq::<u8>::empty());
    assert(out@ =~= Seq::<u8>::empty());
    while i < s.len()
        invariant
            i <= s.len(),
            forall|k: int| 0 <= k < s@.len() ==> (#[trigger] s@[k]) < CATEGORY_COUNT,
            out@ == without_surrogates(s@.take(i as int)),
            forall|k: int| 0 <= k < out@.len() ==> (#[trigger] out@[k]) < CATEGORY_COUNT,
        decreases s.len() - i,
    {
        proof {
            assert(s@.take(i + 1).drop_last() =~= s@.take(i as int));
            assert(s@.take(i + 1).last() == s@[i as int]);
        }
        if s[i] != SURROGATES {
            out.push(s[i]);
        }
        i = i + 1;
    }
    assert(s@.take(i as int) =~= s@);
    out
}

/// The codec is one with this proper name.
pub open spec fn codec_named(a: CharacterArgs, name: Seq<char>) -> bool {
    a.codec is Some && a.codec->0.canonical@ == name
}

/// The categories that the arguments stand for, before the codec has its say.
pub open spec fn given_categories(a: CharacterArgs) -> Option<Seq<u8>> {
    if a.categories is Some {
        Some(meant(a.categories->0@))
    } else if a.exclude_categories is Some {
        Some(remaining(meant(a.exclude_categories->0@), CATEGORY_COUNT as int))
    } else {
        None
    }
}

/// The categories that are shown.
pub open spec fn shown_categories(a: CharacterArgs) -> Option<Seq<u8>> {
    if codec_named(a, "utf-8"@) {
        match given_categories(a) {
            Some(v) => Some(without_surrogates(v)),
            None => Some(remaining(seq![SURROGATES], CATEGORY_COUNT as int)),
        }
    } else {
        given_categories(a)
    }
}

/// The largest codepoint that is shown.
pub open spec fn shown_highest(a: CharacterArgs) -> Option<i64> {
    if codec_named(a, "ascii"@) && (a.max_codepoint is None || a.max_codepoint->0 > 127) {
        Some(127)
    } else {
        a.max_codepoint
    }
}

/// The categories are not all of them but that of surrogates.
pub open spec fn unusual(v: Seq<u8>) -> bool {
    exists|i: u8| i < CATEGORY_COUNT && (#[trigger] v.contains(i)) != (i != SURROGATES)
}

fn find_unusual(v: &Vec<u8>) -> (r: bool)
    ensures
        r == unusual(v@),
{
    let mut n: u8 = 0;
    while n < CATEGORY_COUNT
        invariant
            n <= CATEGORY_COUNT,
            forall|i: u8| i < n ==> (#[trigger] v@.contains(i)) == (i != SURROGATES),
        decreases CATEGORY_COUNT - n,
    {
        if holds(v, n) != (n != SURROGATES) {
            return true;
        }
        n = n + 1;
    }
    false
}

/// The names of categories.
pub open spec fn category_names(v: Seq<u8>) -> Seq<Seq<char>> {
    Seq::new(v.len(), |i: int| category_text(v[i] as int))
}

fn name_categories(v: &Vec<u8>) -> (r: Vec<String>)
    ensures
        texts(r@) == category_names(v@),
{
    let mut out: Vec<String> = Vec::new();
    let mut i: usize = 0;
    while i < v.len()
        invariant
            i <= v.len(),
            out@.len() == i,
            forall|k: int| 0 <= k < i ==> (#[trigger] out@[k])@ == category_text(v@[k] as int),
        decreases v.len() - i,
    {
        let mut s = String::new();
        s.append(category_name(v[i]));
        assert(s@ =~= category_text(v@[i as int] as int));
        out.push(s);
        i = i + 1;
    }
    assert(texts(out@) =~= category_names(v@));
    out
}

/// One part more, if there is one.
pub open spec fn with_part(parts: Seq<Seq<char>>, part: Option<Seq<char>>) -> Seq<Seq<char>> {
    match part {
        Some(p) => parts.push(p),
        None => parts,
    }
}

/// A list of characters as a part, unless it was given as an empty string.
pub open spec fn list_shown(name: Seq<char>, list: Option<CharList>) -> Option<Seq<char>> {
    if list is Some && !list->0.empty_text {
        Some(name + list_text(list))
    } else {
        None
    }
}

/// The arguments that are shown.
pub open spec fn shown_parts(a: CharacterArgs) -> Seq<Seq<char>> {
    let p1 = with_part(
        Seq::empty(),
        if a.codec is Some && !codec_named(a, "ascii"@) {
            Some("codec='"@ + a.codec->0.canonical@ + "'"@)
        } else {
            None
        },
    );
    let p2 = with_part(
        p1,
        if a.min_codepoint is Some {
            Some("min_codepoint="@ + decimal(a.min_codepoint->0 as int))
        } else {
            None
        },
    );
    let p3 = with_part(
        p2,
        if shown_highest(a) is Some {
            Some("max_codepoint="@ + decimal(shown_highest(a)->0 as int))
        } else {
            None
        },
    );
    let p4 = with_part(
        p3,
        if shown_categories(a) is Some && unusual(shown_categories(a)->0) {
            Some("categories="@ + tuple_text(category_names(shown_categories(a)->0)))
        } else {
            None
        },
    );
    let p5 = with_part(p4, list_shown("exclude_characters="@, a.removed));
    with_part(p5, list_shown("include_characters="@, a.added))
}

fn codec_proper(codec: &Option<Codec>, name: &str) -> (r: bool)
    ensures
        r == (codec is Some && codec->0.canonical@ == name@),
{
    match codec {
        Some(c) => same_str(c.canonical.as_str(), name),
        None => false,
    }
}

fn find_shown_categories(a: &CharacterArgs) -> (r: Option<Vec<u8>>)
    ensures
        r is Some <==> shown_categories(*a) is Some,
        r is Some ==> r->0@ == shown_categories(*a)->0,
{
    let given: Option<Vec<u8>> = match (&a.categories, &a.exclude_categories) {
        (Some(c), _) => Some(find_meant(c)),
        (None, Some(c)) => {
            let not = find_meant(c);
            Some(find_remaining(&not))
        },
        (None, None) => None,
    };
    if codec_proper(&a.codec, "utf-8") {
        match given {
            Some(v) => Some(drop_surrogates(&v)),
            None => {
                let mut only: Vec<u8> = Vec::new();
                only.push(SURROGATES);
                assert(only@ =~= seq![SURROGATES]);
                Some(find_remaining(&only))
            },
        }
    } else {
        given
    }
}

/// How a strategy for characters is shown: by the arguments that differ from what is
/// usual.
pub fn characters_force_repr(a: &CharacterArgs) -> (r: String)
    ensures
        r@ == "characters("@ + joined(shown_parts(*a)) + ")"@,
{
    let mut parts: Vec<String> = Vec::new();
    assert(texts(parts@) =~= Seq::<Seq<char>>::empty());
    let ascii = codec_proper(&a.codec, "ascii");
    if let Some(c) = &a.codec {
        if !ascii {
            let mut s = String::new();
            s.append("codec='");
            s.append(c.canonical.as_str());
            s.append("'");
            assert(s@ =~= "codec='"@ + c.canonical@ + "'"@);
            push_part(&mut parts, s);
        }
    }
    if let Some(n) = a.min_codepoint {
        push_part(&mut parts, bound_part("min_codepoint=", n));
    }
    let highest: Option<i64> = match a.max_codepoint {
        Some(n) => if ascii && n > 127 {
            Some(127)
        } else {
            Some(n)
        },
        None => if ascii {
            Some(127)
        } else {
            None
        },
    };
    if let Some(n) = highest {
        push_part(&mut parts, bound_part("max_codepoint=", n));
    }
    if let Some(v) = find_shown_categories(a) {
        if find_unusual(&v) {
            let names = name_categories(&v);
            let shown = show_tuple(&names);
            let mut s = String::new();
            s.append("categories=");
            s.append(shown.as_str());
            assert(s@ =~= "categories="@ + shown@);
            push_part(&mut parts, s);
        }
    }
    if let Some(l) = &a.removed {
        if !l.empty_text {
            push_part(&mut parts, list_part("exclude_characters=", &a.removed));
        }
    }
    if let Some(l) = &a.added {
        if !l.empty_text {
            push_part(&mut parts, list_part("include_characters=", &a.added));
        }
    }
    assert(texts(parts@) =~= shown_parts(*a));
    let inner = join(&parts);
    let mut out = String::new();
    out.append("characters(");
    out.append(inner.as_str());
    out.append(")");
    assert(out@ =~= "characters("@ + inner@ + ")"@);
    out
}

// ---- strategies -------------------------------------------------------------

/// The argument for a codec.
#[derive(Debug)]
pub enum CodecArg {
    Absent,
    Known(Codec),
    /// A name that no codec has, as it is shown.
    Unknown(String),
    /// Something that is not a string, as it is shown.
    NotText(String),
}

/// What is wrong with a codec.
pub open spec fn codec_mistake(c: CodecArg) -> Option<Seq<char>> {
    match c {
        CodecArg::Unknown(shown) => Some("codec="@ + shown@ + " is not a valid codec name."@),
        CodecArg::NotText(shown) => Some("codec="@ + shown@ + " must be a string."@),
        _ => None,
    }
}

/// Reads a codec.
pub fn check_codec(c: CodecArg) -> (r: Result<Option<Codec>, ArgumentError>)
    ensures
        r is Ok <==> codec_mistake(c) is None,
        r is Ok ==> r->Ok_0 == (match c {
            CodecArg::Known(k) => Some(k),
            _ => None,
        }),
        r is Err ==> invalid(r->Err_0, codec_mistake(c)->0),
{
    let mut msg = String::new();
    match c {
        CodecArg::Absent => Ok(None),
        CodecArg::Known(k) => Ok(Some(k)),
        CodecArg::Unknown(shown) => {
            msg.append("codec=");
            msg.append(shown.as_str());
            msg.append(" is not a valid codec name.");
            assert(msg@ =~= "codec="@ + shown@ + " is not a valid codec name."@);
            Err(invalid_argument(msg))
        },
        CodecArg::NotText(shown) => {
            msg.append("codec=");
            msg.append(shown.as_str());
            msg.append(" must be a string.");
            assert(msg@ =~= "codec="@ + shown@ + " must be a string."@);
            Err(invalid_argument(msg))
        },
    }
}

/// The arguments break no rule, and some character is left.
pub open spec fn characters_fine(a: CharacterArgs, map: Charmap) -> bool {
    lists_fault(a) is None && forall|e: CharactersError| !categories_fault(a, map, e)
}

/// Characters.
pub fn characters(a: &CharacterArgs, map: &Charmap) -> (r: StrategyNode)
    ensures
        r.ok(),
        characters_fine(*a, *map) ==> r is Characters && r->Characters_repr@ == "characters("@
            + joined(shown_parts(*a)) + ")"@ && forall|x: int| #[trigger]
            r->Characters_alphabet.members().has(x) <==> character_allowed(*a, *map, x),
        !characters_fine(*a, *map) ==> r is Invalid && !r->resolution_failed && exists|
            e: CharactersError,
        | #[trigger]
            error_text(e, *a, r->Invalid_msg@) && (if lists_fault(*a) is Some {
                lists_fault(*a) == Some(e)
            } else {
                categories_fault(*a, *map, e)
            }),
{
    match build_characters_intervals(a, map) {
        Ok(set) => {
            assert(characters_fine(*a, *map));
            StrategyNode::Characters {
                alphabet: Alphabet::of(set),
                repr: characters_force_repr(a),
            }
        },
        Err(e) => {
            let msg = e.message(a, map);
            let r = deferred_invalid(msg);
            assert(error_text(e, *a, r->Invalid_msg@));
            assert(!characters_fine(*a, *map));
            r
        },
    }
}

/// Something that should be a single character.
#[derive(Debug)]
pub struct CharItem {
    /// The string that it is, if it is one.
    pub text: Option<String>,
    pub shown: String,
}

/// What is wrong with a single character.
pub open spec fn char_mistake(v: CharItem) -> Option<Seq<char>> {
    if v.text is None {
        Some(
            "The following elements in alphabet are not unicode strings: ["@ + v.shown@ + "]"@,
        )
    } else if v.text->0@.len() != 1 {
        Some(
            "The following elements in alphabet are not of length one, which leads to violating the size contract: ["@
                + v.shown@ + "]"@,
        )
    } else {
        None
    }
}

/// The codepoint of a single character.
pub fn validate_alphabet_char(v: &CharItem) -> (r: Result<u32, ArgumentError>)
    ensures
        r is Ok <==> char_mistake(*v) is None,
        r is Ok ==> r->Ok_0 as int == v.text->0@[0] as int && r->Ok_0 < CODEPOINT_LIMIT,
        r is Err ==> invalid(r->Err_0, char_mistake(*v)->0),
{
    let mut msg = String::new();
    match &v.text {
        Some(s) => {
            if s.as_str().unicode_len() == 1 {
                let c: char = s.as_str().get_char(0);
                return Ok(c as u32);
            }
            msg.append(
                "The following elements in alphabet are not of length one, which leads to violating the size contract: [",
            );
            msg.append(v.shown.as_str());
            msg.append("]");
            assert(msg@
                =~= "The following elements in alphabet are not of length one, which leads to violating the size contract: ["@
                + v.shown@ + "]"@);
        },
        None => {
            msg.append("The following elements in alphabet are not unicode strings: [");
            msg.append(v.shown.as_str());
            msg.append("]");
            assert(msg@ =~= "The following elements in alphabet are not unicode strings: ["@
                + v.shown@ + "]"@);
        },
    }
    Err(invalid_argument(msg))
}

/// The string that an object is, if it is one.
pub open spec fn text_of(a: Atom, strings: Seq<Option<String>>) -> Option<Seq<char>> {
    match a {
        Atom::Host(id) => if id < strings.len() && strings[id as int] is Some {
            Some(strings[id as int]->0@)
        } else {
            None
        },
        _ => None,
    }
}

/// An object as something that should be a single character.
pub fn char_item(a: Atom, strings: &Vec<Option<String>>, names: &Names) -> (r: CharItem)
    ensures
        r.text is Some <==> text_of(a, strings@) is Some,
        r.text is Some ==> r.text->0@ == text_of(a, strings@)->0,
        r.shown@ == atom_repr(a, *names),
{
    let mut shown = String::new();
    nice_repr(&mut shown, a, names);
    assert(shown@ =~= atom_repr(a, *names));
    let text: Option<String> = match a {
        Atom::Host(id) => if id < strings.len() as u64 {
            match &strings[id as usize] {
                Some(s) => Some(s.clone()),
                None => None,
            }
        } else {
            None
        },
        _ => None,
    };
    CharItem { text, shown }
}

/// An object is a single character.
pub open spec fn is_single(a: Atom, strings: Seq<Option<String>>) -> bool {
    text_of(a, strings) is Some && text_of(a, strings)->0.len() == 1
}

/// One of the objects is this character.
pub open spec fn holds_char(elements: Seq<Atom>, strings: Seq<Option<String>>, x: int) -> bool {
    exists|k: int|
        0 <= k < elements.len() && text_of(#[trigger] elements[k], strings)->0[0] as int == x
}

/// All objects are single characters.
pub open spec fn all_single(elements: Seq<Atom>, strings: Seq<Option<String>>) -> bool {
    forall|k: int| 0 <= k < elements.len() ==> is_single(#[trigger] elements[k], strings)
}

/// What an alphabet can be made of.
#[derive(Debug)]
pub enum AlphabetArg {
    Absent,
    Text(String),
    Given(Alphabet),
    Strategy(StrategyNode),
    /// A strategy of somebody else, with its characters if it knows them.
    Foreign(Option<Alphabet>),
    Items(Vec<CharItem>),
    Other,
}

/// Nothing is said about which characters are wanted.
pub open spec fn no_args() -> CharacterArgs {
    CharacterArgs {
        min_codepoint: None,
        max_codepoint: None,
        categories: None,
        exclude_categories: None,
        added: None,
        removed: None,
        codec: None,
    }
}

/// All characters but surrogates.
pub fn default_alphabet(map: &Charmap) -> (r: Alphabet)
    ensures
        forall|x: int| #[trigger] r.members().has(x) <==> character_allowed(no_args(), *map, x),
{
    let a = CharacterArgs {
        min_codepoint: None,
        max_codepoint: None,
        categories: None,
        exclude_categories: None,
        added: None,
        removed: None,
        codec: None,
    };
    map.know_valid();
    proof {
        map.lemma_characters();
        let (i, x) = choose|i: int, x: int|
            0 <= i < CATEGORY_COUNT && i != SURROGATES && #[trigger] map.of_category(i, x);
        assert(category_allowed(a, i as u8));
        assert(map.of_category((i as u8) as int, x));
        assert(in_allowed_category(a, *map, x));
        assert(character_allowed(a, *map, x));
    }
    match build_characters_intervals(&a, map) {
        Ok(set) => Alphabet::of(set),
        Err(_) => {
            assert(false);
            Alphabet::of(IntervalSet::from_string(&Vec::new()))
        },
    }
}

/// The alphabet of some codepoints.
fn alphabet_of(cps: &Vec<u32>) -> (r: Alphabet)
    requires
        forall|k: int| 0 <= k < cps@.len() ==> (#[trigger] cps@[k]) < CODEPOINT_LIMIT,
    ensures
        forall|x: int| #[trigger]
            r.members().has(x) <==> exists|k: int| 0 <= k < cps@.len() && #[trigger] cps@[k] == x,
{
    let set = IntervalSet::from_string(cps);
    assert forall|x: int| #[trigger] set.has(x) implies 0 <= x < CODEPOINT_LIMIT by {
        let k = choose|k: int| 0 <= k < cps@.len() && #[trigger] cps@[k] == x;
        assert(cps@[k] < CODEPOINT_LIMIT);
    }
    Alphabet::of(set)
}

/// The codepoints of a string.
fn codepoints_of_text(s: &str) -> (r: Vec<u32>)
    ensures
        r@.len() == s@.len(),
        forall|k: int| 0 <= k < r@.len() ==> (#[trigger] r@[k]) as int == s@[k] as int,
        forall|k: int| 0 <= k < r@.len() ==> (#[trigger] r@[k]) < CODEPOINT_LIMIT,
{
    let n: usize = s.unicode_len();
    let mut out: Vec<u32> = Vec::new();
    let mut i: usize = 0;
    while i < n
        invariant
            i <= n,
            n == s@.len(),
            out@.len() == i,
            forall|k: int| 0 <= k < i ==> (#[trigger] out@[k]) as int == s@[k] as int,
            forall|k: int| 0 <= k < i ==> (#[trigger] out@[k]) < CODEPOINT_LIMIT,
        decreases n - i,
    {
        let c: char = s.get_char(i);
        out.push(c as u32);
        i = i + 1;
    }
    out
}

/// A string holds a character.
pub open spec fn text_has(s: Seq<char>, x: int) -> bool {
    exists|k: int| 0 <= k < s.len() && (#[trigger] s[k]) as int == x
}

/// The elements that are no strings, as they are shown.
pub open spec fn not_texts(items: Seq<CharItem>) -> Seq<Seq<char>>
    decreases items.len(),
{
    if items.len() == 0 {
        Seq::empty()
    } else if items.last().text is None {
        not_texts(items.drop_last()).push(items.last().shown@)
    } else {
        not_texts(items.drop_last())
    }
}

/// The elements that are strings but not single characters, as they are shown.
pub open spec fn not_singles(items: Seq<CharItem>) -> Seq<Seq<char>>
    decreases items.len(),
{
    if items.len() == 0 {
        Seq::empty()
    } else if items.last().text is Some && items.last().text->0@.len() != 1 {
        not_singles(items.drop_last()).push(items.last().shown@)
    } else {
        not_singles(items.drop_last())
    }
}

/// What is wrong with a list of characters.
pub open spec fn items_mistake(items: Seq<CharItem>) -> Option<Seq<char>> {
    if not_texts(items).len() > 0 {
        Some(
            "The following elements in alphabet are not unicode strings: ["@ + joined(
                not_texts(items),
            ) + "]"@,
        )
    } else if not_singles(items).len() > 0 {
        Some(
            "The following elements in alphabet are not of length one, which leads to violating the size contract: ["@
                + joined(not_singles(items)) + "]"@,
        )
    } else {
        None
    }
}

/// One of the elements is this character.
pub open spec fn items_have(items: Seq<CharItem>, x: int) -> bool {
    exists|k: int| 0 <= k < items.len() && (#[trigger] items[k]).text->0@[0] as int == x
}

fn alphabet_of_items(items: &Vec<CharItem>) -> (r: Result<Alphabet, ArgumentError>)
    ensures
        r is Ok <==> items_mistake(items@) is None,
        r is Ok ==> forall|x: int| #[trigger]
            r->Ok_0.members().has(x) <==> items_have(items@, x),
        r is Err ==> invalid(r->Err_0, items_mistake(items@)->0),
{
    let mut cps: Vec<u32> = Vec::new();
    let mut bad_type: Vec<String> = Vec::new();
    let mut bad_len: Vec<String> = Vec::new();
    let mut i: usize = 0;
    assert(items@.take(0) =~= Seq::<CharItem>::empty());
    assert(texts(bad_type@) =~= Seq::<Seq<char>>::empty());
    while i < items.len()
        invariant
            i <= items.len(),
            texts(bad_type@) == not_texts(items@.take(i as int)),
            texts(bad_len@) == not_singles(items@.take(i as int)),
            bad_type@.len() == 0 && bad_len@.len() == 0 ==> cps@.len() == i && forall|k: int|
                0 <= k < i ==> (#[trigger] cps@[k]) as int == items@[k].text->0@[0] as int,
            forall|k: int| 0 <= k < cps@.len() ==> (#[trigger] cps@[k]) < CODEPOINT_LIMIT,
        decreases items.len() - i,
    {
        proof {
            assert(items@.take(i + 1).drop_last() =~= items@.take(i as int));
            assert(items@.take(i + 1).last() == items@[i as int]);
            assert(texts(bad_type@).len() == bad_type@.len());
            assert(texts(bad_len@).len() == bad_len@.len());
        }
        match &items[i].text {
            Some(s) => {
                if s.as_str().unicode_len() == 1 {
                    let c: char = s.as_str().get_char(0);
                    cps.push(c as u32);
                } else {
                    push_part(&mut bad_len, items[i].shown.clone());
                    assert(texts(bad_len@).len() == bad_len@.len());
                }
            },
            None => {
                push_part(&mut bad_type, items[i].shown.clone());
                assert(texts(bad_type@).len() == bad_type@.len());
            },
        }
        i = i + 1;
    }
    assert(items@.take(i as int) =~= items@);
    assert(texts(bad_type@).len() == bad_type@.len());
    assert(texts(bad_len@).len() == bad_len@.len());
    let mut msg = String::new();
    if bad_type.len() > 0 {
        let listed = join(&bad_type);
        msg.append("The following elements in alphabet are not unicode strings: [");
        msg.append(listed.as_str());
        msg.append("]");
        assert(msg@ =~= "The following elements in alphabet are not unicode strings: ["@ + listed@
            + "]"@);
        return Err(invalid_argument(msg));
    }
    if bad_len.len() > 0 {
        let listed = join(&bad_len);
        msg.append(
            "The following elements in alphabet are not of length one, which leads to violating the size contract: [",
        );
        msg.append(listed.as_str());
        msg.append("]");
        assert(msg@
            =~= "The following elements in alphabet are not of length one, which leads to violating the size contract: ["@
            + listed@ + "]"@);
        return Err(invalid_argument(msg));
    }
    let r = alphabet_of(&cps);
    proof {
        assert forall|x: int| #[trigger] r.members().has(x) <==> items_have(items@, x) by {
            if items_have(items@, x) {
                let k = choose|k: int|
                    0 <= k < items@.len() && (#[trigger] items@[k]).text->0@[0] as int == x;
                assert(cps@[k] == x);
            }
            if r.members().has(x) {
                let k = choose|k: int| 0 <= k < cps@.len() && #[trigger] cps@[k] == x;
                assert(items@[k].text->0@[0] as int == x);
            }
        }
    }
    Ok(r)
}

/// The first object that is not a single character.
pub open spec fn first_not_char(
    elements: Seq<Atom>,
    strings: Seq<Option<String>>,
    k: int,
) -> bool {
    0 <= k < elements.len() && !is_single(elements[k], strings) && forall|i: int|
        0 <= i < k ==> is_single(#[trigger] elements[i], strings)
}

/// What is wrong with an object that should be a single character.
pub open spec fn atom_mistake(a: Atom, strings: Seq<Option<String>>, names: Names) -> Seq<char> {
    if text_of(a, strings) is None {
        "The following elements in alphabet are not unicode strings: ["@ + atom_repr(a, names)
            + "]"@
    } else {
        "The following elements in alphabet are not of length one, which leads to violating the size contract: ["@
            + atom_repr(a, names) + "]"@
    }
}

fn alphabet_of_atoms(elements: &Vec<Atom>, strings: &Vec<Option<String>>, names: &Names) -> (r:
    Result<Alphabet, ArgumentError>)
    ensures
        r is Ok <==> all_single(elements@, strings@),
        r is Ok ==> forall|x: int| #[trigger]
            r->Ok_0.members().has(x) <==> holds_char(elements@, strings@, x),
        r is Err ==> exists|k: int| #[trigger]
            first_not_char(elements@, strings@, k) && invalid(
                r->Err_0,
                atom_mistake(elements@[k], strings@, *names),
            ),
{
    let mut cps: Vec<u32> = Vec::new();
    let mut i: usize = 0;
    while i < elements.len()
        invariant
            i <= elements.len(),
            cps@.len() == i,
            forall|k: int| 0 <= k < i ==> is_single(#[trigger] elements@[k], strings@),
            forall|k: int|
                0 <= k < i ==> (#[trigger] cps@[k]) as int == text_of(
                    elements@[k],
                    strings@,
                )->0[0] as int,
            forall|k: int| 0 <= k < cps@.len() ==> (#[trigger] cps@[k]) < CODEPOINT_LIMIT,
        decreases elements.len() - i,
    {
        let item = char_item(elements[i], strings, names);
        match validate_alphabet_char(&item) {
            Ok(c) => cps.push(c),
            Err(e) => {
                assert(first_not_char(elements@, strings@, i as int));
                return Err(e);
            },
        }
        i = i + 1;
    }
    let r = alphabet_of(&cps);
    proof {
        assert forall|x: int| #[trigger] r.members().has(x) <==> holds_char(
            elements@,
            strings@,
            x,
        ) by {
            if holds_char(elements@, strings@, x) {
                let k = choose|k: int|
                    0 <= k < elements@.len() && text_of(#[trigger] elements@[k], strings@)->0[0] as int
                        == x;
                assert(cps@[k] == x);
            }
            if r.members().has(x) {
                let k = choose|k: int| 0 <= k < cps@.len() && #[trigger] cps@[k] == x;
                assert(text_of(elements@[k], strings@)->0[0] as int == x);
            }
        }
    }
    Ok(r)
}

/// The objects that an alphabet strategy chooses among, if it is inspected.
pub open spec fn inspected(node: StrategyNode) -> Option<Seq<Atom>> {
    match node {
        StrategyNode::Just(a) => Some(seq![a]),
        StrategyNode::SampledFrom { elements, .. } => Some(elements@),
        _ => None,
    }
}

/// `x` is in the alphabet that an argument stands for.
pub open spec fn arg_has(
    arg: AlphabetArg,
    map: Charmap,
    strings: Seq<Option<String>>,
    x: int,
) -> bool {
    match arg {
        AlphabetArg::Text(s) => text_has(s@, x),
        AlphabetArg::Given(a) => a.members().has(x),
        AlphabetArg::Strategy(StrategyNode::Characters { alphabet, .. }) => alphabet.members().has(
            x,
        ),
        AlphabetArg::Strategy(node) => if inspected(node) is Some {
            holds_char(inspected(node)->0, strings, x)
        } else {
            character_allowed(no_args(), map, x)
        },
        AlphabetArg::Foreign(Some(a)) => a.members().has(x),
        AlphabetArg::Items(items) => items_have(items@, x),
        _ => character_allowed(no_args(), map, x),
    }
}

/// An argument that no alphabet can be made of.
pub open spec fn arg_refused(arg: AlphabetArg, strings: Seq<Option<String>>) -> bool {
    match arg {
        AlphabetArg::Strategy(node) => inspected(node) is Some && !all_single(
            inspected(node)->0,
            strings,
        ),
        AlphabetArg::Items(items) => items_mistake(items@) is Some,
        _ => false,
    }
}

/// The alphabet that an argument stands for.
pub fn build_intervals(
    arg: AlphabetArg,
    map: &Charmap,
    strings: &Vec<Option<String>>,
    names: &Names,
) -> (r: Result<Alphabet, ArgumentError>)
    ensures
        r is Err <==> arg_refused(arg, strings@),
        r is Ok ==> forall|x: int| #[trigger]
            r->Ok_0.members().has(x) <==> arg_has(arg, *map, strings@, x),
        r is Err && arg is Items ==> invalid(r->Err_0, items_mistake(arg->Items_0@)->0),
        r is Err && arg is Strategy ==> exists|k: int| #[trigger]
            first_not_char(inspected(arg->Strategy_0)->0, strings@, k) && invalid(
                r->Err_0,
                atom_mistake(inspected(arg->Strategy_0)->0[k], strings@, *names),
            ),
{
    match arg {
        AlphabetArg::Absent => Ok(default_alphabet(map)),
        AlphabetArg::Other => Ok(default_alphabet(map)),
        AlphabetArg::Foreign(found) => match found {
            Some(a) => Ok(a),
            None => Ok(default_alphabet(map)),
        },
        AlphabetArg::Given(a) => Ok(a),
        AlphabetArg::Text(s) => {
            let cps = codepoints_of_text(s.as_str());
            let r = alphabet_of(&cps);
            proof {
                assert forall|x: int| #[trigger] r.members().has(x) <==> text_has(s@, x) by {
                    if text_has(s@, x) {
                        let k = choose|k: int|
                            0 <= k < s@.len() && (#[trigger] s@[k]) as int == x;
                        assert(cps@[k] == x);
                    }
                    if r.members().has(x) {
                        let k = choose|k: int| 0 <= k < cps@.len() && #[trigger] cps@[k] == x;
                        assert(s@[k] as int == x);
                    }
                }
            }
            Ok(r)
        },
        AlphabetArg::Items(items) => alphabet_of_items(&items),
        AlphabetArg::Strategy(node) => match node {
            StrategyNode::Characters { alphabet, .. } => Ok(alphabet),
            StrategyNode::Just(a) => {
                let mut one: Vec<Atom> = Vec::new();
                one.push(a);
                assert(one@ =~= seq![a]);
                alphabet_of_atoms(&one, strings, names)
            },
            StrategyNode::SampledFrom { elements, .. } => alphabet_of_atoms(
                &elements,
                strings,
                names,
            ),
            _ => Ok(default_alphabet(map)),
        },
    }
}

/// The warning about an alphabet that looks like the name of a codec.
pub open spec fn codec_warning(name: Seq<char>, letters: Seq<char>) -> Seq<char> {
    "st.text('"@ + name + "'): it seems like you are trying to use the codec '"@ + name
        + "'. st.text('"@ + name
        + "') instead generates strings using the literal characters "@ + letters
        + ". To specify the "@ + name + " codec, use st.text(st.characters(codec='"@ + name
        + "')). If you intended to use character literals, you can silence this warning by reordering the characters."@
}

/// The warning for an alphabet, if one is due.
pub open spec fn alphabet_warning(s: Seq<char>) -> Option<Seq<char>> {
    if s == "ascii"@ {
        Some(codec_warning(s, "[\"a\", \"s\", \"c\", \"i\", \"i\"]"@))
    } else if s == "utf-8"@ {
        Some(codec_warning(s, "[\"u\", \"t\", \"f\", \"-\", \"8\"]"@))
    } else {
        None
    }
}

/// Warns of an alphabet that looks like the name of a codec.
pub fn warn_codec(s: &str) -> (r: Option<String>)
    ensures
        r is Some <==> alphabet_warning(s@) is Some,
        r is Some ==> r->0@ == alphabet_warning(s@)->0,
{
    let letters: &str = if same_str(s, "ascii") {
        "[\"a\", \"s\", \"c\", \"i\", \"i\"]"
    } else if same_str(s, "utf-8") {
        "[\"u\", \"t\", \"f\", \"-\", \"8\"]"
    } else {
        return None;
    };
    let mut m = String::new();
    m.append("st.text('");
    m.append(s);
    m.append("'): it seems like you are trying to use the codec '");
    m.append(s);
    m.append("'. st.text('");
    m.append(s);
    m.append("') instead generates strings using the literal characters ");
    m.append(letters);
    m.append(". To specify the ");
    m.append(s);
    m.append(" codec, use st.text(st.characters(codec='");
    m.append(s);
    m.append(
        "')). If you intended to use character literals, you can silence this warning by reordering the characters.",
    );
    assert(m@ =~= codec_warning(s@, letters@));
    Some(m)
}

/// No character is in the alphabet that an argument stands for.
pub open spec fn arg_empty(arg: AlphabetArg, map: Charmap, strings: Seq<Option<String>>) -> bool {
    forall|x: int| !arg_has(arg, map, strings, x)
}

/// Strings over an alphabet.
pub fn text(
    alphabet: AlphabetArg,
    min_size: &SizeArg,
    max_size: &SizeArg,
    map: &Charmap,
    strings: &Vec<Option<String>>,
    names: &Names,
) -> (r: Result<StrategyNode, ArgumentError>)
    ensures
        r is Err <==> arg_refused(alphabet, strings@),
        r is Ok ==> ({
            let mistake = sizes_mistake(
                *min_size,
                *max_size,
                Kind::Text,
                arg_empty(alphabet, *map, strings@),
                "the empty alphabet"@,
            );
            &&& r->Ok_0.ok()
            &&& mistake is Some ==> says(r->Ok_0, mistake->0)
            &&& mistake is None ==> {
                &&& r->Ok_0 is Text
                &&& r->Ok_0->Text_min == size_of(*min_size, 0)
                &&& r->Ok_0->Text_max == size_of(*max_size, COLLECTION_DEFAULT_MAX_SIZE)
                &&& forall|x: int| #[trigger]
                    r->Ok_0->Text_alphabet.members().has(x) <==> arg_has(
                        alphabet,
                        *map,
                        strings@,
                        x,
                    )
            }
        }),
{
    let a = match build_intervals(alphabet, map, strings, names) {
        Ok(a) => a,
        Err(e) => {
            return Err(e);
        },
    };
    let set = a.as_set();
    let empty = set.intervals.len() == 0;
    proof {
        if empty {
            assert forall|x: int| !arg_has(alphabet, *map, strings@, x) by {
                assert(!set.has(x));
            }
        } else {
            let x = set.intervals@[0].0 as int;
            assert(set.has(x));
            assert(arg_has(alphabet, *map, strings@, x));
        }
    }
    match collection_sizes(min_size, max_size, Kind::Text, empty, "the empty alphabet") {
        Ok((min, max)) => Ok(StrategyNode::Text { alphabet: a, min, max }),
        Err(m) => Ok(deferred_invalid(m)),
    }
}

// ---- alphabets of patterns --------------------------------------------------

/// The characters that a strategy can give are known. `foreign` are those of the
/// strategies of somebody else, where they are known.
pub open spec fn resolves(
    node: StrategyNode,
    strings: Seq<Option<String>>,
    foreign: Seq<Option<Alphabet>>,
) -> bool
    decreases node,
{
    match node {
        StrategyNode::Characters { .. } => true,
        StrategyNode::SampledFrom { elements, .. } => all_single(elements@, strings),
        StrategyNode::Just(a) => is_single(a, strings),
        StrategyNode::OneOf(children) => children@.len() > 0 && forall|i: int|
            0 <= i < children@.len() ==> resolves(#[trigger] children@[i], strings, foreign),
        StrategyNode::Foreign { id } => id < foreign.len() && foreign[id as int] is Some,
        _ => false,
    }
}

/// `x` is one of the characters that a strategy can give.
pub open spec fn gives_char(
    node: StrategyNode,
    strings: Seq<Option<String>>,
    foreign: Seq<Option<Alphabet>>,
    x: int,
) -> bool
    decreases node,
{
    match node {
        StrategyNode::Characters { alphabet, .. } => alphabet.members().has(x),
        StrategyNode::SampledFrom { elements, .. } => holds_char(elements@, strings, x),
        StrategyNode::Just(a) => holds_char(seq![a], strings, x),
        StrategyNode::OneOf(children) => exists|i: int|
            0 <= i < children@.len() && gives_char(#[trigger] children@[i], strings, foreign, x),
        StrategyNode::Foreign { id } => foreign[id as int]->0.members().has(x),
        _ => false,
    }
}

fn set_of_atoms(elements: &Vec<Atom>, strings: &Vec<Option<String>>) -> (r: Option<IntervalSet>)
    ensures
        r is Some <==> all_single(elements@, strings@),
        r is Some ==> r->0.wf() && r->0.normal() && holds_codepoints(r->0),
        r is Some ==> forall|x: int| #[trigger]
            r->0.has(x) <==> holds_char(elements@, strings@, x),
{
    let none = Names { objects: Vec::new(), types: Vec::new(), functions: Vec::new() };
    match alphabet_of_atoms(elements, strings, &none) {
        Ok(a) => {
            let set = a.as_set().copy();
            assert forall|x: int| #[trigger] set.has(x) <==> a.members().has(x) by {}
            Some(set)
        },
        Err(_) => None,
    }
}

/// The characters that a strategy can give, where they are known.
pub fn resolve_alphabet_iset(
    node: &StrategyNode,
    strings: &Vec<Option<String>>,
    foreign: &Vec<Option<Alphabet>>,
) -> (r: Option<IntervalSet>)
    ensures
        r is Some <==> resolves(*node, strings@, foreign@),
        r is Some ==> r->0.wf() && r->0.normal() && holds_codepoints(r->0),
        r is Some ==> forall|x: int| #[trigger]
            r->0.has(x) <==> gives_char(*node, strings@, foreign@, x),
    decreases node,
{
    match node {
        StrategyNode::Characters { alphabet, .. } => {
            let set = alphabet.as_set().copy();
            assert forall|x: int| #[trigger] set.has(x) <==> alphabet.members().has(x) by {}
            Some(set)
        },
        StrategyNode::SampledFrom { elements, .. } => set_of_atoms(elements, strings),
        StrategyNode::Just(a) => {
            let mut one: Vec<Atom> = Vec::new();
            one.push(*a);
            assert(one@ =~= seq![*a]);
            proof {
                assert(one@[0] == *a);
            }
            set_of_atoms(&one, strings)
        },
        StrategyNode::Foreign { id } => {
            if *id >= foreign.len() as u64 {
                return None;
            }
            match &foreign[*id as usize] {
                Some(alphabet) => {
                    let set = alphabet.as_set().copy();
                    assert forall|x: int| #[trigger] set.has(x) <==> alphabet.members().has(
                        x,
                    ) by {}
                    Some(set)
                },
                None => None,
            }
        },
        StrategyNode::OneOf(children) => {
            if children.len() == 0 {
                return None;
            }
            let mut acc = match resolve_alphabet_iset(&children[0], strings, foreign) {
                Some(set) => set,
                None => {
                    return None;
                },
            };
            let mut i: usize = 1;
            while i < children.len()
                invariant
                    1 <= i <= children.len(),
                    node is OneOf,
                    node->OneOf_0 == *children,
                    acc.wf(),
                    acc.normal(),
                    holds_codepoints(acc),
                    forall|k: int|
                        0 <= k < i ==> resolves(#[trigger] children@[k], strings@, foreign@),
                    forall|x: int| #[trigger]
                        acc.has(x) <==> exists|k: int|
                            0 <= k < i && gives_char(
                                #[trigger] children@[k],
                                strings@,
                                foreign@,
                                x,
                            ),
                decreases children.len() - i,
            {
                let next = match resolve_alphabet_iset(&children[i], strings, foreign) {
                    Some(set) => set,
                    None => {
                        return None;
                    },
                };
                proof {
                    let (a, b) = (acc.intervals@, next.intervals@);
                    assert forall|x: int| #[trigger] crate::intervalset::covers(
                        a + b,
                        x,
                    ) implies 0 <= x <= CODEPOINT_LIMIT by {
                        lemma_covers_concat(a, b, x);
                        assert(acc.has(x) || next.has(x));
                    }
                    lemma_between_fits(a + b, 0, CODEPOINT_LIMIT as int);
                }
                let both = acc.union(&next);
                proof {
                    assert forall|x: int| #[trigger] both.has(x) <==> exists|k: int|
                        0 <= k < i + 1 && gives_char(
                            #[trigger] children@[k],
                            strings@,
                            foreign@,
                            x,
                        ) by {
                        if next.has(x) {
                            assert(gives_char(children@[i as int], strings@, foreign@, x));
                        }
                    }
                    assert forall|x: int| #[trigger] both.has(x) implies 0 <= x
                        < CODEPOINT_LIMIT by {
                        assert(acc.has(x) || next.has(x));
                    }
                }
                acc = both;
                i = i + 1;
            }
            Some(acc)
        },
        _ => None,
    }
}

/// The characters of the alphabet of a pattern.
pub fn regex_alphabet_intervals(
    node: &StrategyNode,
    shown: &str,
    strings: &Vec<Option<String>>,
    foreign: &Vec<Option<Alphabet>>,
) -> (r: Result<IntervalSet, ArgumentError>)
    ensures
        r is Ok <==> resolves(*node, strings@, foreign@),
        r is Ok ==> forall|x: int| #[trigger]
            r->Ok_0.has(x) <==> gives_char(*node, strings@, foreign@, x),
        r is Err ==> invalid(
            r->Err_0,
            "alphabet="@ + shown@ + " must be a sampled_from() or characters() strategy."@,
        ),
{
    match resolve_alphabet_iset(node, strings, foreign) {
        Some(set) => Ok(set),
        None => {
            let mut msg = String::new();
            msg.append("alphabet=");
            msg.append(shown);
            msg.append(" must be a sampled_from() or characters() strategy.");
            assert(msg@ =~= "alphabet="@ + shown@
                + " must be a sampled_from() or characters() strategy."@);
            Err(invalid_argument(msg))
        },
    }
}

/// The letters and digits of addresses.
fn address_text() -> (r: StrategyNode)
    ensures
        r is Text && r->Text_min == 1 && r->Text_max == 10,
        r.ok(),
        forall|x: int| #[trigger]
            r->Text_alphabet.members().has(x) <==> text_has(
                "abcdefghijklmnopqrstuvwxyz0123456789"@,
                x,
            ),
{
    let cps = codepoints_of_text("abcdefghijklmnopqrstuvwxyz0123456789");
    let alphabet = alphabet_of(&cps);
    proof {
        let s = "abcdefghijklmnopqrstuvwxyz0123456789"@;
        assert forall|x: int| #[trigger] alphabet.members().has(x) <==> text_has(s, x) by {
            if text_has(s, x) {
                let k = choose|k: int| 0 <= k < s.len() && (#[trigger] s[k]) as int == x;
                assert(cps@[k] == x);
            }
            if alphabet.members().has(x) {
                let k = choose|k: int| 0 <= k < cps@.len() && #[trigger] cps@[k] == x;
                assert(s[k] as int == x);
            }
        }
    }
    StrategyNode::Text { alphabet, min: 1, max: 10 }
}

/// `r` makes names of letters and digits for addresses.
pub open spec fn is_address_text(r: StrategyNode) -> bool {
    &&& r is Text && r->Text_min == 1 && r->Text_max == 10
    &&& forall|x: int| #[trigger]
        r->Text_alphabet.members().has(x) <==> text_has("abcdefghijklmnopqrstuvwxyz0123456789"@, x)
}

/// Addresses of mail: a pair of names, joined by the function of the host.
pub fn emails(join_func: u64) -> (r: StrategyNode)
    ensures
        r is Mapped && r->Mapped_func == join_func,
        *r->Mapped_base is Tuples,
        r->Mapped_base->Tuples_0@.len() == 2,
        is_address_text(r->Mapped_base->Tuples_0@[0]),
        is_address_text(r->Mapped_base->Tuples_0@[1]),
        r.ok(),
{
    let mut pair: Vec<StrategyNode> = Vec::new();
    pair.push(address_text());
    pair.push(address_text());
    let base = StrategyNode::Tuples(pair);
    assert(base.ok()) by {
        assert(pair@[0].ok() && pair@[1].ok());
    }
    StrategyNode::Mapped { base: Box::new(base), func: join_func }
}

} // verus!
