//! Which characters a string may be made of.
use crate::arguments::{invalid, invalid_argument, push_number, ArgumentError, SizeArg};
use crate::charmap::{
    all_categories, as_general_categories, expanded, first_unknown, check_category, holds,
    is_category, unknown_category, Charmap, CATEGORY_COUNT, SURROGATES,
};
use crate::choice::{holds_codepoints, CODEPOINT_LIMIT};
use crate::integer::{decimal, Int};
use crate::intervalset::{covers, lemma_between_fits, lemma_covers_concat, IntervalSet};
use crate::words::{
    all_quoted, join, joined, quote, quoted, same_str, show_tuple, texts, tuple_text,
};
use vstd::prelude::*;
use vstd::string::StrSliceExecFns;

verus! {

// ---- the arguments ----------------------------------------------------------

/// An element of a list of characters.
#[derive(Debug)]
pub struct CharElement {
    pub text: String,
    /// How it is shown in a message about its encoding.
    pub shown: String,
    /// The codec, if there is one, can encode it.
    pub encodable: bool,
}

/// A list of characters.
#[derive(Debug)]
pub struct CharList {
    pub shown: String,
    pub elems: Vec<CharElement>,
    /// The list was given as a string without characters.
    pub empty_text: bool,
}

/// A codec.
#[derive(Debug)]
pub struct Codec {
    /// Its name as it was given.
    pub name: String,
    /// How that name is shown.
    pub shown: String,
    /// Its proper name.
    pub canonical: String,
}

/// The arguments that say which characters are wanted.
#[derive(Debug)]
pub struct CharacterArgs {
    pub min_codepoint: Option<i64>,
    pub max_codepoint: Option<i64>,
    pub categories: Option<Vec<String>>,
    pub exclude_categories: Option<Vec<String>>,
    pub added: Option<CharList>,
    pub removed: Option<CharList>,
    pub codec: Option<Codec>,
}

/// Reads a list of strings.
pub fn to_str_list(items: Option<Vec<Option<String>>>) -> (r: Result<Option<Vec<String>>, usize>)
    ensures
        items is None ==> r == Ok::<Option<Vec<String>>, usize>(None),
        items is Some ==> match r {
            Ok(list) => {
                &&& list is Some
                &&& list->0@.len() == items->0@.len()
                &&& forall|k: int|
                    0 <= k < items->0@.len() ==> (#[trigger] items->0@[k]) is Some && items->0@[k]->0@
                        == list->0@[k]@
            },
            Err(at) => {
                &&& at < items->0@.len()
                &&& items->0@[at as int] is None
                &&& forall|k: int| 0 <= k < at ==> (#[trigger] items->0@[k]) is Some
            },
        },
{
    match items {
        None => Ok(None),
        Some(v) => {
            let mut out: Vec<String> = Vec::new();
            let mut i: usize = 0;
            while i < v.len()
                invariant
                    i <= v.len(),
                    items == Some(v),
                    out@.len() == i,
                    forall|k: int|
                        0 <= k < i ==> (#[trigger] v@[k]) is Some && v@[k]->0@ == out@[k]@,
                decreases v.len() - i,
            {
                match &v[i] {
                    Some(s) => out.push(s.clone()),
                    None => {
                        return Err(i);
                    },
                }
                i = i + 1;
            }
            Ok(Some(out))
        },
    }
}

/// The argument that was given under its present or its former name.
pub fn merge_deprecated_arg<T>(
    modern: Option<T>,
    deprecated: Option<T>,
    modern_name: &str,
    deprecated_name: &str,
) -> (r: Result<Option<T>, ArgumentError>)
    ensures
        r is Err <==> modern is Some && deprecated is Some,
        r is Err ==> invalid(
            r->Err_0,
            "Cannot pass both "@ + modern_name@ + " and the deprecated "@ + deprecated_name@ + "."@,
        ),
        r is Ok ==> r->Ok_0 == (if modern is Some {
            modern
        } else {
            deprecated
        }),
{
    if modern.is_some() && deprecated.is_some() {
        let mut msg = String::new();
        msg.append("Cannot pass both ");
        msg.append(modern_name);
        msg.append(" and the deprecated ");
        msg.append(deprecated_name);
        msg.append(".");
        assert(msg@ =~= "Cannot pass both "@ + modern_name@ + " and the deprecated "@
            + deprecated_name@ + "."@);
        return Err(invalid_argument(msg));
    }
    if modern.is_some() {
        Ok(modern)
    } else {
        Ok(deprecated)
    }
}

/// What is wrong with a bound of codepoints.
pub open spec fn codepoint_mistake(v: SizeArg, name: Seq<char>) -> Option<Seq<char>> {
    match v {
        SizeArg::Absent => None,
        SizeArg::Number(n) => if n >= 0 {
            None
        } else {
            Some(name + "="@ + decimal(n as int) + " must not be negative."@)
        },
        SizeArg::Other(shown) => Some(name + "="@ + shown@ + " must be an integer."@),
    }
}

/// Reads a bound of codepoints.
pub fn coerce_codepoint(v: &SizeArg, name: &str) -> (r: Result<Option<i64>, ArgumentError>)
    ensures
        r is Ok <==> codepoint_mistake(*v, name@) is None,
        r is Ok ==> r->Ok_0 == (match *v {
            SizeArg::Number(n) => Some(n),
            _ => None,
        }),
        r is Err ==> invalid(r->Err_0, codepoint_mistake(*v, name@)->0),
{
    let mut msg = String::new();
    match v {
        SizeArg::Absent => Ok(None),
        SizeArg::Number(n) => {
            if *n >= 0 {
                return Ok(Some(*n));
            }
            msg.append(name);
            msg.append("=");
            push_number(&mut msg, &Int::of(*n));
            msg.append(" must not be negative.");
            assert(msg@ =~= name@ + "="@ + decimal(*n as int) + " must not be negative."@);
            Err(invalid_argument(msg))
        },
        SizeArg::Other(shown) => {
            msg.append(name);
            msg.append("=");
            msg.append(shown.as_str());
            msg.append(" must be an integer.");
            assert(msg@ =~= name@ + "="@ + shown@ + " must be an integer."@);
            Err(invalid_argument(msg))
        },
    }
}

// ---- which characters are allowed -------------------------------------------

/// What is wrong with the arguments.
#[derive(Clone, Copy, Debug, PartialEq, Eq, Structural)]
pub enum CharactersError {
    CodepointsCrossed,
    BothCategories,
    NothingExcluded,
    /// The element at a place is not a single character.
    IncludeNotSingle(usize),
    ExcludeNotSingle(usize),
    /// Some characters are both included and excluded.
    Overlap,
    /// The codec cannot encode the element at a place.
    NotEncodable(usize),
    /// The name at a place is not that of a category.
    UnknownCategory(usize),
    UnknownExcluded(usize),
    NothingNamed,
    NothingLeft,
}

/// The elements of a list.
pub open spec fn elems_of(list: Option<CharList>) -> Seq<CharElement> {
    match list {
        Some(l) => l.elems@,
        None => Seq::empty(),
    }
}

/// A character is in the list.
pub open spec fn lists_char(elems: Seq<CharElement>, x: int) -> bool {
    exists|k: int| 0 <= k < elems.len() && (#[trigger] elems[k]).text@[0] as int == x
}

/// The first element that is not a single character, from place `k` on.
pub open spec fn first_not_single(elems: Seq<CharElement>, k: int) -> Option<usize>
    decreases elems.len() - k,
{
    if k >= elems.len() {
        None
    } else if elems[k].text@.len() != 1 {
        Some(k as usize)
    } else {
        first_not_single(elems, k + 1)
    }
}

/// The first element that cannot be encoded, from place `k` on.
pub open spec fn first_not_encodable(elems: Seq<CharElement>, k: int) -> Option<usize>
    decreases elems.len() - k,
{
    if k >= elems.len() {
        None
    } else if !elems[k].encodable {
        Some(k as usize)
    } else {
        first_not_encodable(elems, k + 1)
    }
}

/// Some character is in both lists.
pub open spec fn overlaps(a: Seq<CharElement>, b: Seq<CharElement>) -> bool {
    exists|k: int| 0 <= k < a.len() && lists_char(b, (#[trigger] a[k]).text@[0] as int)
}

/// A category is allowed: it is named, or, where none are named, not excluded and not
/// that of surrogates.
pub open spec fn category_allowed(a: CharacterArgs, i: u8) -> bool {
    if a.categories is Some {
        expanded(texts(a.categories->0@)).contains(i)
    } else {
        i != SURROGATES && i < CATEGORY_COUNT && !(a.exclude_categories is Some && expanded(
            texts(a.exclude_categories->0@),
        ).contains(i))
    }
}

/// The smallest codepoint.
pub open spec fn lowest(a: CharacterArgs) -> int {
    match a.min_codepoint {
        Some(n) => n as int,
        None => 0,
    }
}

/// The largest codepoint.
pub open spec fn highest(a: CharacterArgs) -> int {
    let most = match a.max_codepoint {
        Some(n) => n as int,
        None => 0x10FFFF,
    };
    if a.codec is Some && a.codec->0.name@ == "ascii"@ && most > 127 {
        127
    } else {
        most
    }
}

/// A character is of an allowed category.
pub open spec fn in_allowed_category(a: CharacterArgs, map: Charmap, x: int) -> bool {
    exists|i: u8| category_allowed(a, i) && #[trigger] map.of_category(i as int, x)
}

/// A character is allowed: it is included, or it is of an allowed category, within the
/// bounds and not excluded.
pub open spec fn character_allowed(a: CharacterArgs, map: Charmap, x: int) -> bool {
    ||| lists_char(elems_of(a.added), x)
    ||| in_allowed_category(a, map, x) && lowest(a) <= x <= highest(a) && !lists_char(
        elems_of(a.removed),
        x,
    )
}

/// What is wrong with the lists of characters.
pub open spec fn lists_fault(a: CharacterArgs) -> Option<CharactersError> {
    let inc = elems_of(a.added);
    let exc = elems_of(a.removed);
    if a.min_codepoint is Some && a.max_codepoint is Some && a.min_codepoint->0
        > a.max_codepoint->0 {
        Some(CharactersError::CodepointsCrossed)
    } else if a.categories is Some && a.exclude_categories is Some {
        Some(CharactersError::BothCategories)
    } else if a.min_codepoint is None && a.max_codepoint is None && a.categories is None
        && a.exclude_categories is None && a.added is Some && a.codec is None {
        Some(CharactersError::NothingExcluded)
    } else if first_not_single(inc, 0) is Some {
        Some(CharactersError::IncludeNotSingle(first_not_single(inc, 0)->0))
    } else if first_not_single(exc, 0) is Some {
        Some(CharactersError::ExcludeNotSingle(first_not_single(exc, 0)->0))
    } else if overlaps(inc, exc) {
        Some(CharactersError::Overlap)
    } else if a.codec is Some && first_not_encodable(inc, 0) is Some {
        Some(CharactersError::NotEncodable(first_not_encodable(inc, 0)->0))
    } else {
        None
    }
}

/// What is wrong with the categories, or that nothing is left.
pub open spec fn categories_fault(a: CharacterArgs, map: Charmap, e: CharactersError) -> bool {
    if a.categories is Some && !all_categories(texts(a.categories->0@)) {
        e is UnknownCategory && first_unknown(texts(a.categories->0@), e->UnknownCategory_0 as int)
    } else if a.categories is Some && expanded(texts(a.categories->0@)).len() == 0 && elems_of(
        a.added,
    ).len() == 0 {
        e == CharactersError::NothingNamed
    } else if a.categories is None && a.exclude_categories is Some && !all_categories(
        texts(a.exclude_categories->0@),
    ) {
        e is UnknownExcluded && first_unknown(
            texts(a.exclude_categories->0@),
            e->UnknownExcluded_0 as int,
        )
    } else {
        e == CharactersError::NothingLeft && forall|x: int| !character_allowed(a, map, x)
    }
}

fn find_not_single(elems: &Vec<CharElement>) -> (r: Option<usize>)
    ensures
        r == first_not_single(elems@, 0),
        r is None ==> forall|k: int|
            0 <= k < elems@.len() ==> (#[trigger] elems@[k]).text@.len() == 1,
{
    let mut i: usize = 0;
    while i < elems.len()
        invariant
            i <= elems.len(),
            first_not_single(elems@, 0) == first_not_single(elems@, i as int),
            forall|k: int| 0 <= k < i ==> (#[trigger] elems@[k]).text@.len() == 1,
        decreases elems.len() - i,
    {
        if elems[i].text.as_str().unicode_len() != 1 {
            return Some(i);
        }
        i = i + 1;
    }
    None
}

fn find_not_encodable(elems: &Vec<CharElement>) -> (r: Option<usize>)
    ensures
        r == first_not_encodable(elems@, 0),
{
    let mut i: usize = 0;
    while i < elems.len()
        invariant
            i <= elems.len(),
            first_not_encodable(elems@, 0) == first_not_encodable(elems@, i as int),
        decreases elems.len() - i,
    {
        if !elems[i].encodable {
            return Some(i);
        }
        i = i + 1;
    }
    None
}

/// The codepoints of a list of single characters.
fn codepoints_of(elems: &Vec<CharElement>) -> (r: Vec<u32>)
    requires
        forall|k: int| 0 <= k < elems@.len() ==> (#[trigger] elems@[k]).text@.len() == 1,
    ensures
        r@.len() == elems@.len(),
        forall|k: int| 0 <= k < r@.len() ==> (#[trigger] r@[k]) as int == elems@[k].text@[0] as int,
        forall|k: int| 0 <= k < r@.len() ==> (#[trigger] r@[k]) < CODEPOINT_LIMIT,
{
    let mut out: Vec<u32> = Vec::new();
    let mut i: usize = 0;
    while i < elems.len()
        invariant
            i <= elems.len(),
            forall|k: int| 0 <= k < elems@.len() ==> (#[trigger] elems@[k]).text@.len() == 1,
            out@.len() == i,
            forall|k: int| 0 <= k < i ==> (#[trigger] out@[k]) as int == elems@[k].text@[0] as int,
            forall|k: int| 0 <= k < i ==> (#[trigger] out@[k]) < CODEPOINT_LIMIT,
        decreases elems.len() - i,
    {
        assert(elems@[i as int].text@.len() == 1);
        let c: char = elems[i].text.as_str().get_char(0);
        out.push(c as u32);
        i = i + 1;
    }
    out
}

fn codepoint_listed(cps: &Vec<u32>, x: u32) -> (r: bool)
    ensures
        r == cps@.contains(x),
{
    let mut i: usize = 0;
    while i < cps.len()
        invariant
            i <= cps.len(),
            forall|k: int| 0 <= k < i ==> cps@[k] != x,
        decreases cps.len() - i,
    {
        if cps[i] == x {
            return true;
        }
        i = i + 1;
    }
    false
}

fn find_overlap(inc: &Vec<u32>, exc: &Vec<u32>) -> (r: bool)
    ensures
        r == (exists|k: int| 0 <= k < inc@.len() && exc@.contains(#[trigger] inc@[k])),
{
    let mut i: usize = 0;
    while i < inc.len()
        invariant
            i <= inc.len(),
            forall|k: int| 0 <= k < i ==> !exc@.contains(#[trigger] inc@[k]),
        decreases inc.len() - i,
    {
        if codepoint_listed(exc, inc[i]) {
            assert(exc@.contains(inc@[i as int]));
            return true;
        }
        i = i + 1;
    }
    false
}

fn check_lists(a: &CharacterArgs, inc: &Vec<CharElement>, exc: &Vec<CharElement>) -> (r: Option<
    CharactersError,
>)
    requires
        inc@ == elems_of(a.added),
        exc@ == elems_of(a.removed),
    ensures
        r == lists_fault(*a),
        r is None ==> forall|k: int| 0 <= k < inc@.len() ==> (#[trigger] inc@[k]).text@.len() == 1,
        r is None ==> forall|k: int| 0 <= k < exc@.len() ==> (#[trigger] exc@[k]).text@.len() == 1,
{
    if let (Some(lo), Some(hi)) = (a.min_codepoint, a.max_codepoint) {
        if lo > hi {
            return Some(CharactersError::CodepointsCrossed);
        }
    }
    if a.categories.is_some() && a.exclude_categories.is_some() {
        return Some(CharactersError::BothCategories);
    }
    if a.min_codepoint.is_none() && a.max_codepoint.is_none() && a.categories.is_none()
        && a.exclude_categories.is_none() && a.added.is_some() && a.codec.is_none() {
        return Some(CharactersError::NothingExcluded);
    }
    if let Some(k) = find_not_single(inc) {
        return Some(CharactersError::IncludeNotSingle(k));
    }
    if let Some(k) = find_not_single(exc) {
        return Some(CharactersError::ExcludeNotSingle(k));
    }
    let inc_cps = codepoints_of(inc);
    let exc_cps = codepoints_of(exc);
    let both = find_overlap(&inc_cps, &exc_cps);
    proof {
        lemma_overlap(inc@, exc@, inc_cps@, exc_cps@);
    }
    if both {
        return Some(CharactersError::Overlap);
    }
    if a.codec.is_some() {
        if let Some(k) = find_not_encodable(inc) {
            return Some(CharactersError::NotEncodable(k));
        }
    }
    None
}

proof fn lemma_listed(elems: Seq<CharElement>, cps: Seq<u32>, x: u32)
    requires
        forall|k: int| 0 <= k < elems.len() ==> (#[trigger] elems[k]).text@.len() == 1,
        cps.len() == elems.len(),
        forall|k: int| 0 <= k < cps.len() ==> (#[trigger] cps[k]) as int == elems[k].text@[0] as int,
    ensures
        lists_char(elems, x as int) <==> cps.contains(x),
{
    if lists_char(elems, x as int) {
        let k = choose|k: int|
            0 <= k < elems.len() && (#[trigger] elems[k]).text@[0] as int == x as int;
        assert(cps[k] == x);
    }
    if cps.contains(x) {
        let k = choose|k: int| 0 <= k < cps.len() && cps[k] == x;
        assert(elems[k].text@[0] as int == x as int);
    }
}

proof fn lemma_overlap(a: Seq<CharElement>, b: Seq<CharElement>, x: Seq<u32>, y: Seq<u32>)
    requires
        forall|k: int| 0 <= k < a.len() ==> (#[trigger] a[k]).text@.len() == 1,
        forall|k: int| 0 <= k < b.len() ==> (#[trigger] b[k]).text@.len() == 1,
        x.len() == a.len(),
        y.len() == b.len(),
        forall|k: int| 0 <= k < x.len() ==> (#[trigger] x[k]) as int == a[k].text@[0] as int,
        forall|k: int| 0 <= k < y.len() ==> (#[trigger] y[k]) as int == b[k].text@[0] as int,
    ensures
        overlaps(a, b) <==> exists|k: int| 0 <= k < x.len() && y.contains(#[trigger] x[k]),
{
    if overlaps(a, b) {
        let k = choose|k: int| 0 <= k < a.len() && lists_char(b, (#[trigger] a[k]).text@[0] as int);
        lemma_listed(b, y, x[k]);
        assert(y.contains(x[k]));
    }
    if exists|k: int| 0 <= k < x.len() && y.contains(#[trigger] x[k]) {
        let k = choose|k: int| 0 <= k < x.len() && y.contains(#[trigger] x[k]);
        lemma_listed(b, y, x[k]);
        assert(lists_char(b, a[k].text@[0] as int));
    }
}

/// The categories besides surrogates and those given.
fn default_categories(excluded: &Vec<u8>) -> (r: Vec<u8>)
    ensures
        forall|i: u8| #[trigger]
            r@.contains(i) <==> i != SURROGATES && i < CATEGORY_COUNT && !excluded@.contains(i),
{
    let mut out: Vec<u8> = Vec::new();
    let mut n: u8 = 0;
    while n < CATEGORY_COUNT
        invariant
            n <= CATEGORY_COUNT,
            forall|i: u8| #[trigger]
                out@.contains(i) <==> i != SURROGATES && i < n && !excluded@.contains(i),
        decreases CATEGORY_COUNT - n,
    {
        let ghost before = out@;
        if n != SURROGATES && !holds(excluded, n) {
            out.push(n);
            proof {
                assert forall|i: u8| #[trigger] out@.contains(i) <==> before.contains(i) || i
                    == n by {
                    if before.contains(i) {
                        let k = choose|k: int| 0 <= k < before.len() && before[k] == i;
                        assert(out@[k] == i);
                    }
                    assert(out@[before.len() as int] == n);
                }
            }
        }
        n = n + 1;
    }
    out
}

/// The allowed categories, or what is wrong with them.
fn allowed_categories(a: &CharacterArgs, nothing_added: bool) -> (r: Result<
    Vec<u8>,
    CharactersError,
>)
    requires
        nothing_added <==> elems_of(a.added).len() == 0,
    ensures
        r is Ok ==> forall|i: u8| #[trigger] r->Ok_0@.contains(i) <==> category_allowed(*a, i),
        r is Ok ==> (a.categories is Some ==> all_categories(texts(a.categories->0@))),
        r is Ok ==> !(a.categories is Some && expanded(texts(a.categories->0@)).len() == 0
            && nothing_added),
        r is Ok ==> (a.categories is None && a.exclude_categories is Some ==> all_categories(
            texts(a.exclude_categories->0@),
        )),
        r is Err ==> {
            ||| a.categories is Some && !all_categories(texts(a.categories->0@))
            ||| a.categories is Some && expanded(texts(a.categories->0@)).len() == 0
                && nothing_added
            ||| a.categories is None && a.exclude_categories is Some && !all_categories(
                texts(a.exclude_categories->0@),
            )
        },
        r is Err ==> forall|map: Charmap| #[trigger] categories_fault(*a, map, r->Err_0),
{
    if let Some(cats) = &a.categories {
        match find_unknown(cats) {
            Some(k) => {
                return Err(CharactersError::UnknownCategory(k));
            },
            None => {},
        }
        let shown = String::new();
        return match as_general_categories(cats, shown.as_str(), "categories") {
            Ok(list) => if list.len() == 0 && nothing_added {
                Err(CharactersError::NothingNamed)
            } else {
                Ok(list)
            },
            Err(_) => {
                assert(false);
                Ok(Vec::new())
            },
        };
    }
    let mut excluded: Vec<u8> = Vec::new();
    if let Some(cats) = &a.exclude_categories {
        match find_unknown(cats) {
            Some(k) => {
                return Err(CharactersError::UnknownExcluded(k));
            },
            None => {},
        }
        let shown = String::new();
        match as_general_categories(cats, shown.as_str(), "exclude_categories") {
            Ok(list) => {
                excluded = list;
            },
            Err(_) => {
                assert(false);
            },
        }
    }
    Ok(default_categories(&excluded))
}

/// The first name that is not that of a category.
fn find_unknown(cats: &Vec<String>) -> (r: Option<usize>)
    ensures
        r is None <==> all_categories(texts(cats@)),
        r is Some ==> first_unknown(texts(cats@), r->0 as int),
{
    let ghost all = texts(cats@);
    let mut i: usize = 0;
    while i < cats.len()
        invariant
            i <= cats.len(),
            all == texts(cats@),
            forall|k: int| 0 <= k < i ==> is_category(#[trigger] all[k]),
        decreases cats.len() - i,
    {
        assert(all[i as int] == cats@[i as int]@);
        if !check_category(cats[i].as_str()) {
            assert(first_unknown(all, i as int));
            return Some(i);
        }
        i = i + 1;
    }
    None
}

/// Whether a codec of this name is given.
fn codec_is(codec: &Option<Codec>, name: &str) -> (r: bool)
    ensures
        r == (codec is Some && codec->0.name@ == name@),
{
    match codec {
        Some(c) => same_str(c.name.as_str(), name),
        None => false,
    }
}

/// The codepoints between two bounds.
fn window(lo: i64, hi: i64) -> (r: IntervalSet)
    ensures
        r.wf(),
        r.normal(),
        forall|x: int| 0 <= x < CODEPOINT_LIMIT ==> (#[trigger] r.has(x) <==> lo <= x <= hi),
{
    let most: i64 = CODEPOINT_LIMIT as i64;
    let from: i64 = if lo < 0 {
        0
    } else if lo > most {
        most
    } else {
        lo
    };
    let to: i64 = if hi > most {
        most
    } else {
        hi
    };
    let mut pairs: Vec<(i64, i64)> = Vec::new();
    if from <= to {
        pairs.push((from, to));
    }
    proof {
        assert forall|x: int| 0 <= x < CODEPOINT_LIMIT implies (#[trigger] covers(pairs@, x) <==> lo
            <= x <= hi) by {
            if lo <= x <= hi {
                assert(pairs@[0] == (from, to));
            }
        }
        lemma_between_fits(pairs@, 0, most as int);
    }
    IntervalSet::of_intervals(pairs)
}

/// The allowed characters, or what is wrong with the arguments.
pub fn build_characters_intervals(a: &CharacterArgs, map: &Charmap) -> (r: Result<
    IntervalSet,
    CharactersError,
>)
    ensures
        lists_fault(*a) is Some ==> r is Err && Some(r->Err_0) == lists_fault(*a),
        lists_fault(*a) is None && r is Err ==> categories_fault(*a, *map, r->Err_0),
        r is Ok ==> {
            &&& r->Ok_0.wf()
            &&& r->Ok_0.normal()
            &&& holds_codepoints(r->Ok_0)
            &&& forall|x: int| #[trigger] r->Ok_0.has(x) <==> character_allowed(*a, *map, x)
            &&& forall|e: CharactersError| !categories_fault(*a, *map, e)
        },
{
    let none: Vec<CharElement> = Vec::new();
    assert(none@ =~= Seq::<CharElement>::empty());
    let inc: &Vec<CharElement> = match &a.added {
        Some(l) => &l.elems,
        None => &none,
    };
    let exc: &Vec<CharElement> = match &a.removed {
        Some(l) => &l.elems,
        None => &none,
    };
    if let Some(e) = check_lists(a, inc, exc) {
        return Err(e);
    }
    let allowed = match allowed_categories(a, inc.len() == 0) {
        Ok(v) => v,
        Err(e) => {
            assert(categories_fault(*a, *map, e));
            return Err(e);
        },
    };
    let lo: i64 = match a.min_codepoint {
        Some(n) => n,
        None => 0,
    };
    let mut hi: i64 = match a.max_codepoint {
        Some(n) => n,
        None => 0x10FFFF,
    };
    if codec_is(&a.codec, "ascii") && hi > 127 {
        hi = 127;
    }
    map.know_valid();
    let base = map.intervals_for_categories(&allowed);
    let narrow = window(lo, hi);
    let base = base.intersection(&narrow);
    let exc_cps = codepoints_of(exc);
    let base = base.difference(&IntervalSet::from_string(&exc_cps));
    let inc_cps = codepoints_of(inc);
    let more = IntervalSet::from_string(&inc_cps);
    proof {
        let (a, b) = (base.intervals@, more.intervals@);
        assert forall|x: int| #[trigger] covers(a + b, x) implies 0 <= x <= u32::MAX by {
            lemma_covers_concat(a, b, x);
            if base.has(x) {
                assert(map.of_any(allowed@, x));
                map.lemma_characters();
            } else {
                assert(more.has(x));
            }
        }
        lemma_between_fits(a + b, 0, u32::MAX as int);
    }
    let base = base.union(&more);
    proof {
        map.lemma_characters();
        assert forall|x: int| #[trigger] base.has(x) <==> character_allowed(*a, *map, x) by {
            if map.of_any(allowed@, x) {
                let k = choose|k: int|
                    0 <= k < allowed@.len() && map.of_category((#[trigger] allowed@[k]) as int, x);
                assert(allowed@.contains(allowed@[k]));
                assert(category_allowed(*a, allowed@[k]));
                assert(in_allowed_category(*a, *map, x));
                assert(0 <= x < CODEPOINT_LIMIT);
            }
            if in_allowed_category(*a, *map, x) {
                let i = choose|i: u8|
                    category_allowed(*a, i) && #[trigger] map.of_category(i as int, x);
                assert(allowed@.contains(i));
                let k = choose|k: int| 0 <= k < allowed@.len() && allowed@[k] == i;
                assert(map.of_category(allowed@[k] as int, x));
                assert(map.of_any(allowed@, x));
            }
            lemma_from_list(exc@, exc_cps@, x);
            lemma_from_list(inc@, inc_cps@, x);
        }
        assert forall|x: int| #[trigger] base.has(x) implies 0 <= x < CODEPOINT_LIMIT by {
            lemma_from_list(inc@, inc_cps@, x);
            if lists_char(inc@, x) {
                let k = choose|k: int|
                    0 <= k < inc@.len() && (#[trigger] inc@[k]).text@[0] as int == x;
                assert(inc_cps@[k] < CODEPOINT_LIMIT);
            }
        }
    }
    if base.intervals.len() == 0 {
        assert forall|x: int| !character_allowed(*a, *map, x) by {
            assert(!base.has(x));
        }
        return Err(CharactersError::NothingLeft);
    }
    proof {
        let x = base.intervals@[0].0 as int;
        assert(base.has(x));
        assert(character_allowed(*a, *map, x));
    }
    Ok(base)
}

proof fn lemma_from_list(elems: Seq<CharElement>, cps: Seq<u32>, x: int)
    requires
        forall|k: int| 0 <= k < elems.len() ==> (#[trigger] elems[k]).text@.len() == 1,
        cps.len() == elems.len(),
        forall|k: int| 0 <= k < cps.len() ==> (#[trigger] cps[k]) as int == elems[k].text@[0] as int,
    ensures
        lists_char(elems, x) <==> exists|i: int| 0 <= i < cps.len() && #[trigger] cps[i] == x,
{
    if lists_char(elems, x) {
        let k = choose|k: int| 0 <= k < elems.len() && (#[trigger] elems[k]).text@[0] as int == x;
        assert(cps[k] == x);
    }
    if exists|i: int| 0 <= i < cps.len() && #[trigger] cps[i] == x {
        let k = choose|i: int| 0 <= i < cps.len() && #[trigger] cps[i] == x;
        assert(elems[k].text@[0] as int == x);
    }
}

// ---- what is said -----------------------------------------------------------

/// How a list is shown.
pub open spec fn list_text(list: Option<CharList>) -> Seq<char> {
    match list {
        Some(l) => l.shown@,
        None => "''"@,
    }
}

/// `o` are the characters that are in both lists, in ascending order.
pub open spec fn is_overlap(o: Seq<char>, a: Seq<CharElement>, b: Seq<CharElement>) -> bool {
    &&& forall|i: int, j: int|
        0 <= i < j < o.len() ==> ((#[trigger] o[i]) as int) < ((#[trigger] o[j]) as int)
    &&& forall|c: char| #[trigger]
        o.contains(c) <==> lists_char(a, c as int) && lists_char(b, c as int)
}

/// Characters as strings.
pub open spec fn singles(o: Seq<char>) -> Seq<Seq<char>> {
    Seq::new(o.len(), |i: int| seq![o[i]])
}

/// The part of a message about arguments that leave nothing.
pub open spec fn left_parts(a: CharacterArgs) -> Seq<Seq<char>> {
    let p0 = Seq::<Seq<char>>::empty();
    let p1 = if a.min_codepoint is Some {
        p0.push("min_codepoint="@ + decimal(a.min_codepoint->0 as int))
    } else {
        p0
    };
    let p2 = if a.max_codepoint is Some {
        p1.push("max_codepoint="@ + decimal(a.max_codepoint->0 as int))
    } else {
        p1
    };
    let p3 = if elems_of(a.removed).len() > 0 {
        p2.push("exclude_characters="@ + list_text(a.removed))
    } else {
        p2
    };
    if a.added is Some {
        p3.push("include_characters="@ + list_text(a.added))
    } else {
        p3
    }
}

/// What is said of an element that is not a single character.
pub open spec fn not_single_text(name: Seq<char>, elem: Seq<char>, shown: Seq<char>) -> Seq<char> {
    "Elements of "@ + name + " are required to be a single character, but ["@ + quoted(elem)
        + "] passed in "@ + name + "="@ + shown + " was not."@
}

/// `m` is what is said of a mistake.
pub open spec fn error_text(e: CharactersError, a: CharacterArgs, m: Seq<char>) -> bool {
    let inc = elems_of(a.added);
    let exc = elems_of(a.removed);
    let shown_inc = list_text(a.added);
    let shown_exc = list_text(a.removed);
    match e {
        CharactersError::CodepointsCrossed => m == "min_codepoint="@ + decimal(
            a.min_codepoint->0 as int,
        ) + " is greater than max_codepoint="@ + decimal(a.max_codepoint->0 as int),
        CharactersError::BothCategories => m
            == "Pass at most one of categories and exclude_categories - these arguments both specify which categories are allowed, so it doesn't make sense to use both in a single call."@,
        CharactersError::NothingExcluded => m
            == "Nothing is excluded by other arguments, so passing only include_characters="@
            + shown_inc
            + " would have no effect.  Also pass categories=(), or use sampled_from("@ + shown_inc
            + ") instead."@,
        CharactersError::IncludeNotSingle(k) => m == not_single_text(
            "include_characters"@,
            inc[k as int].text@,
            shown_inc,
        ),
        CharactersError::ExcludeNotSingle(k) => m == not_single_text(
            "exclude_characters"@,
            exc[k as int].text@,
            shown_exc,
        ),
        CharactersError::Overlap => exists|o: Seq<char>| #[trigger]
            is_overlap(o, inc, exc) && m == "Characters ["@ + joined(all_quoted(singles(o)))
                + "] are present in both include_characters="@ + shown_inc
                + " and exclude_characters="@ + shown_exc,
        CharactersError::NotEncodable(k) => m == "Character "@ + inc[k as int].shown@
            + " in include_characters="@ + shown_inc + " cannot be encoded with codec="@
            + a.codec->0.shown@,
        CharactersError::UnknownCategory(k) => m == unknown_category(
            "categories"@,
            tuple_text(texts(a.categories->0@)),
            a.categories->0@[k as int]@,
        ),
        CharactersError::UnknownExcluded(k) => m == unknown_category(
            "exclude_categories"@,
            tuple_text(texts(a.exclude_categories->0@)),
            a.exclude_categories->0@[k as int]@,
        ),
        CharactersError::NothingNamed => m
            == "When `categories` is an empty collection and there are no characters specified in include_characters, nothing can be generated by the characters() strategy."@,
        CharactersError::NothingLeft => m
            == "No characters are allowed to be generated by this combination of arguments: "@
            + joined(left_parts(a)),
    }
}

fn push_list(out: &mut String, list: &Option<CharList>)
    ensures
        final(out)@ == old(out)@ + list_text(*list),
{
    match list {
        Some(l) => out.append(l.shown.as_str()),
        None => out.append("''"),
    }
}

fn say_not_single(name: &str, elem: &str, list: &Option<CharList>) -> (m: String)
    ensures
        m@ == not_single_text(name@, elem@, list_text(*list)),
{
    let mut m = String::new();
    m.append("Elements of ");
    m.append(name);
    m.append(" are required to be a single character, but [");
    let q = quote(elem);
    m.append(q.as_str());
    m.append("] passed in ");
    m.append(name);
    m.append("=");
    push_list(&mut m, list);
    m.append(" was not.");
    assert(m@ =~= not_single_text(name@, elem@, list_text(*list)));
    m
}

fn say_unknown(name: &str, cats: &Vec<String>, k: usize) -> (m: String)
    requires
        k < cats@.len(),
    ensures
        m@ == unknown_category(name@, tuple_text(texts(cats@)), cats@[k as int]@),
{
    let shown = show_tuple(cats);
    let mut m = String::new();
    m.append("In ");
    m.append(name);
    m.append("=");
    m.append(shown.as_str());
    m.append(", '");
    m.append(cats[k].as_str());
    m.append("' is not a valid Unicode category.");
    assert(m@ =~= unknown_category(name@, tuple_text(texts(cats@)), cats@[k as int]@));
    m
}

/// The place of the first codepoint that does not come before `code`.
fn place_of(codes: &Vec<u32>, code: u32) -> (at: usize)
    ensures
        at <= codes@.len(),
        forall|k: int| 0 <= k < at ==> (#[trigger] codes@[k]) < code,
        at < codes@.len() ==> codes@[at as int] >= code,
{
    let mut at: usize = 0;
    while at < codes.len()
        invariant
            at <= codes.len(),
            forall|k: int| 0 <= k < at ==> (#[trigger] codes@[k]) < code,
        decreases codes.len() - at,
    {
        if codes[at] >= code {
            return at;
        }
        at = at + 1;
    }
    at
}

/// The characters of the first list that are in the second one, each once and in
/// ascending order, in quotes.
fn list_overlap(inc: &Vec<CharElement>, exc: &Vec<CharElement>) -> (r: Vec<String>)
    requires
        forall|k: int| 0 <= k < inc@.len() ==> (#[trigger] inc@[k]).text@.len() == 1,
        forall|k: int| 0 <= k < exc@.len() ==> (#[trigger] exc@[k]).text@.len() == 1,
    ensures
        exists|o: Seq<char>| #[trigger]
            is_overlap(o, inc@, exc@) && texts(r@) == all_quoted(singles(o)),
{
    let exc_cps = codepoints_of(exc);
    let mut codes: Vec<u32> = Vec::new();
    let ghost mut found: Seq<char> = Seq::empty();
    let mut quotes: Vec<String> = Vec::new();
    let mut i: usize = 0;
    while i < inc.len()
        invariant
            i <= inc.len(),
            forall|k: int| 0 <= k < inc@.len() ==> (#[trigger] inc@[k]).text@.len() == 1,
            forall|k: int| 0 <= k < exc@.len() ==> (#[trigger] exc@[k]).text@.len() == 1,
            exc_cps@.len() == exc@.len(),
            forall|k: int|
                0 <= k < exc_cps@.len() ==> (#[trigger] exc_cps@[k]) as int
                    == exc@[k].text@[0] as int,
            quotes@.len() == found.len(),
            codes@.len() == found.len(),
            forall|k: int| 0 <= k < found.len() ==> (#[trigger] codes@[k]) as int == found[k] as int,
            forall|k: int|
                0 <= k < found.len() ==> (#[trigger] quotes@[k])@ == quoted(seq![found[k]]),
            is_overlap(found, inc@.take(i as int), exc@),
        decreases inc.len() - i,
    {
        assert(inc@[i as int].text@.len() == 1);
        let c: char = inc[i].text.as_str().get_char(0);
        let code: u32 = c as u32;
        let in_both = codepoint_listed(&exc_cps, code);
        proof {
            lemma_listed(exc@, exc_cps@, code);
            assert(code as int == c as int);
        }
        let ghost before = found;
        let ghost first = inc@.take(i as int);
        let ghost second = inc@.take(i + 1);
        proof {
            assert forall|d: char| lists_char(second, d as int) <==> lists_char(first, d as int)
                || d == c by {
                if lists_char(first, d as int) {
                    let k = choose|k: int|
                        0 <= k < first.len() && (#[trigger] first[k]).text@[0] as int == d as int;
                    assert(second[k] == first[k]);
                }
                if d == c {
                    assert(second[i as int].text@[0] == c);
                }
                if lists_char(second, d as int) {
                    let k = choose|k: int|
                        0 <= k < second.len() && (#[trigger] second[k]).text@[0] as int == d as int;
                    if k < i {
                        assert(first[k] == second[k]);
                    }
                }
            }
        }
        if in_both {
            let at: usize = place_of(&codes, code);
            if at < codes.len() && codes[at] == code {
                proof {
                    assert(before[at as int] == c);
                    assert(before.contains(c));
                    assert forall|d: char| #[trigger] found.contains(d) <==> lists_char(
                        second,
                        d as int,
                    ) && lists_char(exc@, d as int) by {}
                }
            } else {
                proof {
                    assert forall|k: int| 0 <= k < at implies ((#[trigger] before[k]) as int) < (
                    code as int) by {
                        assert(codes@[k] as int == before[k] as int);
                    }
                    if at < before.len() {
                        assert(codes@[at as int] as int == before[at as int] as int);
                        assert(before[at as int] as int > code as int);
                    }
                }
                codes.insert(at, code);
                quotes.insert(at, quote(inc[i].text.as_str()));
                proof {
                    found = found.insert(at as int, c);
                    assert(inc@[i as int].text@ =~= seq![c]);
                    assert forall|x: int, y: int| 0 <= x < y < found.len() implies ((
                    #[trigger] found[x]) as int) < ((#[trigger] found[y]) as int) by {
                        if y < at {
                            assert(found[x] == before[x] && found[y] == before[y]);
                            assert((before[x] as int) < (before[y] as int));
                        } else if y == at {
                            assert(found[x] == before[x]);
                        } else {
                            assert(found[y] == before[y - 1]);
                            if x < at {
                                assert(found[x] == before[x]);
                                assert((before[x] as int) < (before[y - 1] as int));
                            } else if x == at {
                                if at < y - 1 {
                                    assert((before[at as int] as int) < (before[y - 1] as int));
                                }
                                assert(before[at as int] != c);
                            } else {
                                assert(found[x] == before[x - 1]);
                                assert((before[x - 1] as int) < (before[y - 1] as int));
                            }
                        }
                    }
                    assert forall|d: char| #[trigger] found.contains(d) <==> before.contains(d)
                        || d == c by {
                        assert(found[at as int] == c);
                        if before.contains(d) {
                            let k = choose|k: int| 0 <= k < before.len() && before[k] == d;
                            if k < at {
                                assert(found[k] == d);
                            } else {
                                assert(found[k + 1] == d);
                            }
                        }
                        if found.contains(d) {
                            let k = choose|k: int| 0 <= k < found.len() && found[k] == d;
                            if k < at {
                                assert(before[k] == d);
                            } else if k > at {
                                assert(before[k - 1] == d);
                            }
                        }
                    }
                }
            }
        } else {
            proof {
                assert forall|d: char| #[trigger] found.contains(d) <==> lists_char(
                    second,
                    d as int,
                ) && lists_char(exc@, d as int) by {}
            }
        }
        i = i + 1;
    }
    proof {
        assert(inc@.take(i as int) =~= inc@);
        assert(texts(quotes@) =~= all_quoted(singles(found)));
    }
    quotes
}

impl CharactersError {
    /// What is said of the mistake that is in the arguments.
    pub fn message(self, a: &CharacterArgs, map: &Charmap) -> (m: String)
        requires
            lists_fault(*a) == Some(self) || (lists_fault(*a) is None && categories_fault(
                *a,
                *map,
                self,
            )),
        ensures
            error_text(self, *a, m@),
    {
        let mut m = String::new();
        match self {
            CharactersError::CodepointsCrossed => {
                if let (Some(lo), Some(hi)) = (a.min_codepoint, a.max_codepoint) {
                    m.append("min_codepoint=");
                    push_number(&mut m, &Int::of(lo));
                    m.append(" is greater than max_codepoint=");
                    push_number(&mut m, &Int::of(hi));
                    assert(m@ =~= "min_codepoint="@ + decimal(lo as int)
                        + " is greater than max_codepoint="@ + decimal(hi as int));
                }
                m
            },
            CharactersError::BothCategories => {
                m.append(
                    "Pass at most one of categories and exclude_categories - these arguments both specify which categories are allowed, so it doesn't make sense to use both in a single call.",
                );
                assert(m@
                    =~= "Pass at most one of categories and exclude_categories - these arguments both specify which categories are allowed, so it doesn't make sense to use both in a single call."@);
                m
            },
            CharactersError::NothingExcluded => {
                m.append(
                    "Nothing is excluded by other arguments, so passing only include_characters=",
                );
                push_list(&mut m, &a.added);
                m.append(" would have no effect.  Also pass categories=(), or use sampled_from(");
                push_list(&mut m, &a.added);
                m.append(") instead.");
                assert(m@
                    =~= "Nothing is excluded by other arguments, so passing only include_characters="@
                    + list_text(a.added)
                    + " would have no effect.  Also pass categories=(), or use sampled_from("@
                    + list_text(a.added) + ") instead."@);
                m
            },
            CharactersError::IncludeNotSingle(k) => {
                match &a.added {
                    Some(l) => {
                        let _count: usize = l.elems.len();
                        proof {
                            lemma_not_single(l.elems@, 0);
                        }
                        say_not_single("include_characters", l.elems[k].text.as_str(), &a.added)
                    },
                    None => m,
                }
            },
            CharactersError::ExcludeNotSingle(k) => {
                match &a.removed {
                    Some(l) => {
                        let _count: usize = l.elems.len();
                        proof {
                            lemma_not_single(l.elems@, 0);
                        }
                        say_not_single("exclude_characters", l.elems[k].text.as_str(), &a.removed)
                    },
                    None => m,
                }
            },
            CharactersError::Overlap => {
                proof {
                    lemma_all_single(elems_of(a.added), 0);
                    lemma_all_single(elems_of(a.removed), 0);
                }
                match (&a.added, &a.removed) {
                    (Some(l), Some(k)) => {
                        let both = list_overlap(&l.elems, &k.elems);
                        let listed = join(&both);
                        m.append("Characters [");
                        m.append(listed.as_str());
                        m.append("] are present in both include_characters=");
                        push_list(&mut m, &a.added);
                        m.append(" and exclude_characters=");
                        push_list(&mut m, &a.removed);
                        assert(m@ =~= "Characters ["@ + listed@
                            + "] are present in both include_characters="@ + list_text(a.added)
                            + " and exclude_characters="@ + list_text(a.removed));
                        m
                    },
                    _ => m,
                }
            },
            CharactersError::NotEncodable(k) => {
                if let (Some(l), Some(c)) = (&a.added, &a.codec) {
                    let _count: usize = l.elems.len();
                    proof {
                        lemma_not_encodable(l.elems@, 0);
                    }
                    m.append("Character ");
                    m.append(l.elems[k].shown.as_str());
                    m.append(" in include_characters=");
                    push_list(&mut m, &a.added);
                    m.append(" cannot be encoded with codec=");
                    m.append(c.shown.as_str());
                    assert(m@ =~= "Character "@ + l.elems@[k as int].shown@
                        + " in include_characters="@ + list_text(a.added)
                        + " cannot be encoded with codec="@ + c.shown@);
                }
                m
            },
            CharactersError::UnknownCategory(k) => match &a.categories {
                Some(cats) => say_unknown("categories", cats, k),
                None => m,
            },
            CharactersError::UnknownExcluded(k) => match &a.exclude_categories {
                Some(cats) => say_unknown("exclude_categories", cats, k),
                None => m,
            },
            CharactersError::NothingNamed => {
                m.append(
                    "When `categories` is an empty collection and there are no characters specified in include_characters, nothing can be generated by the characters() strategy.",
                );
                assert(m@
                    =~= "When `categories` is an empty collection and there are no characters specified in include_characters, nothing can be generated by the characters() strategy."@);
                m
            },
            CharactersError::NothingLeft => {
                let parts = say_left(a);
                let listed = join(&parts);
                m.append(
                    "No characters are allowed to be generated by this combination of arguments: ",
                );
                m.append(listed.as_str());
                assert(m@
                    =~= "No characters are allowed to be generated by this combination of arguments: "@
                    + listed@);
                m
            },
        }
    }
}

proof fn lemma_not_single(elems: Seq<CharElement>, k: int)
    requires
        0 <= k,
        elems.len() <= usize::MAX,
    ensures
        first_not_single(elems, k) is Some ==> first_not_single(elems, k)->0 < elems.len(),
    decreases elems.len() - k,
{
    if k < elems.len() && elems[k].text@.len() == 1 {
        lemma_not_single(elems, k + 1);
    }
}

proof fn lemma_all_single(elems: Seq<CharElement>, k: int)
    requires
        0 <= k,
    ensures
        first_not_single(elems, k) is None ==> forall|j: int|
            k <= j < elems.len() ==> (#[trigger] elems[j]).text@.len() == 1,
    decreases elems.len() - k,
{
    if k < elems.len() && elems[k].text@.len() == 1 {
        lemma_all_single(elems, k + 1);
    }
}

proof fn lemma_not_encodable(elems: Seq<CharElement>, k: int)
    requires
        0 <= k,
        elems.len() <= usize::MAX,
    ensures
        first_not_encodable(elems, k) is Some ==> first_not_encodable(elems, k)->0 < elems.len(),
    decreases elems.len() - k,
{
    if k < elems.len() && elems[k].encodable {
        lemma_not_encodable(elems, k + 1);
    }
}

pub(crate) fn bound_part(name: &str, n: i64) -> (r: String)
    ensures
        r@ == name@ + decimal(n as int),
{
    let mut m = String::new();
    m.append(name);
    push_number(&mut m, &Int::of(n));
    assert(m@ =~= name@ + decimal(n as int));
    m
}

pub(crate) fn list_part(name: &str, list: &Option<CharList>) -> (r: String)
    ensures
        r@ == name@ + list_text(*list),
{
    let mut m = String::new();
    m.append(name);
    push_list(&mut m, list);
    assert(m@ =~= name@ + list_text(*list));
    m
}

pub(crate) fn push_part(parts: &mut Vec<String>, part: String)
    ensures
        texts(final(parts)@) == texts(old(parts)@).push(part@),
{
    let ghost before = parts@;
    parts.push(part);
    assert(texts(parts@) =~= texts(before).push(part@));
}

fn say_left(a: &CharacterArgs) -> (r: Vec<String>)
    ensures
        texts(r@) == left_parts(*a),
{
    let mut parts: Vec<String> = Vec::new();
    assert(texts(parts@) =~= Seq::<Seq<char>>::empty());
    if let Some(n) = a.min_codepoint {
        push_part(&mut parts, bound_part("min_codepoint=", n));
    }
    if let Some(n) = a.max_codepoint {
        push_part(&mut parts, bound_part("max_codepoint=", n));
    }
    if let Some(l) = &a.removed {
        if l.elems.len() > 0 {
            push_part(&mut parts, list_part("exclude_characters=", &a.removed));
        }
    }
    if a.added.is_some() {
        push_part(&mut parts, list_part("include_characters=", &a.added));
    }
    parts
}

// ---- what characters there are ----------------------------------------------

/// The characters of an alphabet are those included by name, and those of an allowed category
/// that are within the bounds and not excluded by name. With ASCII none is above 127, without
/// categories none is a surrogate, and with them it is of one of those named.
pub proof fn characters_keep_to_their_arguments(a: CharacterArgs, map: Charmap, x: int)
    ensures
        lists_char(elems_of(a.added), x) ==> character_allowed(a, map, x),
        !lists_char(elems_of(a.added), x) && character_allowed(a, map, x) ==> {
            &&& !lists_char(elems_of(a.removed), x)
            &&& a.min_codepoint is Some ==> a.min_codepoint->0 <= x
            &&& a.max_codepoint is Some ==> x <= a.max_codepoint->0
            &&& 0 <= lowest(a) || a.min_codepoint is Some
            &&& a.codec is Some && a.codec->0.name@ == "ascii"@ ==> x <= 127
            &&& exists|i: u8|
                {
                    &&& #[trigger] map.of_category(i as int, x)
                    &&& a.categories is None ==> i != 27 && i < 30
                    &&& a.categories is Some ==> expanded(texts(a.categories->0@)).contains(i)
                    &&& a.categories is None && a.exclude_categories is Some ==> !expanded(
                        texts(a.exclude_categories->0@),
                    ).contains(i)
                }
        },
{
    if !lists_char(elems_of(a.added), x) && character_allowed(a, map, x) {
        let i = choose|i: u8| category_allowed(a, i) && #[trigger] map.of_category(i as int, x);
        assert(map.of_category(i as int, x));
    }
}

/// Every character of an allowed category comes up, unless it is out of bounds or excluded by
/// name.
pub proof fn allowed_characters_come_up(a: CharacterArgs, map: Charmap, x: int, i: u8)
    requires
        map.of_category(i as int, x),
        0 <= x <= 0x10FFFF,
        a.min_codepoint is Some ==> a.min_codepoint->0 <= x,
        a.max_codepoint is Some ==> x <= a.max_codepoint->0,
        a.codec is Some && a.codec->0.name@ == "ascii"@ ==> x <= 127,
        !lists_char(elems_of(a.removed), x),
        a.categories is Some ==> expanded(texts(a.categories->0@)).contains(i),
        a.categories is None ==> i != 27 && i < 30 && (a.exclude_categories is Some ==> !expanded(
            texts(a.exclude_categories->0@),
        ).contains(i)),
    ensures
        character_allowed(a, map, x),
{
    assert(category_allowed(a, i));
}

} // verus!
