//! The general categories of characters.
use crate::choice::CODEPOINT_LIMIT;
use crate::intervalset::{
    covers, intervals_valid, lemma_between_fits, lemma_covers_concat, IntervalSet,
};
use crate::words::{same_str, texts};
use vstd::prelude::*;
use vstd::string::StrSliceExecFns;

verus! {

/// How many categories there are.
pub const CATEGORY_COUNT: u8 = 30;

/// The category of surrogates.
pub const SURROGATES: u8 = 27;

/// The name of a category.
pub open spec fn category_text(i: int) -> Seq<char> {
    if i == 0 {
        "Lu"@
    } else if i == 1 {
        "Ll"@
    } else if i == 2 {
        "Lt"@
    } else if i == 3 {
        "Lm"@
    } else if i == 4 {
        "Lo"@
    } else if i == 5 {
        "Mn"@
    } else if i == 6 {
        "Mc"@
    } else if i == 7 {
        "Me"@
    } else if i == 8 {
        "Nd"@
    } else if i == 9 {
        "Nl"@
    } else if i == 10 {
        "No"@
    } else if i == 11 {
        "Pc"@
    } else if i == 12 {
        "Pd"@
    } else if i == 13 {
        "Ps"@
    } else if i == 14 {
        "Pe"@
    } else if i == 15 {
        "Pi"@
    } else if i == 16 {
        "Pf"@
    } else if i == 17 {
        "Po"@
    } else if i == 18 {
        "Sm"@
    } else if i == 19 {
        "Sc"@
    } else if i == 20 {
        "Sk"@
    } else if i == 21 {
        "So"@
    } else if i == 22 {
        "Zs"@
    } else if i == 23 {
        "Zl"@
    } else if i == 24 {
        "Zp"@
    } else if i == 25 {
        "Cc"@
    } else if i == 26 {
        "Cf"@
    } else if i == 27 {
        "Cs"@
    } else if i == 28 {
        "Co"@
    } else {
        "Cn"@
    }
}

/// The name of a category.
pub fn category_name(i: u8) -> (r: &'static str)
    ensures
        r@ == category_text(i as int),
        r@.len() == 2,
{
    proof {
        reveal_strlit("Lu");
        reveal_strlit("Ll");
        reveal_strlit("Lt");
        reveal_strlit("Lm");
        reveal_strlit("Lo");
        reveal_strlit("Mn");
        reveal_strlit("Mc");
        reveal_strlit("Me");
        reveal_strlit("Nd");
        reveal_strlit("Nl");
        reveal_strlit("No");
        reveal_strlit("Pc");
        reveal_strlit("Pd");
        reveal_strlit("Ps");
        reveal_strlit("Pe");
        reveal_strlit("Pi");
        reveal_strlit("Pf");
        reveal_strlit("Po");
        reveal_strlit("Sm");
        reveal_strlit("Sc");
        reveal_strlit("Sk");
        reveal_strlit("So");
        reveal_strlit("Zs");
        reveal_strlit("Zl");
        reveal_strlit("Zp");
        reveal_strlit("Cc");
        reveal_strlit("Cf");
        reveal_strlit("Cs");
        reveal_strlit("Co");
        reveal_strlit("Cn");
    }
    if i == 0 {
        "Lu"
    } else if i == 1 {
        "Ll"
    } else if i == 2 {
        "Lt"
    } else if i == 3 {
        "Lm"
    } else if i == 4 {
        "Lo"
    } else if i == 5 {
        "Mn"
    } else if i == 6 {
        "Mc"
    } else if i == 7 {
        "Me"
    } else if i == 8 {
        "Nd"
    } else if i == 9 {
        "Nl"
    } else if i == 10 {
        "No"
    } else if i == 11 {
        "Pc"
    } else if i == 12 {
        "Pd"
    } else if i == 13 {
        "Ps"
    } else if i == 14 {
        "Pe"
    } else if i == 15 {
        "Pi"
    } else if i == 16 {
        "Pf"
    } else if i == 17 {
        "Po"
    } else if i == 18 {
        "Sm"
    } else if i == 19 {
        "Sc"
    } else if i == 20 {
        "Sk"
    } else if i == 21 {
        "So"
    } else if i == 22 {
        "Zs"
    } else if i == 23 {
        "Zl"
    } else if i == 24 {
        "Zp"
    } else if i == 25 {
        "Cc"
    } else if i == 26 {
        "Cf"
    } else if i == 27 {
        "Cs"
    } else if i == 28 {
        "Co"
    } else {
        "Cn"
    }
}

/// The category with a name, among the first `n`.
pub open spec fn category_index(s: Seq<char>, n: int) -> Option<u8>
    decreases n,
{
    if n <= 0 {
        None
    } else if category_text(n - 1) == s {
        Some((n - 1) as u8)
    } else {
        category_index(s, n - 1)
    }
}

/// Finds a category by its name.
pub fn find_category(s: &str) -> (r: Option<u8>)
    ensures
        r == category_index(s@, CATEGORY_COUNT as int),
        r is Some ==> r->0 < CATEGORY_COUNT,
{
    let mut found: Option<u8> = None;
    let mut i: u8 = 0;
    while i < CATEGORY_COUNT
        invariant
            i <= CATEGORY_COUNT,
            found == category_index(s@, i as int),
            found is Some ==> found->0 < CATEGORY_COUNT,
        decreases CATEGORY_COUNT - i,
    {
        if same_str(category_name(i), s) {
            found = Some(i);
        }
        i = i + 1;
    }
    found
}

/// One letter for a group of categories.
pub open spec fn is_major(s: Seq<char>) -> bool {
    s.len() == 1 && (s[0] == 'L' || s[0] == 'M' || s[0] == 'N' || s[0] == 'P' || s[0] == 'S'
        || s[0] == 'Z' || s[0] == 'C')
}

fn major_letter(s: &str) -> (r: Option<char>)
    ensures
        r == (if is_major(s@) {
            Some(s@[0])
        } else {
            None
        }),
{
    if s.unicode_len() != 1 {
        return None;
    }
    let c: char = s.get_char(0);
    if c == 'L' || c == 'M' || c == 'N' || c == 'P' || c == 'S' || c == 'Z' || c == 'C' {
        Some(c)
    } else {
        None
    }
}

/// Whether a name is that of a category or of a group.
pub fn check_category(s: &str) -> (r: bool)
    ensures
        r == is_category(s@),
{
    major_letter(s).is_some() || find_category(s).is_some()
}

/// A category added at the end, unless it is there already.
pub open spec fn with_category(out: Seq<u8>, i: u8) -> Seq<u8> {
    if out.contains(i) {
        out
    } else {
        out.push(i)
    }
}

/// The categories of a group, out of the first `n`, added.
pub open spec fn with_group(out: Seq<u8>, letter: char, n: int) -> Seq<u8>
    decreases n,
{
    if n <= 0 {
        out
    } else {
        let before = with_group(out, letter, n - 1);
        if category_text(n - 1)[0] == letter {
            with_category(before, (n - 1) as u8)
        } else {
            before
        }
    }
}

/// What names of categories and of groups stand for, each category once and in the
/// order in which it is first named.
pub open spec fn expanded(cats: Seq<Seq<char>>) -> Seq<u8>
    decreases cats.len(),
{
    if cats.len() == 0 {
        Seq::empty()
    } else {
        let before = expanded(cats.drop_last());
        let c = cats.last();
        if is_major(c) {
            with_group(before, c[0], CATEGORY_COUNT as int)
        } else {
            match category_index(c, CATEGORY_COUNT as int) {
                Some(i) => with_category(before, i),
                None => before,
            }
        }
    }
}

/// The name is that of a category or of a group.
pub open spec fn is_category(c: Seq<char>) -> bool {
    is_major(c) || category_index(c, CATEGORY_COUNT as int) is Some
}

/// The name stands for the category.
pub open spec fn names_category(c: Seq<char>, i: u8) -> bool {
    if is_major(c) {
        category_text(i as int)[0] == c[0]
    } else {
        category_index(c, CATEGORY_COUNT as int) == Some(i)
    }
}

/// All names are those of categories or groups.
pub open spec fn all_categories(cats: Seq<Seq<char>>) -> bool {
    forall|k: int| 0 <= k < cats.len() ==> is_category(#[trigger] cats[k])
}

/// The first name that is not that of a category or of a group.
pub open spec fn first_unknown(cats: Seq<Seq<char>>, k: int) -> bool {
    0 <= k < cats.len() && !is_category(cats[k]) && forall|i: int|
        0 <= i < k ==> is_category(#[trigger] cats[i])
}

proof fn lemma_group(out: Seq<u8>, letter: char, n: int, i: u8)
    requires
        n <= CATEGORY_COUNT,
    ensures
        with_group(out, letter, n).contains(i) <==> out.contains(i) || (i < n && category_text(
            i as int,
        )[0] == letter),
    decreases n,
{
    if n > 0 {
        lemma_group(out, letter, n - 1, i);
        let before = with_group(out, letter, n - 1);
        lemma_with_category(before, (n - 1) as u8, i);
    }
}

proof fn lemma_with_category(out: Seq<u8>, new: u8, i: u8)
    ensures
        with_category(out, new).contains(i) <==> out.contains(i) || i == new,
{
    if !out.contains(new) {
        let r = out.push(new);
        assert(r[out.len() as int] == new);
        if out.contains(i) {
            let k = choose|k: int| 0 <= k < out.len() && out[k] == i;
            assert(r[k] == i);
        }
    }
}

/// A list of names stands for exactly the categories that one of them stands for.
pub proof fn expansion_holds_what_is_named(cats: Seq<Seq<char>>, i: u8)
    requires
        i < CATEGORY_COUNT,
    ensures
        expanded(cats).contains(i) <==> exists|k: int|
            0 <= k < cats.len() && names_category(#[trigger] cats[k], i),
    decreases cats.len(),
{
    if cats.len() > 0 {
        let rest = cats.drop_last();
        let c = cats.last();
        expansion_holds_what_is_named(rest, i);
        if is_major(c) {
            lemma_group(expanded(rest), c[0], CATEGORY_COUNT as int, i);
        } else if let Some(new) = category_index(c, CATEGORY_COUNT as int) {
            lemma_with_category(expanded(rest), new, i);
        }
        if expanded(rest).contains(i) {
            let k = choose|k: int| 0 <= k < rest.len() && names_category(#[trigger] rest[k], i);
            assert(cats[k] == rest[k]);
        }
        if names_category(c, i) {
            assert(cats[cats.len() - 1] == c);
        }
        if exists|k: int| 0 <= k < cats.len() && names_category(#[trigger] cats[k], i) {
            let k = choose|k: int| 0 <= k < cats.len() && names_category(#[trigger] cats[k], i);
            if k < rest.len() {
                assert(rest[k] == cats[k]);
            }
        }
    }
}

/// The two letters of a name as one number.
spec fn letters_code(s: Seq<char>) -> int {
    s[0] as int * 1000 + s[1] as int
}

/// The letters of the name of a category as one number.
spec fn category_code(i: int) -> int {
    if i == 0 {
        76117
    } else if i == 1 {
        76108
    } else if i == 2 {
        76116
    } else if i == 3 {
        76109
    } else if i == 4 {
        76111
    } else if i == 5 {
        77110
    } else if i == 6 {
        77099
    } else if i == 7 {
        77101
    } else if i == 8 {
        78100
    } else if i == 9 {
        78108
    } else if i == 10 {
        78111
    } else if i == 11 {
        80099
    } else if i == 12 {
        80100
    } else if i == 13 {
        80115
    } else if i == 14 {
        80101
    } else if i == 15 {
        80105
    } else if i == 16 {
        80102
    } else if i == 17 {
        80111
    } else if i == 18 {
        83109
    } else if i == 19 {
        83099
    } else if i == 20 {
        83107
    } else if i == 21 {
        83111
    } else if i == 22 {
        90115
    } else if i == 23 {
        90108
    } else if i == 24 {
        90112
    } else if i == 25 {
        67099
    } else if i == 26 {
        67102
    } else if i == 27 {
        67115
    } else if i == 28 {
        67111
    } else {
        67110
    }
}

proof fn lemma_category_code(i: int)
    ensures
        category_text(i).len() == 2,
        letters_code(category_text(i)) == category_code(i),
{
    reveal_strlit("Lu");
    reveal_strlit("Ll");
    reveal_strlit("Lt");
    reveal_strlit("Lm");
    reveal_strlit("Lo");
    reveal_strlit("Mn");
    reveal_strlit("Mc");
    reveal_strlit("Me");
    reveal_strlit("Nd");
    reveal_strlit("Nl");
    reveal_strlit("No");
    reveal_strlit("Pc");
    reveal_strlit("Pd");
    reveal_strlit("Ps");
    reveal_strlit("Pe");
    reveal_strlit("Pi");
    reveal_strlit("Pf");
    reveal_strlit("Po");
    reveal_strlit("Sm");
    reveal_strlit("Sc");
    reveal_strlit("Sk");
    reveal_strlit("So");
    reveal_strlit("Zs");
    reveal_strlit("Zl");
    reveal_strlit("Zp");
    reveal_strlit("Cc");
    reveal_strlit("Cf");
    reveal_strlit("Cs");
    reveal_strlit("Co");
    reveal_strlit("Cn");
}

proof fn lemma_codes_differ(i: int, j: int)
    requires
        0 <= i < CATEGORY_COUNT,
        0 <= j < CATEGORY_COUNT,
        category_code(i) == category_code(j),
    ensures
        i == j,
{
}

proof fn lemma_found_by_name(i: int, n: int)
    requires
        0 <= i < n <= CATEGORY_COUNT,
    ensures
        category_index(category_text(i), n) == Some(i as u8),
    decreases n,
{
    if category_text(n - 1) == category_text(i) {
        lemma_category_code(i);
        lemma_category_code(n - 1);
        lemma_codes_differ(i, n - 1);
    } else {
        lemma_found_by_name(i, n - 1);
    }
}

proof fn lemma_group_no_duplicates(out: Seq<u8>, letter: char, n: int)
    requires
        out.no_duplicates(),
        n <= CATEGORY_COUNT,
        forall|k: int| 0 <= k < out.len() ==> (#[trigger] out[k]) < CATEGORY_COUNT,
    ensures
        with_group(out, letter, n).no_duplicates(),
        forall|k: int|
            0 <= k < with_group(out, letter, n).len() ==> (#[trigger] with_group(
                out,
                letter,
                n,
            )[k]) < CATEGORY_COUNT,
    decreases n,
{
    if n > 0 {
        lemma_group_no_duplicates(out, letter, n - 1);
    }
}

proof fn lemma_index_below(s: Seq<char>, n: int)
    requires
        n <= CATEGORY_COUNT,
    ensures
        category_index(s, n) is Some ==> category_index(s, n)->0 < CATEGORY_COUNT,
    decreases n,
{
    if n > 0 {
        lemma_index_below(s, n - 1);
    }
}

/// No category is listed twice among those that names stand for.
pub proof fn expansion_has_no_duplicates(cats: Seq<Seq<char>>)
    ensures
        expanded(cats).no_duplicates(),
        forall|k: int| 0 <= k < expanded(cats).len() ==> (#[trigger] expanded(cats)[k])
            < CATEGORY_COUNT,
    decreases cats.len(),
{
    if cats.len() > 0 {
        expansion_has_no_duplicates(cats.drop_last());
        let before = expanded(cats.drop_last());
        let c = cats.last();
        lemma_index_below(c, CATEGORY_COUNT as int);
        if is_major(c) {
            lemma_group_no_duplicates(before, c[0], CATEGORY_COUNT as int);
        }
    }
}

/// The names of categories.
pub open spec fn names_of(s: Seq<u8>) -> Seq<Seq<char>> {
    s.map_values(|i: u8| category_text(i as int))
}

proof fn lemma_names_stand_for_themselves(s: Seq<u8>)
    requires
        s.no_duplicates(),
        forall|k: int| 0 <= k < s.len() ==> (#[trigger] s[k]) < CATEGORY_COUNT,
    ensures
        expanded(names_of(s)) == s,
    decreases s.len(),
{
    if s.len() == 0 {
        assert(expanded(names_of(s)) =~= s);
    } else {
        let front = s.drop_last();
        let last = s.last();
        assert forall|k: int| 0 <= k < front.len() implies (#[trigger] front[k])
            < CATEGORY_COUNT by {
            assert(front[k] == s[k]);
        }
        assert(s[s.len() - 1] < CATEGORY_COUNT);
        lemma_names_stand_for_themselves(front);
        assert(names_of(s).drop_last() =~= names_of(front));
        assert(names_of(s).last() == category_text(last as int));
        lemma_category_code(last as int);
        lemma_found_by_name(last as int, CATEGORY_COUNT as int);
        assert(!front.contains(last)) by {
            if front.contains(last) {
                let k = choose|k: int| 0 <= k < front.len() && front[k] == last;
                assert(s[k] == s[s.len() - 1]);
            }
        }
        assert(front.push(last) =~= s);
    }
}

/// What names stand for, named one by one, stands for itself.
pub proof fn expansion_expands_to_itself(cats: Seq<Seq<char>>)
    ensures
        expanded(names_of(expanded(cats))) == expanded(cats),
{
    expansion_has_no_duplicates(cats);
    lemma_names_stand_for_themselves(expanded(cats));
}

fn push_category(out: &mut Vec<u8>, i: u8)
    requires
        i < CATEGORY_COUNT,
        forall|k: int| 0 <= k < old(out)@.len() ==> (#[trigger] old(out)@[k]) < CATEGORY_COUNT,
    ensures
        final(out)@ == with_category(old(out)@, i),
        forall|k: int| 0 <= k < final(out)@.len() ==> (#[trigger] final(out)@[k]) < CATEGORY_COUNT,
{
    if !holds(out, i) {
        out.push(i);
    }
}

/// Whether a category is among the given ones.
pub fn holds(list: &Vec<u8>, i: u8) -> (r: bool)
    ensures
        r == list@.contains(i),
{
    let mut k: usize = 0;
    while k < list.len()
        invariant
            k <= list.len(),
            forall|j: int| 0 <= j < k ==> list@[j] != i,
        decreases list.len() - k,
    {
        if list[k] == i {
            return true;
        }
        k = k + 1;
    }
    false
}

/// What is said of a name that is not that of a category.
pub open spec fn unknown_category(name: Seq<char>, orig: Seq<char>, c: Seq<char>) -> Seq<char> {
    "In "@ + name + "="@ + orig + ", '"@ + c + "' is not a valid Unicode category."@
}

/// Expands names of categories and of groups.
pub fn as_general_categories(cats: &Vec<String>, orig_repr: &str, name: &str) -> (r: Result<
    Vec<u8>,
    String,
>)
    ensures
        r is Ok <==> all_categories(texts(cats@)),
        r is Ok ==> r->Ok_0@ == expanded(texts(cats@)) && forall|k: int|
            0 <= k < r->Ok_0@.len() ==> (#[trigger] r->Ok_0@[k]) < CATEGORY_COUNT,
        r is Err ==> exists|k: int| #[trigger]
            first_unknown(texts(cats@), k) && r->Err_0@ == unknown_category(
                name@,
                orig_repr@,
                cats@[k]@,
            ),
{
    let mut out: Vec<u8> = Vec::new();
    let ghost all = texts(cats@);
    let mut n: usize = 0;
    assert(out@ =~= Seq::<u8>::empty());
    assert(all.take(0) =~= Seq::<Seq<char>>::empty());
    while n < cats.len()
        invariant
            n <= cats.len(),
            all == texts(cats@),
            out@ == expanded(all.take(n as int)),
            forall|k: int| 0 <= k < n ==> is_category(#[trigger] all[k]),
            forall|k: int| 0 <= k < out@.len() ==> (#[trigger] out@[k]) < CATEGORY_COUNT,
        decreases cats.len() - n,
    {
        let c = cats[n].as_str();
        proof {
            assert(all.take(n + 1).drop_last() =~= all.take(n as int));
            assert(all.take(n + 1).last() == c@);
            assert(all[n as int] == c@);
        }
        if let Some(letter) = major_letter(c) {
            let ghost before = out@;
            let mut i: u8 = 0;
            while i < CATEGORY_COUNT
                invariant
                    i <= CATEGORY_COUNT,
                    out@ == with_group(before, letter, i as int),
                    forall|k: int| 0 <= k < out@.len() ==> (#[trigger] out@[k]) < CATEGORY_COUNT,
                decreases CATEGORY_COUNT - i,
            {
                if category_name(i).get_char(0) == letter {
                    push_category(&mut out, i);
                }
                i = i + 1;
            }
        } else {
            match find_category(c) {
                Some(i) => push_category(&mut out, i),
                None => {
                    let mut msg = String::new();
                    msg.append("In ");
                    msg.append(name);
                    msg.append("=");
                    msg.append(orig_repr);
                    msg.append(", '");
                    msg.append(c);
                    msg.append("' is not a valid Unicode category.");
                    assert(msg@ =~= unknown_category(name@, orig_repr@, c@));
                    assert(first_unknown(all, n as int));
                    return Err(msg);
                },
            }
        }
        n = n + 1;
    }
    assert(all.take(n as int) =~= all);
    Ok(out)
}

/// The characters of each category. There are some besides surrogates.
#[derive(Debug)]
pub struct Charmap {
    ranges: Vec<Vec<(i64, i64)>>,
}

/// Intervals of codepoints, none of them empty.
pub open spec fn codepoint_ranges(s: Seq<(i64, i64)>) -> bool {
    forall|k: int| 0 <= k < s.len() ==> 0 <= (#[trigger] s[k]).0 <= s[k].1 < CODEPOINT_LIMIT
}

/// Ranges for each category, with some besides surrogates.
pub open spec fn charmap_ok(ranges: Seq<Vec<(i64, i64)>>) -> bool {
    &&& ranges.len() == CATEGORY_COUNT
    &&& forall|i: int| 0 <= i < ranges.len() ==> codepoint_ranges((#[trigger] ranges[i])@)
    &&& exists|i: int|
        0 <= i < ranges.len() && i != SURROGATES && (#[trigger] ranges[i])@.len() > 0
}

impl Charmap {
    #[verifier::type_invariant]
    spec fn in_order(&self) -> bool {
        charmap_ok(self.ranges@)
    }

    /// There are ranges for each category, with some besides surrogates.
    pub closed spec fn valid(&self) -> bool {
        charmap_ok(self.ranges@)
    }

    /// Every map is valid.
    pub(crate) fn know_valid(&self)
        ensures
            self.valid(),
    {
        proof {
            use_type_invariant(self);
        }
    }

    /// A codepoint is of a category.
    pub closed spec fn of_category(&self, i: int, x: int) -> bool {
        0 <= i < self.ranges@.len() && covers(self.ranges@[i]@, x)
    }

    /// A codepoint is of one of the categories.
    pub open spec fn of_any(&self, allowed: Seq<u8>, x: int) -> bool {
        exists|k: int| 0 <= k < allowed.len() && self.of_category((#[trigger] allowed[k]) as int, x)
    }

    /// A map from categories to ranges of characters.
    pub fn new(ranges: Vec<Vec<(i64, i64)>>) -> (r: Option<Charmap>)
        ensures
            r is Some <==> charmap_ok(ranges@),
            r is Some ==> forall|i: int, x: int|
                0 <= i < ranges@.len() ==> (#[trigger] r->0.of_category(i, x) <==> covers(
                    ranges@[i]@,
                    x,
                )),
    {
        if ranges.len() != CATEGORY_COUNT as usize {
            return None;
        }
        let mut some = false;
        let mut i: usize = 0;
        while i < ranges.len()
            invariant
                i <= ranges.len(),
                forall|k: int| 0 <= k < i ==> codepoint_ranges((#[trigger] ranges@[k])@),
                some <==> exists|k: int|
                    0 <= k < i && k != SURROGATES && (#[trigger] ranges@[k])@.len() > 0,
            decreases ranges.len() - i,
        {
            let part = &ranges[i];
            let mut j: usize = 0;
            while j < part.len()
                invariant
                    j <= part.len(),
                    i < ranges.len(),
                    part@ == ranges@[i as int]@,
                    forall|k: int|
                        0 <= k < j ==> 0 <= (#[trigger] part@[k]).0 <= part@[k].1
                            < CODEPOINT_LIMIT,
                decreases part.len() - j,
            {
                let (lo, hi) = part[j];
                if !(0 <= lo && lo <= hi && hi < CODEPOINT_LIMIT as i64) {
                    assert(!codepoint_ranges(ranges@[i as int]@));
                    return None;
                }
                j = j + 1;
            }
            assert(codepoint_ranges(ranges@[i as int]@));
            if i != SURROGATES as usize && part.len() > 0 {
                some = true;
                assert(ranges@[i as int]@.len() > 0);
            }
            i = i + 1;
        }
        if some {
            Some(Charmap { ranges })
        } else {
            None
        }
    }

    /// Every character is a codepoint, and some are not surrogates.
    pub proof fn lemma_characters(&self)
        requires
            self.valid(),
        ensures
            forall|i: int, x: int| #[trigger] self.of_category(i, x) ==> 0 <= x < CODEPOINT_LIMIT,
            exists|i: int, x: int|
                0 <= i < CATEGORY_COUNT && i != SURROGATES && #[trigger] self.of_category(i, x),
    {
        assert forall|i: int, x: int| #[trigger] self.of_category(i, x) implies 0 <= x
            < CODEPOINT_LIMIT by {
            let s = self.ranges@[i]@;
            assert(codepoint_ranges(s));
            let k = choose|k: int| 0 <= k < s.len() && (#[trigger] s[k]).0 <= x <= s[k].1;
            assert(0 <= s[k].0);
        }
        let i = choose|i: int|
            0 <= i < self.ranges@.len() && i != SURROGATES && (#[trigger] self.ranges@[i])@.len()
                > 0;
        let s = self.ranges@[i]@;
        assert(codepoint_ranges(s));
        assert(s[0].0 <= s[0].0 <= s[0].1);
        assert(self.of_category(i, s[0].0 as int));
    }

    /// The characters of some categories together.
    pub fn intervals_for_categories(&self, allowed: &Vec<u8>) -> (r: IntervalSet)
        ensures
            r.wf(),
            r.normal(),
            forall|x: int| #[trigger] r.has(x) <==> self.of_any(allowed@, x),
    {
        proof {
            use_type_invariant(self);
        }
        let mut all: Vec<(i64, i64)> = Vec::new();
        let mut n: usize = 0;
        while n < allowed.len()
            invariant
                n <= allowed.len(),
                charmap_ok(self.ranges@),
                codepoint_ranges(all@),
                forall|x: int| #[trigger]
                    covers(all@, x) <==> self.of_any(allowed@.take(n as int), x),
            decreases allowed.len() - n,
        {
            let ghost before = all@;
            let c: usize = allowed[n] as usize;
            if c < self.ranges.len() {
                let part = &self.ranges[c];
                let mut j: usize = 0;
                while j < part.len()
                    invariant
                        j <= part.len(),
                        codepoint_ranges(part@),
                        codepoint_ranges(all@),
                        all@ == before + part@.take(j as int),
                    decreases part.len() - j,
                {
                    let p = part[j];
                    all.push(p);
                    proof {
                        assert(all@ =~= before + part@.take(j + 1));
                    }
                    j = j + 1;
                }
                proof {
                    assert(part@.take(j as int) =~= part@);
                    assert forall|x: int| #[trigger] covers(all@, x) <==> self.of_any(
                        allowed@.take(n + 1),
                        x,
                    ) by {
                        lemma_covers_concat(before, part@, x);
                        self.lemma_one_more(allowed@, n as int, x);
                    }
                }
            } else {
                proof {
                    assert forall|x: int| #[trigger] covers(all@, x) <==> self.of_any(
                        allowed@.take(n + 1),
                        x,
                    ) by {
                        self.lemma_one_more(allowed@, n as int, x);
                    }
                }
            }
            n = n + 1;
        }
        proof {
            assert(allowed@.take(n as int) =~= allowed@);
            assert(intervals_valid(all@)) by {
                assert forall|k: int| 0 <= k < all@.len() implies 0 <= (#[trigger] all@[k]).0
                    <= all@[k].1 < CODEPOINT_LIMIT by {}
            }
            lemma_between_fits(all@, 0, CODEPOINT_LIMIT as int);
        }
        IntervalSet::of_intervals(all)
    }

    proof fn lemma_one_more(&self, allowed: Seq<u8>, n: int, x: int)
        requires
            0 <= n < allowed.len(),
        ensures
            self.of_any(allowed.take(n + 1), x) <==> self.of_any(allowed.take(n), x)
                || self.of_category(allowed[n] as int, x),
    {
        let a = allowed.take(n);
        let b = allowed.take(n + 1);
        if self.of_any(a, x) {
            let k = choose|k: int| 0 <= k < a.len() && self.of_category((#[trigger] a[k]) as int, x);
            assert(b[k] == a[k]);
        }
        if self.of_category(allowed[n] as int, x) {
            assert(b[n] == allowed[n]);
        }
        if self.of_any(b, x) {
            let k = choose|k: int| 0 <= k < b.len() && self.of_category((#[trigger] b[k]) as int, x);
            if k < n {
                assert(a[k] == b[k]);
            }
        }
    }
}

} // verus!
