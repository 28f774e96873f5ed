use hypothesis_fast::alphabet::{
    build_intervals, characters, characters_force_repr, check_codec, default_alphabet, emails,
    regex_alphabet_intervals, resolve_alphabet_iset, text, validate_alphabet_char, warn_codec,
    AlphabetArg, CharItem, CodecArg,
};
use hypothesis_fast::arguments::SizeArg;
use hypothesis_fast::charmap::{
    as_general_categories, category_name, find_category, Charmap, CATEGORY_COUNT, SURROGATES,
};
use hypothesis_fast::charset::{
    build_characters_intervals, coerce_codepoint, merge_deprecated_arg, to_str_list, CharElement,
    CharList, CharacterArgs, CharactersError, Codec,
};
use hypothesis_fast::nodes::Names;
use hypothesis_fast::strategy::{Atom, StrategyNode};
use hypothesis_fast::words::{join, same_str, show_tuple};

/// A small world: upper-case letters, lower-case letters, digits and surrogates.
fn charmap() -> Charmap {
    let mut ranges: Vec<Vec<(i64, i64)>> = vec![vec![]; 30];
    ranges[0] = vec![(65, 90), (0x410, 0x42F)];
    ranges[1] = vec![(97, 122), (0xE0, 0xF6)];
    ranges[8] = vec![(48, 57)];
    ranges[27] = vec![(0xD800, 0xDFFF)];
    Charmap::new(ranges).unwrap()
}

fn args() -> CharacterArgs {
    CharacterArgs {
        min_codepoint: None,
        max_codepoint: None,
        categories: None,
        exclude_categories: None,
        added: None,
        removed: None,
        codec: None,
    }
}

fn strings(v: &[&str]) -> Vec<String> {
    v.iter().map(|s| s.to_string()).collect()
}

fn chars(v: &[&str]) -> Option<CharList> {
    Some(CharList {
        shown: format!("'{}'", v.concat()),
        elems: v
            .iter()
            .map(|s| CharElement {
                text: s.to_string(),
                shown: format!("'{s}'"),
                encodable: s.is_ascii(),
            })
            .collect(),
        empty_text: v.is_empty(),
    })
}

fn codec(name: &str) -> Option<Codec> {
    Some(Codec {
        name: name.to_string(),
        shown: format!("\"{name}\""),
        canonical: name.to_string(),
    })
}

fn names() -> Names {
    Names { objects: vec!["'x'".to_string(), "'yz'".to_string(), "7".to_string()],
        types: vec![], functions: vec![] }
}

fn host_strings() -> Vec<Option<String>> {
    vec![Some("x".to_string()), Some("yz".to_string()), None]
}

fn fault(a: &CharacterArgs) -> (CharactersError, String) {
    let map = charmap();
    let e = build_characters_intervals(a, &map).err().unwrap();
    (e, e.message(a, &map))
}

#[test]
fn categories_have_names() {
    assert_eq!(category_name(0), "Lu");
    assert_eq!(category_name(SURROGATES), "Cs");
    assert_eq!(category_name(CATEGORY_COUNT - 1), "Cn");
    assert_eq!(find_category("Nd"), Some(8));
    assert_eq!(find_category("Xx"), None);
}

#[test]
fn groups_of_categories_are_expanded() {
    let r = as_general_categories(&strings(&["N", "Lu", "Nd", "L"]), "x", "categories").unwrap();
    assert_eq!(r, vec![8, 9, 10, 0, 1, 2, 3, 4]);
    let named: Vec<&str> = r.iter().map(|i| category_name(*i)).collect();
    assert_eq!(as_general_categories(&strings(&named), "x", "categories").unwrap(), r);
    let e = as_general_categories(&strings(&["Nd", "Q"]), "('Nd', 'Q')", "categories");
    assert_eq!(
        e.err().unwrap(),
        "In categories=('Nd', 'Q'), 'Q' is not a valid Unicode category."
    );
}

#[test]
fn maps_of_characters_are_checked() {
    assert!(Charmap::new(vec![]).is_none());
    let mut only_surrogates: Vec<Vec<(i64, i64)>> = vec![vec![]; 30];
    only_surrogates[27] = vec![(0xD800, 0xDFFF)];
    assert!(Charmap::new(only_surrogates).is_none());
    let mut outside: Vec<Vec<(i64, i64)>> = vec![vec![]; 30];
    outside[0] = vec![(0, 0x110000)];
    assert!(Charmap::new(outside).is_none());
    let s = charmap().intervals_for_categories(&vec![8, 0]);
    assert_eq!(s.intervals, vec![(48, 57), (65, 90), (0x410, 0x42F)]);
}

#[test]
fn characters_are_chosen_by_category_and_bounds() {
    let map = charmap();
    let all = build_characters_intervals(&args(), &map).unwrap();
    assert!(!all.contains_cp(0xD800));
    assert!(all.contains_cp(48) && all.contains_cp(0x42F));
    let mut a = args();
    a.categories = Some(strings(&["Nd"]));
    a.min_codepoint = Some(50);
    a.removed = chars(&["7"]);
    a.added = chars(&["A"]);
    let s = build_characters_intervals(&a, &map).unwrap();
    assert_eq!(s.intervals, vec![(50, 54), (56, 57), (65, 65)]);
    let mut a = args();
    a.exclude_categories = Some(strings(&["L"]));
    assert_eq!(build_characters_intervals(&a, &map).unwrap().intervals, vec![(48, 57)]);
    let mut a = args();
    a.codec = codec("ascii");
    let s = build_characters_intervals(&a, &map).unwrap();
    assert_eq!(s.intervals, vec![(48, 57), (65, 90), (97, 122)]);
}

#[test]
fn mistaken_characters_are_refused() {
    let mut a = args();
    a.min_codepoint = Some(9);
    a.max_codepoint = Some(3);
    assert_eq!(fault(&a).0, CharactersError::CodepointsCrossed);
    assert_eq!(fault(&a).1, "min_codepoint=9 is greater than max_codepoint=3");
    let mut a = args();
    a.categories = Some(vec![]);
    a.exclude_categories = Some(vec![]);
    assert_eq!(fault(&a).0, CharactersError::BothCategories);
    let mut a = args();
    a.added = chars(&["x"]);
    assert_eq!(fault(&a).0, CharactersError::NothingExcluded);
    assert!(fault(&a).1.contains("include_characters='x' would have no effect."));
    let mut a = args();
    a.max_codepoint = Some(90);
    a.added = chars(&["ab"]);
    assert_eq!(fault(&a).0, CharactersError::IncludeNotSingle(0));
    assert_eq!(
        fault(&a).1,
        "Elements of include_characters are required to be a single character, but ['ab'] passed \
         in include_characters='ab' was not."
    );
    let mut a = args();
    a.removed = chars(&["x", ""]);
    assert_eq!(fault(&a).0, CharactersError::ExcludeNotSingle(1));
    let mut a = args();
    a.max_codepoint = Some(90);
    a.added = chars(&["c", "a", "b", "a"]);
    a.removed = chars(&["a", "c"]);
    assert_eq!(fault(&a).0, CharactersError::Overlap);
    assert_eq!(
        fault(&a).1,
        "Characters ['a', 'c'] are present in both include_characters='caba' and \
         exclude_characters='ac'"
    );
    let mut a = args();
    a.codec = codec("ascii");
    a.added = chars(&["\u{e9}"]);
    assert_eq!(fault(&a).0, CharactersError::NotEncodable(0));
    assert!(fault(&a).1.ends_with("cannot be encoded with codec=\"ascii\""));
    let mut a = args();
    a.categories = Some(strings(&["Q"]));
    assert_eq!(fault(&a).0, CharactersError::UnknownCategory(0));
    assert_eq!(fault(&a).1, "In categories=('Q',), 'Q' is not a valid Unicode category.");
    let mut a = args();
    a.exclude_categories = Some(strings(&["Lu", "Q"]));
    assert_eq!(fault(&a).0, CharactersError::UnknownExcluded(1));
    let mut a = args();
    a.categories = Some(vec![]);
    assert_eq!(fault(&a).0, CharactersError::NothingNamed);
    let mut a = args();
    a.min_codepoint = Some(0x500);
    a.removed = chars(&["x"]);
    assert_eq!(fault(&a).0, CharactersError::NothingLeft);
    assert_eq!(
        fault(&a).1,
        "No characters are allowed to be generated by this combination of arguments: \
         min_codepoint=1280, exclude_characters='x'"
    );
}

#[test]
fn characters_are_shown_by_their_arguments() {
    assert_eq!(characters_force_repr(&args()), "characters()");
    let mut a = args();
    a.min_codepoint = Some(3);
    a.categories = Some(strings(&["Nd"]));
    a.removed = chars(&["x"]);
    a.added = chars(&[]);
    assert_eq!(
        characters_force_repr(&a),
        "characters(min_codepoint=3, categories=('Nd',), exclude_characters='x')"
    );
    let mut a = args();
    a.codec = codec("ascii");
    assert_eq!(characters_force_repr(&a), "characters(max_codepoint=127)");
    let mut a = args();
    a.codec = codec("utf-8");
    assert_eq!(characters_force_repr(&a), "characters(codec='utf-8')");
    let mut a = args();
    a.exclude_categories = Some(strings(&["Cs"]));
    assert_eq!(characters_force_repr(&a), "characters()");
}

#[test]
fn strategies_of_characters_are_made() {
    let map = charmap();
    match characters(&args(), &map) {
        StrategyNode::Characters { alphabet, repr } => {
            assert_eq!(repr, "characters()");
            assert!(alphabet.as_set().contains_cp(48));
        }
        _ => panic!("characters were expected"),
    }
    let mut a = args();
    a.categories = Some(vec![]);
    assert!(matches!(characters(&a, &map), StrategyNode::Invalid { .. }));
}

#[test]
fn arguments_of_characters_are_read() {
    assert_eq!(merge_deprecated_arg(Some(1), None, "a", "b").ok(), Some(Some(1)));
    assert_eq!(merge_deprecated_arg(None, Some(2), "a", "b").ok(), Some(Some(2)));
    assert_eq!(merge_deprecated_arg::<i32>(None, None, "a", "b").ok(), Some(None));
    let e = merge_deprecated_arg(Some(1), Some(2), "categories", "whitelist_categories");
    assert_eq!(
        e.err().unwrap().msg,
        "Cannot pass both categories and the deprecated whitelist_categories."
    );
    assert_eq!(coerce_codepoint(&SizeArg::Number(4), "x").ok(), Some(Some(4)));
    let e = coerce_codepoint(&SizeArg::Number(-4), "min_codepoint").err().unwrap();
    assert_eq!(e.msg, "min_codepoint=-4 must not be negative.");
    let e = coerce_codepoint(&SizeArg::Other("'1'".to_string()), "min_codepoint").err().unwrap();
    assert_eq!(e.msg, "min_codepoint='1' must be an integer.");
    assert_eq!(to_str_list(None), Ok(None));
    assert_eq!(to_str_list(Some(vec![Some("a".to_string()), None])), Err(1));
    assert!(check_codec(CodecArg::Absent).is_ok());
    let e = check_codec(CodecArg::NotText("100".to_string())).err().unwrap();
    assert_eq!(e.msg, "codec=100 must be a string.");
    let e = check_codec(CodecArg::Unknown("\"zz\"".to_string())).err().unwrap();
    assert_eq!(e.msg, "codec=\"zz\" is not a valid codec name.");
}

fn item(t: Option<&str>, shown: &str) -> CharItem {
    CharItem { text: t.map(|s| s.to_string()), shown: shown.to_string() }
}

#[test]
fn alphabets_are_built() {
    let map = charmap();
    let build = |a| build_intervals(a, &map, &host_strings(), &names());
    let r = build(AlphabetArg::Text("cab".to_string())).unwrap();
    assert_eq!(r.as_set().intervals, vec![(97, 99)]);
    let r = build(AlphabetArg::Absent).unwrap();
    assert_eq!(r.as_set().intervals, default_alphabet(&map).as_set().intervals);
    let r = build(AlphabetArg::Items(vec![item(Some("a"), "'a'"), item(Some("z"), "'z'")]));
    assert_eq!(r.unwrap().as_set().intervals, vec![(97, 97), (122, 122)]);
    let e = build(AlphabetArg::Items(vec![item(None, "1"), item(Some("ab"), "'ab'"),
        item(None, "2")]));
    assert_eq!(
        e.err().unwrap().msg,
        "The following elements in alphabet are not unicode strings: [1, 2]"
    );
    let e = build(AlphabetArg::Items(vec![item(Some("ab"), "'ab'")]));
    assert!(e.err().unwrap().msg.ends_with("violating the size contract: ['ab']"));
    let r = build(AlphabetArg::Strategy(StrategyNode::Just(Atom::Host(0)))).unwrap();
    assert_eq!(r.as_set().intervals, vec![(120, 120)]);
    let e = build(AlphabetArg::Strategy(StrategyNode::SampledFrom {
        elements: vec![Atom::Host(0), Atom::Host(1)],
        is_tuple: false,
    }));
    assert!(e.err().unwrap().msg.ends_with("violating the size contract: ['yz']"));
    assert_eq!(validate_alphabet_char(&item(Some("A"), "'A'")).ok(), Some(65));
    assert!(validate_alphabet_char(&item(None, "1")).is_err());
}

#[test]
fn strings_are_made_over_alphabets() {
    let map = charmap();
    let none = SizeArg::Absent;
    let r = text(AlphabetArg::Absent, &none, &SizeArg::Number(3), &map, &vec![], &names());
    assert!(matches!(r, Ok(StrategyNode::Text { min: 0, max: 3, .. })));
    let empty = AlphabetArg::Text(String::new());
    let r = text(empty, &SizeArg::Number(1), &none, &map, &vec![], &names()).unwrap();
    match r {
        StrategyNode::Invalid { msg, .. } => assert_eq!(
            msg,
            "Cannot create non-empty text with elements drawn from strategy the empty alphabet \
             because it has no values"
        ),
        _ => panic!("a mistake was expected"),
    }
    assert!(warn_codec("ascii").unwrap().contains("[\"a\", \"s\", \"c\", \"i\", \"i\"]"));
    assert!(warn_codec("utf-8").unwrap().starts_with("st.text('utf-8'): it seems"));
    assert!(warn_codec("abc").is_none());
    assert!(matches!(emails(4), StrategyNode::Mapped { func: 4, .. }));
}

#[test]
fn alphabets_of_patterns_are_resolved() {
    let s = host_strings();
    let just = |id| StrategyNode::Just(Atom::Host(id));
    let one = resolve_alphabet_iset(&just(0), &s, &vec![]).unwrap();
    assert_eq!(one.intervals, vec![(120, 120)]);
    assert!(resolve_alphabet_iset(&just(1), &s, &vec![]).is_none());
    let both = StrategyNode::OneOf(vec![just(0), StrategyNode::Foreign { id: 0 }]);
    let foreign = vec![Some(default_alphabet(&charmap()))];
    let r = resolve_alphabet_iset(&both, &s, &foreign).unwrap();
    assert!(r.contains_cp(120) && r.contains_cp(48));
    assert!(resolve_alphabet_iset(&StrategyNode::OneOf(vec![]), &s, &vec![]).is_none());
    let e = regex_alphabet_intervals(&StrategyNode::Booleans, "booleans()", &s, &vec![]);
    assert_eq!(
        e.err().unwrap().msg,
        "alphabet=booleans() must be a sampled_from() or characters() strategy."
    );
}

#[test]
fn strings_are_joined() {
    assert!(same_str("abc", "abc"));
    assert!(!same_str("abc", "abd"));
    assert_eq!(join(&strings(&["a", "b", "c"])), "a, b, c");
    assert_eq!(join(&vec![]), "");
    assert_eq!(show_tuple(&strings(&["a"])), "('a',)");
    assert_eq!(show_tuple(&strings(&["a", "b"])), "('a', 'b')");
}
