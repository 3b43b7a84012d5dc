use wikicrawler::text::{
    after_last, chars_of, contains_char, equal, is_whitespace_char, join,
    matches_at, replace, slice, starts_with, string_of, take_from_until, trim,
};

fn cs(s: &str) -> Vec<char> {
    s.chars().collect()
}

#[test]
fn chars_and_strings_convert_both_ways() {
    assert_eq!(chars_of("Caf\u{e9} \u{1F600}"), cs("Caf\u{e9} \u{1F600}"));
    assert_eq!(chars_of(""), Vec::<char>::new());
    assert_eq!(string_of(&cs("L'\u{e9}t\u{e9}")), "L'\u{e9}t\u{e9}");
    assert_eq!(string_of(&Vec::new()), "");
    assert_eq!(string_of(&chars_of("a%27b")), "a%27b");
}

#[test]
fn whitespace_is_what_the_standard_library_calls_whitespace() {
    for code in 0u32..0x11000 {
        if let Some(c) = char::from_u32(code) {
            assert_eq!(is_whitespace_char(c), c.is_whitespace(), "U+{:04X}", code);
        }
    }
}

#[test]
fn trim_agrees_with_the_standard_library() {
    for s in ["", " ", "a", " a", "a ", "  a b  ", "\t\na\u{a0}\u{3000}", "\u{200b}a\u{200b}", " \u{85} "] {
        assert_eq!(trim(&cs(s)), cs(s.trim()), "{:?}", s);
    }
}

#[test]
fn slice_and_concat() {
    let s = cs("abcdef");
    assert_eq!(slice(&s, 0, 6), s);
    assert_eq!(slice(&s, 2, 4), cs("cd"));
    assert_eq!(slice(&s, 3, 3), cs(""));
    assert_eq!(join(&cs("ab"), &cs("cd")), cs("abcd"));
    assert_eq!(join(&cs(""), &cs("")), cs(""));
}

#[test]
fn matching_at_a_place() {
    let s = cs("/wiki/Chat");
    assert!(matches_at(&s, &cs("/wiki/"), 0));
    assert!(matches_at(&s, &cs("Chat"), 6));
    assert!(!matches_at(&s, &cs("Chat"), 7));
    assert!(!matches_at(&s, &cs("Chats"), 6));
    assert!(matches_at(&s, &cs(""), 10));
    assert!(!matches_at(&s, &cs(""), 11));
    assert!(starts_with(&s, &cs("/wiki/")));
    assert!(!starts_with(&s, &cs("wiki/")));
    assert!(!starts_with(&cs("/wik"), &cs("/wiki/")));
}

#[test]
fn equality_of_texts() {
    assert!(equal(&cs("https"), &cs("https")));
    assert!(!equal(&cs("https"), &cs("http")));
    assert!(!equal(&cs("http"), &cs("https")));
    assert!(equal(&cs(""), &cs("")));
}

#[test]
fn contains_char_looks_at_every_character() {
    assert!(contains_char(&cs("Aide:Accueil"), ':'));
    assert!(contains_char(&cs(":"), ':'));
    assert!(!contains_char(&cs("Accueil"), ':'));
    assert!(!contains_char(&cs(""), ':'));
}

#[test]
fn take_from_until_stops_before_the_stop() {
    let s = cs("title=Chat&action=edit");
    assert_eq!(take_from_until(&s, 6, '&'), cs("Chat"));
    assert_eq!(take_from_until(&s, 11, '&'), cs("action=edit"));
    assert_eq!(take_from_until(&s, 10, '&'), cs(""));
    assert_eq!(take_from_until(&s, 22, '&'), cs(""));
}

#[test]
fn replace_agrees_with_the_standard_library() {
    for (s, from, to) in [
        ("Le%27Page", "%27", "___APOSTROPHE___"),
        ("%27%27", "%27", "x"),
        ("%2%27", "%27", "x"),
        ("aaa", "aa", "b"),
        ("abc", "abc", ""),
        ("abc", "x", "y"),
        ("", "x", "y"),
        ("___APOSTROPHE___APOSTROPHE___", "___APOSTROPHE___", "%27"),
    ] {
        assert_eq!(replace(&cs(s), &cs(from), &cs(to)), cs(&s.replace(from, to)), "{:?}", s);
    }
}

#[test]
fn replace_of_an_empty_pattern_changes_nothing() {
    assert_eq!(replace(&cs("abc"), &cs(""), &cs("x")), cs("abc"));
}

#[test]
fn after_last_gives_the_last_segment() {
    assert_eq!(after_last(&cs("https://fr.wikipedia.org/wiki/Chat"), '/'), cs("Chat"));
    assert_eq!(after_last(&cs("https://fr.wikipedia.org/wiki/A/B"), '/'), cs("B"));
    assert_eq!(after_last(&cs("Chat"), '/'), cs("Chat"));
    assert_eq!(after_last(&cs("wiki/"), '/'), cs(""));
    assert_eq!(after_last(&cs(""), '/'), cs(""));
}
