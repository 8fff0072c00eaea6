use broust::lexer::{lex, Token};
use broust::string_map::StringMap;
use broust::text::{
    blank, is_whitespace, same_text, split_whitespace, substring, to_chars,
};

#[test]
fn white_space_is_what_the_standard_library_says() {
    for code in 0..=0x10FFFFu32 {
        if let Some(c) = char::from_u32(code) {
            assert_eq!(is_whitespace(c), c.is_whitespace(), "U+{:04X}", code);
        }
    }
}

#[test]
fn blank_means_empty_or_white_space_only() {
    assert!(blank(""));
    assert!(blank(" \t\r\n\u{a0}\u{3000}"));
    assert!(!blank(" x "));
    assert!(!blank("\u{200b}"));
}

#[test]
fn words_are_split_at_white_space() {
    assert_eq!(split_whitespace(""), Vec::<String>::new());
    assert_eq!(split_whitespace("  \n "), Vec::<String>::new());
    assert_eq!(split_whitespace("a"), vec!["a"]);
    assert_eq!(split_whitespace("  a  bc\td\n"), vec!["a", "bc", "d"]);
    assert_eq!(split_whitespace("a\u{a0}b\u{2003}c"), vec!["a", "b", "c"]);
    let text = "Lorem  ipsum dolor\r\nsit amet ";
    let expected: Vec<&str> = text.split_whitespace().collect();
    assert_eq!(split_whitespace(text), expected);
}

#[test]
fn strings_compare_by_their_characters() {
    assert!(same_text("", ""));
    assert!(same_text("abc", "abc"));
    assert!(!same_text("abc", "abd"));
    assert!(!same_text("abc", "ab"));
    assert!(!same_text("ab", "abc"));
    assert!(same_text("é\u{1F600}", "é\u{1F600}"));
}

#[test]
fn characters_round_trip() {
    let chars = to_chars("aé\u{1F600}b");
    assert_eq!(chars, vec!['a', 'é', '\u{1F600}', 'b']);
    assert_eq!(substring(&chars, 0, 4), "aé\u{1F600}b");
    assert_eq!(substring(&chars, 1, 3), "é\u{1F600}");
    assert_eq!(substring(&chars, 2, 2), "");
}

fn kinds(tokens: &[Token]) -> Vec<(bool, &str)> {
    tokens
        .iter()
        .map(|t| match t {
            Token::Tag(tag) => (true, tag.tag.as_str()),
            Token::Text(text) => (false, text.text.as_str()),
        })
        .collect()
}

#[test]
fn a_document_is_cut_into_tags_and_texts() {
    let tokens = lex("<a href=x>hello <b>you</b></a> bye".to_string());
    assert_eq!(
        kinds(&tokens),
        vec![
            (true, "a href=x"),
            (false, "hello "),
            (true, "b"),
            (false, "you"),
            (true, "/b"),
            (true, "/a"),
            (false, " bye"),
        ]
    );
}

#[test]
fn the_scanner_forgives() {
    assert!(lex("".to_string()).is_empty());
    // An unterminated tag is dropped.
    assert_eq!(kinds(&lex("x<a".to_string())), vec![(false, "x")]);
    // A `>` ends a tag whether or not one was entered.
    assert_eq!(kinds(&lex("a > b".to_string())), vec![(true, "a "), (false, " b")]);
    // A `<` inside a tag turns what was gathered into text.
    assert_eq!(kinds(&lex("<a <b>".to_string())), vec![(false, "a "), (true, "b")]);
    // An empty tag is a token, an empty text is not.
    assert_eq!(kinds(&lex("<><>".to_string())), vec![(true, ""), (true, "")]);
    // White space alone is a text token.
    assert_eq!(kinds(&lex("<a> <b>".to_string())), vec![(true, "a"), (false, " "), (true, "b")]);
}

#[test]
fn a_string_map_keeps_insertion_order() {
    let mut map = StringMap::new();
    assert_eq!(map.len(), 0);
    map.insert("b".to_string(), "1".to_string());
    map.insert("a".to_string(), "2".to_string());
    map.insert("b".to_string(), "3".to_string());
    assert_eq!(map.len(), 2);
    assert_eq!(map.entry(0), (&"b".to_string(), &"3".to_string()));
    assert_eq!(map.entry(1), (&"a".to_string(), &"2".to_string()));
    assert_eq!(map.get("a").map(|v| v.as_str()), Some("2"));
    assert_eq!(map.get("c"), None);
    map.remove("b");
    assert_eq!(map.len(), 1);
    assert_eq!(map.entry(0), (&"a".to_string(), &"2".to_string()));
    map.remove("zz");
    assert_eq!(map.len(), 1);
}
