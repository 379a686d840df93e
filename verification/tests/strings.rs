use toml::{MemReader, Parser};

fn parser(text: &str) -> Parser {
    let mut rd = MemReader::new(text.as_bytes().to_vec());
    Parser::new(&mut rd)
}

fn string(text: &str) -> Option<String> {
    parser(text).parse_string()
}

#[test]
fn plain_string_is_read_up_to_the_closing_quote() {
    let mut p = parser("\"hello\" rest");
    assert_eq!(p.parse_string(), Some("hello".to_string()));
    assert_eq!(p.ch(), Some(' '));
}

#[test]
fn empty_string_is_read() {
    assert_eq!(string("\"\""), Some(String::new()));
}

#[test]
fn string_must_start_with_a_quote() {
    let mut p = parser("hello\"");
    assert_eq!(p.parse_string(), None);
    assert_eq!(p.ch(), Some('h'));
    assert_eq!(string(""), None);
}

#[test]
fn each_one_letter_escape_is_replaced() {
    assert_eq!(string("\"\\b\""), Some("\u{8}".to_string()));
    assert_eq!(string("\"\\t\""), Some("\t".to_string()));
    assert_eq!(string("\"\\n\""), Some("\n".to_string()));
    assert_eq!(string("\"\\f\""), Some("\u{c}".to_string()));
    assert_eq!(string("\"\\r\""), Some("\r".to_string()));
    assert_eq!(string("\"\\\"\""), Some("\"".to_string()));
    assert_eq!(string("\"\\/\""), Some("/".to_string()));
    assert_eq!(string("\"\\\\\""), Some("\\".to_string()));
}

#[test]
fn escapes_stand_among_other_characters() {
    assert_eq!(string("\"a\\tb\\\\c\\\"d\""), Some("a\tb\\c\"d".to_string()));
}

#[test]
fn unknown_escape_fails_the_string() {
    let mut p = parser("\"a\\qb\"");
    assert_eq!(p.parse_string(), None);
    assert_eq!(p.ch(), Some('q'));
}

#[test]
fn unicode_escape_is_decoded() {
    assert_eq!(string("\"a\\u0041b\""), Some("aAb".to_string()));
    assert_eq!(string("\"\\u00e9\""), Some("\u{e9}".to_string()));
    assert_eq!(string("\"\\u00E9\""), Some("\u{e9}".to_string()));
    assert_eq!(string("\"\\u20AC\""), Some("\u{20ac}".to_string()));
    assert_eq!(string("\"\\uffff\""), Some("\u{ffff}".to_string()));
    assert_eq!(string("\"\\u0000\""), Some("\u{0}".to_string()));
}

#[test]
fn unicode_escape_takes_exactly_four_digits() {
    assert_eq!(string("\"\\u00411\""), Some("A1".to_string()));
    assert_eq!(string("\"\\u041\""), None);
    assert_eq!(string("\"\\u\""), None);
    assert_eq!(string("\"\\u00g1\""), None);
}

#[test]
fn short_unicode_escape_leaves_the_cursor_after_its_digits() {
    let mut p = parser("\"\\u12x\"");
    assert_eq!(p.parse_string(), None);
    assert_eq!(p.ch(), Some('x'));
}

#[test]
fn unicode_escape_of_a_surrogate_fails_the_string() {
    assert_eq!(string("\"\\ud800\""), None);
    assert_eq!(string("\"\\udfff\""), None);
    assert_eq!(string("\"\\ud7ff\""), Some("\u{d7ff}".to_string()));
    assert_eq!(string("\"\\ue000\""), Some("\u{e000}".to_string()));
}

#[test]
fn raw_control_characters_fail_the_string() {
    assert_eq!(string("\"a\nb\""), None);
    assert_eq!(string("\"a\rb\""), None);
    assert_eq!(string("\"a\u{c}b\""), None);
    assert_eq!(string("\"a\u{8}b\""), None);
}

#[test]
fn raw_tab_may_stand_in_a_string() {
    assert_eq!(string("\"a\tb\""), Some("a\tb".to_string()));
}

#[test]
fn forbidden_character_is_left_unread() {
    let mut p = parser("\"ab\ncd\"");
    assert_eq!(p.parse_string(), None);
    assert_eq!(p.ch(), Some('\n'));
    assert_eq!(p.get_line(), 1);
}

#[test]
fn unterminated_string_fails() {
    let mut p = parser("\"abc");
    assert_eq!(p.parse_string(), None);
    assert!(p.eos());
    assert_eq!(string("\"abc\\"), None);
}

#[test]
fn characters_beyond_ascii_are_kept() {
    assert_eq!(string("\"gr\u{fc}\u{df}e \u{1f600}\""), Some("gr\u{fc}\u{df}e \u{1f600}".to_string()));
}
