use toml::{parse_from_buffer, parse_from_bytes, ErrorKind, MemReader, ParseError, Parser, Value, ValueBuilder};

fn parse(text: &str) -> Result<Value, ParseError> {
    parse_from_bytes(text.as_bytes().to_vec())
}

fn error(text: &str) -> ParseError {
    match parse(text) {
        Ok(_) => panic!("the text parsed"),
        Err(e) => e,
    }
}

fn text_at<'a>(root: &'a Value, path: &str) -> Option<&'a str> {
    root.lookup(path).and_then(|v| v.get_str()).map(|s| s.as_str())
}

fn int_at(root: &Value, path: &str) -> Option<i64> {
    root.lookup(path).and_then(|v| v.get_int())
}

#[test]
fn empty_text_parses_to_an_empty_table() {
    let root = parse("").unwrap();
    assert_eq!(root.get_table().map(|t| t.len()), Some(0));
    let root = parse(" \n# nothing here\n\n").unwrap();
    assert_eq!(root.get_table().map(|t| t.len()), Some(0));
}

#[test]
fn array_of_tables_collects_one_table_per_header() {
    let root = parse("[[fruit]]\nname=\"apple\"\n[[fruit]]\nname=\"banana\"\n").unwrap();
    let fruit = root.lookup("fruit").unwrap();
    let tables = fruit.get_table_array().unwrap();
    assert_eq!(tables.len(), 2);
    assert!(tables[0].get_table().is_some());
    assert!(tables[1].get_table().is_some());
    assert_eq!(text_at(&root, "fruit.0.name"), Some("apple"));
    assert_eq!(text_at(&root, "fruit.1.name"), Some("banana"));
    assert!(root.lookup("fruit.2.name").is_none());
}

#[test]
fn heterogeneous_array_fails_on_its_line() {
    assert_eq!(error("a = [1, 2, \"x\"]"), ParseError { kind: ErrorKind::BadValue, line: 1 });
}

#[test]
fn datetime_is_read_field_by_field() {
    let root = parse("d = 2014-01-02T03:04:05Z").unwrap();
    assert!(matches!(root.lookup("d"), Some(Value::Datetime(2014, 1, 2, 3, 4, 5))));
}

#[test]
fn unicode_escape_gives_one_character() {
    let root = parse("s = \"a\\u0041b\"").unwrap();
    assert_eq!(text_at(&root, "s"), Some("aAb"));
}

#[test]
fn duplicate_key_in_one_table_fails() {
    assert_eq!(error("a=1\na=1"), ParseError { kind: ErrorKind::PairRefused, line: 2 });
}

#[test]
fn empty_section_name_fails() {
    assert_eq!(error("[]"), ParseError { kind: ErrorKind::BadSectionHeader, line: 1 });
    assert_eq!(error("[[]]"), ParseError { kind: ErrorKind::BadSectionHeader, line: 1 });
}

#[test]
fn lookup_of_an_absent_first_segment_finds_nothing() {
    let root = parse("a = 1\n[b]\nc = 2\n").unwrap();
    assert!(root.lookup("x").is_none());
    assert!(root.lookup("x.c").is_none());
    assert!(root.lookup("c").is_none());
    assert!(root.lookup("0").is_none());
    assert_eq!(int_at(&root, "b.c"), Some(2));
}

#[test]
fn every_declared_pair_is_found_under_its_dotted_path() {
    let text = "top = 1\n\
                [server]\nhost = \"h\"\nports = [80, 443]\n\
                [server.tls]\non = true\n\
                [[job]]\nname = \"a\"\n[job.env]\nk = \"v\"\n\
                [[job]]\nname = \"b\"\n[[job.step]]\nrun = \"x\"\n[[job.step]]\nrun = \"y\"\n";
    let root = parse(text).unwrap();
    assert_eq!(int_at(&root, "top"), Some(1));
    assert_eq!(text_at(&root, "server.host"), Some("h"));
    assert_eq!(root.lookup("server.ports").and_then(|v| v.get_vec()).map(|v| v.len()), Some(2));
    assert_eq!(int_at(&root, "server.ports.1"), Some(443));
    assert_eq!(root.lookup("server.tls.on").and_then(|v| v.get_bool()), Some(true));
    assert_eq!(text_at(&root, "job.0.name"), Some("a"));
    assert_eq!(text_at(&root, "job.0.env.k"), Some("v"));
    assert_eq!(text_at(&root, "job.1.name"), Some("b"));
    assert_eq!(text_at(&root, "job.1.step.0.run"), Some("x"));
    assert_eq!(text_at(&root, "job.1.step.1.run"), Some("y"));
    assert!(root.lookup("job.1.env").is_none());
}

#[test]
fn table_header_opened_twice_gathers_its_pairs_in_one_table() {
    let root = parse("[a]\nx = 1\n[b]\ny = 2\n[a]\nz = 3\n").unwrap();
    assert_eq!(root.lookup("a").and_then(|v| v.get_table()).map(|t| t.len()), Some(2));
    assert_eq!(int_at(&root, "a.x"), Some(1));
    assert_eq!(int_at(&root, "a.z"), Some(3));
    assert_eq!(int_at(&root, "b.y"), Some(2));
}

#[test]
fn header_opened_again_with_other_brackets_fails() {
    assert_eq!(error("[a]\n[[a]]\n"), ParseError { kind: ErrorKind::SectionRefused, line: 2 });
    assert_eq!(error("[[a]]\nx = 1\n\n[a]\n"), ParseError { kind: ErrorKind::SectionRefused, line: 4 });
}

#[test]
fn header_with_an_empty_segment_fails() {
    assert_eq!(error("[a..b]"), ParseError { kind: ErrorKind::SectionRefused, line: 1 });
    assert_eq!(error("\n[a.]"), ParseError { kind: ErrorKind::SectionRefused, line: 2 });
}

#[test]
fn header_at_a_key_of_the_root_fails() {
    assert_eq!(error("a = 1\n[a]\n"), ParseError { kind: ErrorKind::SectionRefused, line: 2 });
}

#[test]
fn header_through_a_value_replaces_the_value() {
    let root = parse("a = 1\n[a.b]\nc = 2\n").unwrap();
    assert!(root.lookup("a").and_then(|v| v.get_table()).is_some());
    assert_eq!(int_at(&root, "a.b.c"), Some(2));
}

#[test]
fn header_without_closing_bracket_fails() {
    assert_eq!(error("[a"), ParseError { kind: ErrorKind::BadSectionHeader, line: 1 });
    assert_eq!(error("[a\n]"), ParseError { kind: ErrorKind::BadSectionHeader, line: 1 });
    assert_eq!(error("[[a]"), ParseError { kind: ErrorKind::BadSectionHeader, line: 1 });
    assert_eq!(error("[[a] ]"), ParseError { kind: ErrorKind::BadSectionHeader, line: 1 });
    assert_eq!(error("x = 1\n\n[a[b]]"), ParseError { kind: ErrorKind::BadSectionHeader, line: 3 });
}

#[test]
fn header_name_may_hold_blanks() {
    let root = parse("[ a b ]\nk = 1\n").unwrap();
    assert_eq!(root.lookup_key(" a b ").and_then(|v| v.lookup_key("k")).and_then(|v| v.get_int()), Some(1));
}

#[test]
fn key_without_equals_sign_fails() {
    assert_eq!(error("key"), ParseError { kind: ErrorKind::MissingAssign, line: 1 });
    assert_eq!(error("key value"), ParseError { kind: ErrorKind::MissingAssign, line: 1 });
    assert_eq!(error("a = 1\nkey\n\n"), ParseError { kind: ErrorKind::MissingAssign, line: 4 });
    assert_eq!(error("]"), ParseError { kind: ErrorKind::MissingAssign, line: 1 });
}

#[test]
fn equals_sign_may_stand_on_a_later_line() {
    let root = parse("a\n=\n1").unwrap();
    assert_eq!(int_at(&root, "a"), Some(1));
}

#[test]
fn missing_or_malformed_value_fails() {
    assert_eq!(error("a ="), ParseError { kind: ErrorKind::BadValue, line: 1 });
    assert_eq!(error("a = \n\n"), ParseError { kind: ErrorKind::BadValue, line: 3 });
    assert_eq!(error("a = x"), ParseError { kind: ErrorKind::BadValue, line: 1 });
    assert_eq!(error("a = \"x\ny\""), ParseError { kind: ErrorKind::BadValue, line: 1 });
    assert_eq!(error("a = 2014-13-01T00:00:00Z"), ParseError { kind: ErrorKind::BadValue, line: 1 });
    assert_eq!(error("a = tru"), ParseError { kind: ErrorKind::BadValue, line: 1 });
    assert_eq!(error("a = [1,\n2,\n\"x\"]"), ParseError { kind: ErrorKind::BadValue, line: 3 });
}

#[test]
fn empty_key_is_a_key() {
    let root = parse("= 1").unwrap();
    assert_eq!(int_at(&root, ""), Some(1));
    assert_eq!(error("= 1\n= 2"), ParseError { kind: ErrorKind::PairRefused, line: 2 });
}

#[test]
fn key_with_a_dot_is_one_key() {
    let root = parse("a.b = 1").unwrap();
    assert_eq!(root.lookup_key("a.b").and_then(|v| v.get_int()), Some(1));
    assert!(root.lookup("a.b").is_none());
}

#[test]
fn pairs_may_share_a_line() {
    let root = parse("a=1 b=2 [s] c=3").unwrap();
    assert_eq!(int_at(&root, "a"), Some(1));
    assert_eq!(int_at(&root, "b"), Some(2));
    assert_eq!(int_at(&root, "s.c"), Some(3));
}

#[test]
fn comments_and_blank_lines_are_skipped() {
    let text = "# title\n\na = 1 # one\n\t# more\r\n[s] # section\nb = 2\n";
    let root = parse(text).unwrap();
    assert_eq!(int_at(&root, "a"), Some(1));
    assert_eq!(int_at(&root, "s.b"), Some(2));
}

#[test]
fn line_of_a_failure_counts_comment_lines_and_line_ends() {
    assert_eq!(error("# one\n# two\r\n\na = \"\n"), ParseError { kind: ErrorKind::BadValue, line: 4 });
    assert_eq!(error("a = 1\n\n\n\n[]"), ParseError { kind: ErrorKind::BadSectionHeader, line: 5 });
}

#[test]
fn every_kind_of_value_parses() {
    let text = "b = true\nu = 7\ni = -7\nf = -2.50\ns = \"t\"\nd = 1979-05-27T07:32:00Z\na = [[1], []]\n";
    let root = parse(text).unwrap();
    assert_eq!(root.lookup("b").and_then(|v| v.get_bool()), Some(true));
    assert_eq!(int_at(&root, "u"), Some(7));
    assert_eq!(int_at(&root, "i"), Some(-7));
    let f = root.lookup("f").and_then(|v| v.get_float()).unwrap();
    assert!(f.negative);
    assert_eq!(f.whole, 2);
    assert_eq!(f.fraction, vec![5, 0]);
    assert_eq!(text_at(&root, "s"), Some("t"));
    assert!(matches!(root.lookup("d"), Some(Value::Datetime(1979, 5, 27, 7, 32, 0))));
    assert_eq!(root.lookup("a").and_then(|v| v.get_vec()).map(|v| v.len()), Some(2));
    assert_eq!(root.get_table().map(|t| t.len()), Some(7));
}

#[test]
fn text_in_utf8_keeps_its_characters() {
    let root = parse("gr\u{fc}\u{df} = \"\u{4f60}\u{597d}\"\n[s\u{e9}]\nk = 1\n").unwrap();
    assert_eq!(text_at(&root, "gr\u{fc}\u{df}"), Some("\u{4f60}\u{597d}"));
    assert_eq!(int_at(&root, "s\u{e9}.k"), Some(1));
}

#[test]
fn bytes_after_a_malformed_sequence_are_not_read() {
    let mut bytes = b"a = 1\n".to_vec();
    bytes.push(0xff);
    bytes.extend_from_slice(b"b = 2\n");
    let root = parse_from_bytes(bytes).unwrap();
    assert_eq!(int_at(&root, "a"), Some(1));
    assert!(root.lookup("b").is_none());
    let cut = parse_from_bytes(vec![b'a', b' ', b'=', b' ', 0xc3]);
    assert_eq!(cut.unwrap_err(), ParseError { kind: ErrorKind::BadValue, line: 1 });
}

#[test]
fn parse_from_buffer_reads_from_the_position_of_the_reader() {
    let mut rd = MemReader::new(b"xa = 1".to_vec());
    assert_eq!(rd.read_byte(), Some(b'x'));
    let root = parse_from_buffer(&mut rd).unwrap();
    assert_eq!(int_at(&root, "a"), Some(1));
    assert!(root.lookup("xa").is_none());
    assert!(rd.eof());
}

#[test]
fn parse_hands_headers_and_pairs_to_the_visitor() {
    let mut rd = MemReader::new(b"a = 1\n[s]\nb = 2\n".to_vec());
    let mut parser = Parser::new(&mut rd);
    let mut builder = ValueBuilder::new();
    assert_eq!(parser.parse(&mut builder), Ok(()));
    assert!(parser.eos());
    assert_eq!(builder.get_root().len(), 2);
}

#[test]
fn parse_stops_where_it_fails_and_keeps_what_was_built() {
    let mut rd = MemReader::new(b"a = 1\nb = ?\nc = 3\n".to_vec());
    let mut parser = Parser::new(&mut rd);
    let mut builder = ValueBuilder::new();
    assert_eq!(parser.parse(&mut builder), Err(ErrorKind::BadValue));
    assert_eq!(parser.ch(), Some('?'));
    assert_eq!(parser.get_line(), 2);
    assert_eq!(builder.get_root().len(), 1);
    assert!(builder.get_root().contains_key("a"));
}
