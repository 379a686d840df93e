use toml::{MemReader, Parser};

#[test]
fn read_byte_yields_each_byte_once() {
    let mut rd = MemReader::new(vec![1, 2]);
    assert!(!rd.eof());
    assert_eq!(rd.read_byte(), Some(1));
    assert_eq!(rd.read_byte(), Some(2));
    assert_eq!(rd.read_byte(), None);
    assert!(rd.eof());
}

#[test]
fn read_char_decodes_one_to_four_bytes() {
    let mut rd = MemReader::new("a\u{e9}\u{20ac}\u{1f600}".as_bytes().to_vec());
    assert_eq!(rd.read_char(), Some('a'));
    assert_eq!(rd.read_char(), Some('\u{e9}'));
    assert_eq!(rd.read_char(), Some('\u{20ac}'));
    assert_eq!(Parser::read_char(&mut rd), Some('\u{1f600}'));
    assert_eq!(rd.read_char(), None);
    assert!(rd.eof());
}

#[test]
fn read_char_decodes_the_ends_of_each_width() {
    let text = "\u{0}\u{7f}\u{80}\u{7ff}\u{800}\u{d7ff}\u{e000}\u{ffff}\u{10000}\u{10ffff}";
    let mut rd = MemReader::new(text.as_bytes().to_vec());
    for expected in text.chars() {
        assert_eq!(rd.read_char(), Some(expected));
    }
    assert!(rd.eof());
}

#[test]
fn read_char_stays_at_a_lone_continuation_byte() {
    let mut rd = MemReader::new(vec![0x80, b'a']);
    assert_eq!(rd.read_char(), None);
    assert_eq!(rd.read_byte(), Some(0x80));
    assert_eq!(rd.read_char(), Some('a'));
}

#[test]
fn read_char_refuses_an_overlong_encoding() {
    let mut rd = MemReader::new(vec![0xc0, 0x80]);
    assert_eq!(rd.read_char(), None);
    let mut rd = MemReader::new(vec![0xe0, 0x80, 0x80]);
    assert_eq!(rd.read_char(), None);
    let mut rd = MemReader::new(vec![0xf0, 0x80, 0x80, 0x80]);
    assert_eq!(rd.read_char(), None);
}

#[test]
fn read_char_refuses_a_surrogate_and_a_code_beyond_the_last() {
    let mut rd = MemReader::new(vec![0xed, 0xa0, 0x80]);
    assert_eq!(rd.read_char(), None);
    let mut rd = MemReader::new(vec![0xf4, 0x90, 0x80, 0x80]);
    assert_eq!(rd.read_char(), None);
    let mut rd = MemReader::new(vec![0xf8, 0x88, 0x80, 0x80, 0x80]);
    assert_eq!(rd.read_char(), None);
}

#[test]
fn read_char_refuses_a_truncated_sequence() {
    let mut rd = MemReader::new(vec![0xe2, 0x82]);
    assert_eq!(rd.read_char(), None);
    assert!(!rd.eof());
    let mut rd = MemReader::new(vec![0xc3, b'a']);
    assert_eq!(rd.read_char(), None);
}

#[test]
fn parser_reads_up_to_the_first_malformed_sequence() {
    let mut rd = MemReader::new(vec![b'a', b'b', 0xff, b'c']);
    let mut p = Parser::new(&mut rd);
    assert_eq!(p.ch(), Some('a'));
    p.advance();
    assert_eq!(p.ch(), Some('b'));
    p.advance();
    assert!(p.eos());
    assert_eq!(rd.read_byte(), Some(0xff));
    assert_eq!(rd.read_byte(), Some(b'c'));
}

#[test]
fn parser_drains_a_well_formed_reader() {
    let mut rd = MemReader::new("h\u{e9}".as_bytes().to_vec());
    let mut p = Parser::new(&mut rd);
    assert!(rd.eof());
    assert_eq!(p.ch(), Some('h'));
    p.advance();
    assert_eq!(p.ch(), Some('\u{e9}'));
}
