//! The parse loop over a whole text, and the entry points of the library.

use vstd::prelude::*;
use crate::builder::{BuilderView, ValueBuilder, Visitor};
use crate::document_laws::lemma_document_wf;
use crate::grammar::{lemma_value_at, value_at};
use crate::reader::{decode_prefix, undecoded_rest, MemReader};
use crate::scanner::{
    blank, char_at, key_char, lemma_scan_while, line_number, scan_while, section_char, skip_blanks,
    skip_blanks_and_comments, Parser,
};
use crate::value::{TableView, Value, ValueView};

verus! {

/// Why a parse stopped.
#[derive(Debug, Clone, Copy, PartialEq, Eq, Structural)]
pub enum ErrorKind {
    /// A section header has no name, or its closing brackets are missing.
    BadSectionHeader,
    /// The visitor refused a section header: for the builder of the tree, a
    /// segment of the name is empty, or what the name leads to is there
    /// already as something else.
    SectionRefused,
    /// No `=` follows a key.
    MissingAssign,
    /// No well-formed value follows the `=`.
    BadValue,
    /// The visitor refused a key/value pair: for the builder of the tree, the
    /// key is in the table already.
    PairRefused,
}

/// A failed parse: why it stopped, and the number of the line it stopped on.
#[derive(Debug, Clone, Copy, PartialEq, Eq, Structural)]
pub struct ParseError {
    pub kind: ErrorKind,
    pub line: usize,
}

/// What stands at a position where a statement may begin.
pub enum Statement {
    /// The end of the text.
    End,
    /// A section header, with the position after it.
    Section { name: Seq<char>, is_array: bool, end: int },
    /// A key/value pair, with the position after it.
    Pair { key: Seq<char>, val: ValueView, end: int },
    /// Something malformed, with the position at which it was found to be.
    Malformed { kind: ErrorKind, at: int },
}

/// The statement at position `i`, which no blank character or comment
/// precedes.
///
/// A `[` begins a section header: one bracket for a table, two for an array of
/// tables, then the name, which must not be empty, then as many closing
/// brackets. Anything else begins a pair: a key, blank characters, `=`, and a
/// value.
pub open spec fn statement_at(s: Seq<char>, i: int) -> Statement {
    match char_at(s, i) {
        None => Statement::End,
        Some(c) => if c == '[' {
            let is_array = char_at(s, i + 1) == Some('[');
            let from = if is_array {
                i + 2
            } else {
                i + 1
            };
            let to = scan_while(s, from, section_char());
            if to == from || char_at(s, to) != Some(']') {
                Statement::Malformed { kind: ErrorKind::BadSectionHeader, at: to }
            } else if !is_array {
                Statement::Section { name: s.subrange(from, to), is_array, end: to + 1 }
            } else if char_at(s, to + 1) != Some(']') {
                Statement::Malformed { kind: ErrorKind::BadSectionHeader, at: to + 1 }
            } else {
                Statement::Section { name: s.subrange(from, to), is_array, end: to + 2 }
            }
        } else {
            let key_end = scan_while(s, i, key_char());
            let assign = skip_blanks(s, key_end);
            if char_at(s, assign) != Some('=') {
                Statement::Malformed { kind: ErrorKind::MissingAssign, at: assign }
            } else {
                let (val, end) = value_at(s, assign + 1);
                if val is NoValue {
                    Statement::Malformed { kind: ErrorKind::BadValue, at: end }
                } else {
                    Statement::Pair { key: s.subrange(i, key_end), val, end }
                }
            }
        },
    }
}

/// A statement ends after the position it begins at, within the text.
pub proof fn lemma_statement_at(s: Seq<char>, i: int)
    requires
        0 <= i <= s.len(),
    ensures
        match statement_at(s, i) {
            Statement::End => i == s.len(),
            Statement::Section { end, .. } => i < end <= s.len(),
            Statement::Pair { val, end, .. } => i < end <= s.len() && val.wf() && val.is_leaf()
                && val !is NoValue,
            Statement::Malformed { at, .. } => i <= at <= s.len(),
        },
{
    match char_at(s, i) {
        None => {},
        Some(c) => {
            if c == '[' {
                let is_array = char_at(s, i + 1) == Some('[');
                let from = if is_array {
                    i + 2
                } else {
                    i + 1
                };
                lemma_scan_while(s, from, section_char());
            } else {
                lemma_scan_while(s, i, key_char());
                let key_end = scan_while(s, i, key_char());
                lemma_scan_while(s, key_end, blank());
                let assign = skip_blanks(s, key_end);
                if char_at(s, assign) == Some('=') {
                    lemma_value_at(s, assign + 1);
                }
            }
        },
    }
}

/// How a parse ended: the model of the visitor, the position in the text, and
/// the reason if the parse stopped before the end of the text.
pub struct Run<S> {
    pub state: S,
    pub end: int,
    pub error: Option<ErrorKind>,
}

/// The parse of `s` from position `i` on by a visitor whose model is `state`.
///
/// Statement after statement is read, blank characters and comments between
/// them skipped, and handed to the visitor, until the text ends, a statement
/// is malformed, or the visitor refuses one.
pub open spec fn run<V: Visitor>(s: Seq<char>, i: int, state: V::V) -> Run<V::V>
    decreases s.len() - i,
{
    let p = skip_blanks_and_comments(s, i);
    match statement_at(s, p) {
        Statement::End => Run { state, end: p, error: None },
        Statement::Malformed { kind, at } => Run { state, end: at, error: Some(kind) },
        Statement::Section { name, is_array, end } => match V::after_section(state, name, is_array) {
            Some(next) => if i < end <= s.len() {
                run::<V>(s, end, next)
            } else {
                Run { state, end, error: None }
            },
            None => Run { state, end, error: Some(ErrorKind::SectionRefused) },
        },
        Statement::Pair { key, val, end } => match V::after_pair(state, key, val) {
            Some(next) => if i < end <= s.len() {
                run::<V>(s, end, next)
            } else {
                Run { state, end, error: None }
            },
            None => Run { state, end, error: Some(ErrorKind::PairRefused) },
        },
    }
}

impl Parser {
    /// Parses the rest of the input, handing each section header and each
    /// key/value pair to `visitor`. Stops with the reason at the first
    /// statement that is malformed or that the visitor refuses; the cursor is
    /// then where the parse stopped.
    pub fn parse<V: Visitor>(&mut self, visitor: &mut V) -> (r: Result<(), ErrorKind>)
        ensures
            final(self).input() == old(self).input(),
            final(visitor)@ == run::<V>(old(self).input(), old(self).pos(), old(visitor)@).state,
            final(self).pos() == run::<V>(old(self).input(), old(self).pos(), old(visitor)@).end,
            r == (match run::<V>(old(self).input(), old(self).pos(), old(visitor)@).error {
                None => Ok::<(), ErrorKind>(()),
                Some(kind) => Err(kind),
            }),
    {
        let ghost s = self.input();
        let ghost start = self.pos();
        let ghost first = visitor@;
        proof {
            self.lemma_pos_bounds();
        }
        loop
            invariant
                self.input() == s,
                old(self).input() == s,
                old(self).pos() == start,
                old(visitor)@ == first,
                0 <= self.pos() <= s.len(),
                run::<V>(s, self.pos(), visitor@) == run::<V>(s, start, first),
            decreases s.len() - self.pos(),
        {
            let ghost here = self.pos();
            self.skip_whitespaces_and_comments();
            let ghost p = self.pos();
            proof {
                lemma_statement_at(s, p);
            }
            let c = match self.ch() {
                Some(c) => c,
                None => {
                    return Ok(());
                },
            };
            if c == '[' {
                self.advance();
                let double_section = self.advance_if('[');
                let section_name = self.parse_section_identifier();
                if section_name.as_str().is_empty() {
                    return Err(ErrorKind::BadSectionHeader);
                }
                if !self.advance_if(']') {
                    return Err(ErrorKind::BadSectionHeader);
                }
                if double_section {
                    if !self.advance_if(']') {
                        return Err(ErrorKind::BadSectionHeader);
                    }
                }
                if !visitor.section(section_name, double_section) {
                    return Err(ErrorKind::SectionRefused);
                }
            } else {
                let ident = self.parse_key();
                self.skip_whitespaces();
                if !self.advance_if('=') {
                    return Err(ErrorKind::MissingAssign);
                }
                let val = self.parse_value();
                match val {
                    Value::NoValue => {
                        return Err(ErrorKind::BadValue);
                    },
                    _ => {},
                }
                if !visitor.pair(ident, val) {
                    return Err(ErrorKind::PairRefused);
                }
            }
        }
    }
}

/// What the text `s` parses to: the tree of its tables, or the reason and the
/// line at which the parse stopped.
pub open spec fn document(s: Seq<char>) -> Result<TableView, ParseError> {
    let ran = run::<ValueBuilder>(
        s,
        0,
        BuilderView { root: Map::empty(), current_path: Seq::empty() },
    );
    match ran.error {
        None => Ok(ran.state.root),
        Some(kind) => Err(ParseError { kind, line: line_number(s, ran.end) }),
    }
}

/// Whether `r` is the outcome `expected`: the table with the given model, or
/// the given error.
pub open spec fn is_outcome(r: Result<Value, ParseError>, expected: Result<TableView, ParseError>) -> bool {
    match (r, expected) {
        (Ok(v), Ok(table)) => v@ == ValueView::Table(table),
        (Err(e), Err(error)) => e == error,
        _ => false,
    }
}

/// Parses the characters that `rd` yields from its position on: the bytes in
/// UTF-8 up to the end or to the first malformed sequence, which is where `rd`
/// is left. Returns the root table, a well-formed tree, or why and on which
/// line the parse stopped.
pub fn parse_from_buffer(rd: &mut MemReader) -> (r: Result<Value, ParseError>)
    ensures
        is_outcome(r, document(decode_prefix(old(rd).remaining()))),
        r matches Ok(v) ==> v@.wf(),
        final(rd).remaining() == undecoded_rest(old(rd).remaining()),
{
    let mut builder = ValueBuilder::new();
    let mut parser = Parser::new(rd);
    proof {
        if document(parser.input()) is Ok {
            lemma_document_wf(parser.input());
        }
    }
    match parser.parse(&mut builder) {
        Ok(()) => Ok(Value::Table(builder.into_root())),
        Err(kind) => Err(ParseError { kind, line: parser.get_line() }),
    }
}

/// Parses `bytes`, read as UTF-8 up to the end or to the first malformed
/// sequence. Returns the root table, a well-formed tree, or why and on which
/// line the parse stopped.
pub fn parse_from_bytes(bytes: Vec<u8>) -> (r: Result<Value, ParseError>)
    ensures
        is_outcome(r, document(decode_prefix(bytes@))),
        r matches Ok(v) ==> v@.wf(),
{
    let mut rd = MemReader::new(bytes);
    parse_from_buffer(&mut rd)
}

} // verus!
