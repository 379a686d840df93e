//! The scanner: a cursor over the characters of the input, with the line
//! number of the cursor and the primitive reads that the grammar is built of.

use vstd::prelude::*;
use crate::reader::{decode_prefix, first_char, undecoded_rest, MemReader};
use crate::text::{decimal_value, digit_in_radix, is_decimal_digit, to_digit};

verus! {

/// The character of `s` at position `i`, or `None` past the end.
pub open spec fn char_at(s: Seq<char>, i: int) -> Option<char> {
    if 0 <= i < s.len() {
        Some(s[i])
    } else {
        None
    }
}

/// The number of newline characters in `s`.
pub open spec fn newlines(s: Seq<char>) -> nat
    decreases s.len(),
{
    if s.len() == 0 {
        0
    } else {
        newlines(s.drop_last()) + if s.last() == '\n' {
            1nat
        } else {
            0nat
        }
    }
}

/// The 1-based number of the line that position `pos` of `s` lies on: one more
/// than the number of newlines before it. The count stops at `usize::MAX`.
pub open spec fn line_number(s: Seq<char>, pos: int) -> usize {
    let n = 1 + newlines(s.take(pos));
    if n > usize::MAX {
        usize::MAX
    } else {
        n as usize
    }
}

/// The first position from `i` on whose character does not satisfy `p`, or the
/// length of `s` if there is none.
pub open spec fn scan_while(s: Seq<char>, i: int, p: spec_fn(char) -> bool) -> int
    decreases s.len() - i,
{
    if 0 <= i < s.len() && p(s[i]) {
        scan_while(s, i + 1, p)
    } else {
        i
    }
}

/// `scan_while` stops at or after its start, within the text, on a character
/// that fails `p`, having passed only characters that satisfy it.
pub proof fn lemma_scan_while(s: Seq<char>, i: int, p: spec_fn(char) -> bool)
    requires
        0 <= i <= s.len(),
    ensures
        i <= scan_while(s, i, p) <= s.len(),
        forall|j: int| i <= j < scan_while(s, i, p) ==> p(#[trigger] s[j]),
        scan_while(s, i, p) < s.len() ==> !p(s[scan_while(s, i, p)]),
    decreases s.len() - i,
{
    if i < s.len() && p(s[i]) {
        lemma_scan_while(s, i + 1, p);
    }
}

/// The position that `scan_while` stops at is the only one with its properties.
pub proof fn lemma_scan_while_is(s: Seq<char>, i: int, p: spec_fn(char) -> bool, end: int)
    requires
        0 <= i <= end <= s.len(),
        forall|j: int| i <= j < end ==> p(#[trigger] s[j]),
        end < s.len() ==> !p(s[end]),
    ensures
        scan_while(s, i, p) == end,
    decreases end - i,
{
    if i < end {
        lemma_scan_while_is(s, i + 1, p, end);
    }
}

/// Blank characters: space, tab, carriage return and newline.
pub open spec fn is_blank(c: char) -> bool {
    c == ' ' || c == '\t' || c == '\r' || c == '\n'
}

/// The characters that may stand in a section header's name: all but tab,
/// newline, carriage return and the two square brackets.
pub open spec fn is_section_char(c: char) -> bool {
    !(c == '\t' || c == '\n' || c == '\r' || c == '[' || c == ']')
}

/// The characters that may stand in a bare key: all but the blank ones and `=`.
pub open spec fn is_key_char(c: char) -> bool {
    !(is_blank(c) || c == '=')
}

/// [`is_blank`] as a predicate to scan with.
pub open spec fn blank() -> spec_fn(char) -> bool {
    |c: char| is_blank(c)
}

/// The predicate of all characters but the newline.
pub open spec fn not_newline() -> spec_fn(char) -> bool {
    |c: char| c != '\n'
}

/// [`is_decimal_digit`] as a predicate to scan with.
pub open spec fn decimal_digit() -> spec_fn(char) -> bool {
    |c: char| is_decimal_digit(c)
}

/// [`is_section_char`] as a predicate to scan with.
pub open spec fn section_char() -> spec_fn(char) -> bool {
    |c: char| is_section_char(c)
}

/// [`is_key_char`] as a predicate to scan with.
pub open spec fn key_char() -> spec_fn(char) -> bool {
    |c: char| is_key_char(c)
}

/// Whether `c` may stand in a section header's name.
pub fn accepts_in_section_name(c: char) -> (b: bool)
    ensures
        b == is_section_char(c),
{
    !(c == '\t' || c == '\n' || c == '\r' || c == '[' || c == ']')
}

/// Whether `c` may stand in a bare key.
pub fn accepts_in_key(c: char) -> (b: bool)
    ensures
        b == is_key_char(c),
{
    !(c == ' ' || c == '\t' || c == '\r' || c == '\n' || c == '=')
}

/// The position after the blank characters that start at `i`.
pub open spec fn skip_blanks(s: Seq<char>, i: int) -> int {
    scan_while(s, i, blank())
}

/// The position after the rest of the line that `i` lies on: past the next
/// newline after `i`, or the end of the text if there is none. With `i` at a
/// `#` this is the position after the comment.
pub open spec fn skip_line(s: Seq<char>, i: int) -> int {
    let j = scan_while(s, i + 1, not_newline());
    if j < s.len() {
        j + 1
    } else if i < s.len() {
        s.len() as int
    } else {
        i
    }
}

/// The position after the blank characters and comments that start at `i`.
pub open spec fn skip_blanks_and_comments(s: Seq<char>, i: int) -> int
    decreases s.len() - i,
{
    if 0 <= i < s.len() && is_blank(s[i]) {
        skip_blanks_and_comments(s, i + 1)
    } else if 0 <= i < s.len() && s[i] == '#' {
        proof {
            lemma_scan_while(s, i + 1, not_newline());
        }
        skip_blanks_and_comments(s, skip_line(s, i))
    } else {
        i
    }
}

/// Skipping blanks and comments stops at or after its start, within the text,
/// on a character that is neither blank nor `#`.
pub proof fn lemma_skip_blanks_and_comments(s: Seq<char>, i: int)
    requires
        0 <= i <= s.len(),
    ensures
        i <= skip_blanks_and_comments(s, i) <= s.len(),
        match char_at(s, skip_blanks_and_comments(s, i)) {
            Some(c) => !is_blank(c) && c != '#',
            None => true,
        },
        skip_blanks_and_comments(s, skip_blanks_and_comments(s, i)) == skip_blanks_and_comments(
            s,
            i,
        ),
    decreases s.len() - i,
{
    if i < s.len() && is_blank(s[i]) {
        lemma_skip_blanks_and_comments(s, i + 1);
    } else if i < s.len() && s[i] == '#' {
        lemma_scan_while(s, i + 1, not_newline());
        lemma_skip_blanks_and_comments(s, skip_line(s, i));
    }
}

/// The position after the run of decimal digits that starts at `i`.
pub open spec fn digits_end(s: Seq<char>, i: int) -> int {
    scan_while(s, i, decimal_digit())
}

/// What `s[i..j]`, a run of decimal digits, denotes when it is accumulated in
/// 64 bits: its value modulo 2^64.
pub open spec fn wrapped_decimal(s: Seq<char>, i: int, j: int) -> u64 {
    (decimal_value(s.subrange(i, j)) % 0x1_0000_0000_0000_0000) as u64
}

/// Where the cursor stands: a position in the text and the number of its line.
#[derive(Clone, Copy)]
struct Cursor {
    pos: usize,
    line: usize,
}

/// A cursor over the characters of an input.
pub struct Parser {
    chars: Vec<char>,
    at: Cursor,
}

impl Parser {
    #[verifier::type_invariant]
    spec fn inv(&self) -> bool {
        &&& self.at.pos <= self.chars@.len()
        &&& self.at.line == line_number(self.chars@, self.at.pos as int)
    }

    /// The whole input.
    pub closed spec fn input(&self) -> Seq<char> {
        self.chars@
    }

    /// The position of the current character; the length of the input once
    /// the cursor is at the end.
    pub closed spec fn pos(&self) -> int {
        if self.at.pos <= self.chars@.len() {
            self.at.pos as int
        } else {
            self.chars@.len() as int
        }
    }

    /// Reads one character from `rd`; see [`MemReader::read_char`].
    pub fn read_char(rd: &mut MemReader) -> (r: Option<char>)
        ensures
            r == first_char(old(rd).remaining()),
            final(rd).remaining() == (if r is Some {
                vstd::utf8::pop_first_scalar(old(rd).remaining())
            } else {
                old(rd).remaining()
            }),
    {
        rd.read_char()
    }

    /// A parser at the start of the characters that `rd` yields. Reading stops
    /// at the end of `rd` or at the first malformed byte sequence, which is
    /// where `rd` is left.
    pub fn new(rd: &mut MemReader) -> (p: Parser)
        ensures
            p.input() == decode_prefix(old(rd).remaining()),
            p.pos() == 0,
            final(rd).remaining() == undecoded_rest(old(rd).remaining()),
    {
        let mut chars: Vec<char> = Vec::new();
        loop
            invariant
                chars@ + decode_prefix(rd.remaining()) == decode_prefix(old(rd).remaining()),
                undecoded_rest(rd.remaining()) == undecoded_rest(old(rd).remaining()),
            ensures
                chars@ == decode_prefix(old(rd).remaining()),
                rd.remaining() == undecoded_rest(old(rd).remaining()),
            decreases rd.remaining().len(),
        {
            let ghost before = rd.remaining();
            match Parser::read_char(rd) {
                Some(c) => {
                    proof {
                        assert(chars@.push(c) + decode_prefix(rd.remaining()) =~= chars@
                            + decode_prefix(before));
                    }
                    chars.push(c);
                },
                None => {
                    assert(chars@ + Seq::<char>::empty() =~= chars@);
                    break ;
                },
            }
        }
        assert(chars@.take(0) =~= Seq::<char>::empty());
        Parser { chars, at: Cursor { pos: 0, line: 1 } }
    }

    /// The cursor is within the input or at its end.
    pub proof fn lemma_pos_bounds(&self)
        ensures
            0 <= self.pos() <= self.input().len(),
    {
    }

    /// The number of the line that the cursor is on.
    pub fn get_line(&self) -> (n: usize)
        ensures
            n == line_number(self.input(), self.pos()),
    {
        proof {
            use_type_invariant(self);
        }
        self.at.line
    }

    /// The current character, or `None` at the end of the input.
    pub fn ch(&self) -> (c: Option<char>)
        ensures
            c == char_at(self.input(), self.pos()),
            0 <= self.pos() <= self.input().len(),
    {
        proof {
            use_type_invariant(self);
        }
        if self.at.pos < self.chars.len() {
            Some(self.chars[self.at.pos])
        } else {
            None
        }
    }

    /// Whether the cursor is at the end of the input.
    pub fn eos(&self) -> (b: bool)
        ensures
            b == (self.pos() == self.input().len()),
            0 <= self.pos() <= self.input().len(),
    {
        proof {
            use_type_invariant(self);
        }
        self.at.pos >= self.chars.len()
    }

    /// Moves the cursor past the current character. At the end of the input
    /// the cursor stays.
    pub fn advance(&mut self)
        ensures
            final(self).input() == old(self).input(),
            0 <= old(self).pos() <= old(self).input().len(),
            final(self).pos() == (if old(self).pos() < old(self).input().len() {
                old(self).pos() + 1
            } else {
                old(self).pos()
            }),
    {
        proof {
            use_type_invariant(&*self);
        }
        let pos = self.at.pos;
        if pos < self.chars.len() {
            let line = if self.chars[pos] == '\n' {
                self.at.line.saturating_add(1)
            } else {
                self.at.line
            };
            proof {
                assert(self.chars@.take(pos + 1).drop_last() =~= self.chars@.take(pos as int));
            }
            self.at = Cursor { pos: pos + 1, line };
        }
    }

    /// Moves past the current character if it is `c`, and says whether it was.
    pub fn advance_if(&mut self, c: char) -> (b: bool)
        ensures
            final(self).input() == old(self).input(),
            b == (char_at(old(self).input(), old(self).pos()) == Some(c)),
            final(self).pos() == (if b {
                old(self).pos() + 1
            } else {
                old(self).pos()
            }),
            0 <= final(self).pos() <= final(self).input().len(),
    {
        match self.ch() {
            Some(ch) => {
                if ch == c {
                    self.advance();
                    true
                } else {
                    false
                }
            },
            None => false,
        }
    }
}

/// The digit in base `radix` that stands at position `i` of `s`, if one does.
pub open spec fn digit_at(s: Seq<char>, i: int, radix: u32) -> Option<u32> {
    match char_at(s, i) {
        Some(c) => digit_in_radix(c, radix),
        None => None,
    }
}

/// The number that two decimal digits at `i` and `i + 1` denote, with the
/// position after what was read: both digits, the first alone if no second
/// follows it, or nothing.
pub open spec fn two_digits_at(s: Seq<char>, i: int) -> (Option<u8>, int) {
    match digit_at(s, i, 10) {
        Some(d1) => match digit_at(s, i + 1, 10) {
            Some(d2) => (Some((d1 * 10 + d2) as u8), i + 2),
            None => (None, i + 1),
        },
        None => (None, i),
    }
}

/// Appending a digit to a run multiplies its value by ten and adds the digit,
/// and this commutes with reduction modulo 2^64.
proof fn lemma_wrapped_decimal_step(s: Seq<char>, i: int, j: int)
    requires
        0 <= i <= j < s.len(),
        is_decimal_digit(s[j]),
    ensures
        wrapped_decimal(s, i, j + 1) as int == (wrapped_decimal(s, i, j) * 10 + (s[j] as int
            - '0' as int)) % 0x1_0000_0000_0000_0000,
{
    let run = s.subrange(i, j + 1);
    assert(run.drop_last() =~= s.subrange(i, j));
    let v = decimal_value(s.subrange(i, j)) as int;
    let d = s[j] as int - '0' as int;
    let m = 0x1_0000_0000_0000_0000int;
    assert(decimal_value(run) == v * 10 + d);
    vstd::arithmetic::div_mod::lemma_mul_mod_noop_left(v, 10, m);
    vstd::arithmetic::div_mod::lemma_add_mod_noop(v * 10, d, m);
    vstd::arithmetic::div_mod::lemma_add_mod_noop((v % m) * 10, d, m);
}

impl Parser {
    /// Reads the current character as a digit in base `radix`. The cursor
    /// moves only if it is one.
    pub fn read_digit(&mut self, radix: u32) -> (r: Option<u8>)
        ensures
            final(self).input() == old(self).input(),
            match digit_at(old(self).input(), old(self).pos(), radix) {
                Some(d) => r == Some(d as u8) && final(self).pos() == old(self).pos() + 1,
                None => r is None && final(self).pos() == old(self).pos(),
            },
            0 <= final(self).pos() <= final(self).input().len(),
    {
        match self.ch() {
            Some(c) => match to_digit(c, radix) {
                Some(n) => {
                    self.advance();
                    Some(n as u8)
                },
                None => None,
            },
            None => None,
        }
    }

    /// Reads two decimal digits as one number. Where the second digit is
    /// missing the first has still been read.
    pub fn read_two_digits(&mut self) -> (r: Option<u8>)
        ensures
            final(self).input() == old(self).input(),
            (r, final(self).pos()) == two_digits_at(old(self).input(), old(self).pos()),
            0 <= final(self).pos() <= final(self).input().len(),
    {
        let d1 = self.read_digit(10);
        let d2 = self.read_digit(10);
        match (d1, d2) {
            (Some(d1), Some(d2)) => Some(d1 * 10 + d2),
            _ => None,
        }
    }

    /// Reads a run of decimal digits. Returns the number it denotes, reduced
    /// modulo 2^64, and how many digits there were; `(None, 0)` if the current
    /// character is no digit.
    pub fn read_digits(&mut self) -> (r: (Option<u64>, usize))
        ensures
            final(self).input() == old(self).input(),
            final(self).pos() == digits_end(old(self).input(), old(self).pos()),
            r.1 == final(self).pos() - old(self).pos(),
            r.0 == (if r.1 == 0 {
                None
            } else {
                Some(wrapped_decimal(old(self).input(), old(self).pos(), final(self).pos()))
            }),
            0 <= old(self).pos() <= final(self).pos() <= final(self).input().len(),
    {
        let ghost s = self.input();
        let ghost start = self.pos();
        let mut num: u64 = 0;
        let mut ndigits: usize = 0;
        proof {
            use_type_invariant(&*self);
        }
        assert(decimal_value(s.subrange(start, start)) == 0);
        loop
            invariant
                self.input() == s,
                0 <= start <= self.pos() <= s.len(),
                ndigits == self.pos() - start,
                num == wrapped_decimal(s, start, self.pos()),
                digits_end(s, self.pos()) == digits_end(s, start),
            ensures
                self.input() == s,
                0 <= start <= self.pos() <= s.len(),
                ndigits == self.pos() - start,
                num == wrapped_decimal(s, start, self.pos()),
                self.pos() == digits_end(s, start),
            decreases s.len() - self.pos(),
        {
            let ghost here = self.pos();
            match self.read_digit(10) {
                Some(n) => {
                    proof {
                        lemma_wrapped_decimal_step(s, start, here);
                    }
                    num = num.wrapping_mul(10).wrapping_add(n as u64);
                    ndigits = ndigits + 1;
                },
                None => {
                    break ;
                },
            }
        }
        if ndigits == 0 {
            (None, 0)
        } else {
            (Some(num), ndigits)
        }
    }
}

impl Parser {
    /// Reads characters for as long as `f` accepts them and returns them as a
    /// string. The character that `f` refuses is not read.
    pub fn read_token<F: Fn(char) -> bool>(&mut self, f: F) -> (token: String)
        requires
            forall|c: char| call_requires(f, (c,)),
        ensures
            final(self).input() == old(self).input(),
            0 <= old(self).pos() <= final(self).pos() <= final(self).input().len(),
            token@ == old(self).input().subrange(old(self).pos(), final(self).pos()),
            forall|j: int|
                old(self).pos() <= j < final(self).pos() ==> call_ensures(
                    f,
                    (#[trigger] old(self).input()[j],),
                    true,
                ),
            final(self).pos() < final(self).input().len() ==> call_ensures(
                f,
                (final(self).input()[final(self).pos()],),
                false,
            ),
    {
        let ghost s = self.input();
        let ghost start = self.pos();
        let mut token = String::new();
        proof {
            use_type_invariant(&*self);
        }
        loop
            invariant
                self.input() == s,
                0 <= start <= self.pos() <= s.len(),
                token@ == s.subrange(start, self.pos()),
                forall|j: int| start <= j < self.pos() ==> call_ensures(f, (#[trigger] s[j],), true),
                forall|c: char| call_requires(f, (c,)),
            ensures
                self.input() == s,
                0 <= start <= self.pos() <= s.len(),
                token@ == s.subrange(start, self.pos()),
                forall|j: int| start <= j < self.pos() ==> call_ensures(f, (#[trigger] s[j],), true),
                self.pos() < s.len() ==> call_ensures(f, (s[self.pos()],), false),
            decreases s.len() - self.pos(),
        {
            match self.ch() {
                Some(ch) => {
                    if f(ch) {
                        proof {
                            assert(s.subrange(start, self.pos()).push(ch) =~= s.subrange(
                                start,
                                self.pos() + 1,
                            ));
                        }
                        token.push(ch);
                    } else {
                        break ;
                    }
                },
                None => {
                    break ;
                },
            }
            self.advance();
        }
        token
    }

    /// Reads the name in a section header: everything up to a tab, a newline,
    /// a carriage return or a square bracket.
    pub fn parse_section_identifier(&mut self) -> (name: String)
        ensures
            final(self).input() == old(self).input(),
            final(self).pos() == scan_while(old(self).input(), old(self).pos(), section_char()),
            name@ == old(self).input().subrange(old(self).pos(), final(self).pos()),
            0 <= old(self).pos() <= final(self).pos() <= final(self).input().len(),
    {
        let ghost s = self.input();
        let ghost start = self.pos();
        let name = self.read_token(accepts_in_section_name);
        proof {
            lemma_scan_while_is(s, start, section_char(), self.pos());
        }
        name
    }

    /// Reads a bare key: everything up to a blank character or `=`.
    pub fn parse_key(&mut self) -> (key: String)
        ensures
            final(self).input() == old(self).input(),
            final(self).pos() == scan_while(old(self).input(), old(self).pos(), key_char()),
            key@ == old(self).input().subrange(old(self).pos(), final(self).pos()),
            0 <= old(self).pos() <= final(self).pos() <= final(self).input().len(),
    {
        let ghost s = self.input();
        let ghost start = self.pos();
        let key = self.read_token(accepts_in_key);
        proof {
            lemma_scan_while_is(s, start, key_char(), self.pos());
        }
        key
    }

    /// Moves past blank characters.
    pub fn skip_whitespaces(&mut self)
        ensures
            final(self).input() == old(self).input(),
            final(self).pos() == skip_blanks(old(self).input(), old(self).pos()),
            0 <= old(self).pos() <= final(self).pos() <= final(self).input().len(),
    {
        let ghost s = self.input();
        let ghost start = self.pos();
        proof {
            use_type_invariant(&*self);
        }
        loop
            invariant
                self.input() == s,
                0 <= start <= self.pos() <= s.len(),
                skip_blanks(s, self.pos()) == skip_blanks(s, start),
            ensures
                self.input() == s,
                0 <= start <= self.pos() <= s.len(),
                self.pos() == skip_blanks(s, start),
            decreases s.len() - self.pos(),
        {
            match self.ch() {
                Some(c) => {
                    if c == ' ' || c == '\t' || c == '\r' || c == '\n' {
                        self.advance();
                    } else {
                        break ;
                    }
                },
                None => {
                    break ;
                },
            }
        }
    }

    /// Moves past the rest of the current line: to the position after the next
    /// newline that follows the current character, or to the end of the input.
    /// Called at a `#`, this skips the comment.
    pub fn skip_comment(&mut self)
        ensures
            final(self).input() == old(self).input(),
            final(self).pos() == skip_line(old(self).input(), old(self).pos()),
            0 <= old(self).pos() <= final(self).pos() <= final(self).input().len(),
    {
        let ghost s = self.input();
        let ghost start = self.pos();
        proof {
            use_type_invariant(&*self);
        }
        self.advance();
        let ghost from = self.pos();
        loop
            invariant_except_break
                scan_while(s, self.pos(), not_newline()) == scan_while(s, from, not_newline()),
            invariant
                self.input() == s,
                0 <= start <= from <= self.pos() <= s.len(),
                from == (if start < s.len() { start + 1 } else { start }),
            ensures
                self.input() == s,
                0 <= start <= self.pos() <= s.len(),
                self.pos() == skip_line(s, start),
            decreases s.len() - self.pos(),
        {
            match self.ch() {
                Some(c) => {
                    self.advance();
                    if c == '\n' {
                        break ;
                    }
                },
                None => {
                    break ;
                },
            }
        }
    }

    /// Moves past blank characters and comments.
    pub fn skip_whitespaces_and_comments(&mut self)
        ensures
            final(self).input() == old(self).input(),
            final(self).pos() == skip_blanks_and_comments(old(self).input(), old(self).pos()),
            0 <= old(self).pos() <= final(self).pos() <= final(self).input().len(),
    {
        let ghost s = self.input();
        let ghost start = self.pos();
        proof {
            use_type_invariant(&*self);
        }
        loop
            invariant
                self.input() == s,
                0 <= start <= self.pos() <= s.len(),
                skip_blanks_and_comments(s, self.pos()) == skip_blanks_and_comments(s, start),
            ensures
                self.input() == s,
                0 <= start <= self.pos() <= s.len(),
                self.pos() == skip_blanks_and_comments(s, start),
            decreases s.len() - self.pos(),
        {
            match self.ch() {
                Some(c) => {
                    if c == ' ' || c == '\t' || c == '\r' || c == '\n' {
                        self.advance();
                    } else if c == '#' {
                        proof {
                            lemma_scan_while(s, self.pos() + 1, not_newline());
                        }
                        self.skip_comment();
                    } else {
                        break ;
                    }
                },
                None => {
                    break ;
                },
            }
        }
    }
}

} // verus!
