//! The value parser: strings, numbers, datetimes, booleans and arrays.

use vstd::prelude::*;
use crate::grammar::{
    array_close, array_items, datetime_rest, digit_values, fraction_at, lemma_value_at,
    matched_prefix, string_at, string_body, value_at,
};
use crate::scanner::{
    char_at, decimal_digit, digits_end, lemma_scan_while, lemma_skip_blanks_and_comments,
    wrapped_decimal, Parser,
};
use crate::text::{decimal_value, is_decimal_digit};
use crate::value::{have_equiv_types, views_of, DecimalLiteral, Value, ValueView};

verus! {

/// A run of `n` decimal digits denotes a number below `10^n`; here for the
/// four digits of a year.
proof fn lemma_four_digits_bound(s: Seq<char>, i: int)
    requires
        0 <= i,
        i + 4 <= s.len(),
        forall|k: int| i <= k < i + 4 ==> is_decimal_digit(#[trigger] s[k]),
    ensures
        decimal_value(s.subrange(i, i + 4)) < 10000,
        wrapped_decimal(s, i, i + 4) < 10000,
{
    let d4 = s.subrange(i, i + 4);
    let d3 = d4.drop_last();
    let d2 = d3.drop_last();
    let d1 = d2.drop_last();
    let d0 = d1.drop_last();
    assert(d0.len() == 0);
    assert(decimal_value(d0) == 0);
    assert(d1.last() == s[i]);
    assert(d2.last() == s[i + 1]);
    assert(d3.last() == s[i + 2]);
    assert(d4.last() == s[i + 3]);
    assert(decimal_value(d1) <= 9);
    assert(decimal_value(d2) <= 99);
    assert(decimal_value(d3) <= 999);
    assert(decimal_value(d4) <= 9999);
}

impl Parser {
    /// Reads a string literal: an opening quote, characters and escapes, and
    /// a closing quote. `None` where the literal is malformed.
    pub fn parse_string(&mut self) -> (r: Option<String>)
        ensures
            final(self).input() == old(self).input(),
            match string_at(old(self).input(), old(self).pos()) {
                (Some(chars), end) => r is Some && r->0@ == chars && final(self).pos() == end,
                (None, end) => r is None && final(self).pos() == end,
            },
            0 <= old(self).pos() <= final(self).pos() <= final(self).input().len(),
    {
        let ghost s = self.input();
        let ghost start = self.pos();
        if !self.advance_if('"') {
            return None;
        }
        let mut text = String::new();
        loop
            invariant
                self.input() == s,
                old(self).input() == s,
                old(self).pos() == start,
                char_at(s, start) == Some('"'),
                0 <= start < self.pos() <= s.len(),
                string_body(s, self.pos(), text@) == string_body(s, start + 1, Seq::empty()),
            decreases s.len() - self.pos(),
        {
            let c = match self.ch() {
                Some(c) => c,
                None => {
                    return None;
                },
            };
            if c == '\r' || c == '\n' || c == '\u{c}' || c == '\u{8}' {
                return None;
            }
            if c == '"' {
                self.advance();
                return Some(text);
            }
            if c != '\\' {
                text.push(c);
                self.advance();
                continue ;
            }
            self.advance();
            let e = match self.ch() {
                Some(e) => e,
                None => {
                    return None;
                },
            };
            if e == 'u' {
                self.advance();
                let d1 = self.read_digit(16);
                let d2 = self.read_digit(16);
                let d3 = self.read_digit(16);
                let d4 = self.read_digit(16);
                match (d1, d2, d3, d4) {
                    (Some(d1), Some(d2), Some(d3), Some(d4)) => {
                        let code: u32 = ((d1 as u32 * 16 + d2 as u32) * 16 + d3 as u32) * 16
                            + d4 as u32;
                        match char::from_u32(code) {
                            Some(ch) => {
                                text.push(ch);
                            },
                            None => {
                                return None;
                            },
                        }
                    },
                    _ => {
                        return None;
                    },
                }
            } else {
                let ch = if e == 'b' {
                    '\u{8}'
                } else if e == 't' {
                    '\t'
                } else if e == 'n' {
                    '\n'
                } else if e == 'f' {
                    '\u{c}'
                } else if e == 'r' {
                    '\r'
                } else if e == '"' {
                    '"'
                } else if e == '/' {
                    '/'
                } else if e == '\\' {
                    '\\'
                } else {
                    return None;
                };
                text.push(ch);
                self.advance();
            }
        }
    }
}

impl Parser {
    /// Reads the digits after the point of a decimal literal.
    pub fn read_float_mantissa(&mut self) -> (digits: Vec<u8>)
        ensures
            final(self).input() == old(self).input(),
            final(self).pos() == digits_end(old(self).input(), old(self).pos()),
            digits@ == digit_values(old(self).input().subrange(old(self).pos(), final(self).pos())),
            0 <= old(self).pos() <= final(self).pos() <= final(self).input().len(),
    {
        let ghost s = self.input();
        let ghost start = self.pos();
        let mut digits: Vec<u8> = Vec::new();
        proof {
            self.lemma_pos_bounds();
        }
        loop
            invariant
                self.input() == s,
                0 <= start <= self.pos() <= s.len(),
                digits@ == digit_values(s.subrange(start, self.pos())),
                digits_end(s, self.pos()) == digits_end(s, start),
            ensures
                self.input() == s,
                0 <= start <= self.pos() <= s.len(),
                digits@ == digit_values(s.subrange(start, self.pos())),
                self.pos() == digits_end(s, start),
            decreases s.len() - self.pos(),
        {
            let ghost here = self.pos();
            match self.read_digit(10) {
                Some(n) => {
                    proof {
                        assert(digit_values(s.subrange(start, here)).push(n) =~= digit_values(
                            s.subrange(start, here + 1),
                        ));
                    }
                    digits.push(n);
                },
                None => {
                    break ;
                },
            }
        }
        digits
    }
}

impl Parser {
    /// Reads what follows the point of a decimal literal whose whole part is
    /// `n`: at least one digit. `NoValue` if no digit stands there.
    pub fn parse_float_rest(&mut self, n: u64, negative: bool) -> (v: Value)
        ensures
            final(self).input() == old(self).input(),
            (v@, final(self).pos()) == fraction_at(
                old(self).input(),
                old(self).pos(),
                negative,
                n,
            ),
            0 <= old(self).pos() <= final(self).pos() <= final(self).input().len(),
    {
        let ghost s = self.input();
        let ghost start = self.pos();
        proof {
            self.lemma_pos_bounds();
            lemma_scan_while(s, start, decimal_digit());
        }
        match self.ch() {
            Some(c) => {
                if '0' <= c && c <= '9' {
                    let digits = self.read_float_mantissa();
                    Value::Float(DecimalLiteral { negative, whole: n, fraction: digits })
                } else {
                    Value::NoValue
                }
            },
            None => Value::NoValue,
        }
    }

    /// Reads what follows the year and the first hyphen of a datetime.
    fn parse_datetime_rest(&mut self, year: u16) -> (v: Value)
        ensures
            final(self).input() == old(self).input(),
            (v@, final(self).pos()) == datetime_rest(old(self).input(), old(self).pos(), year),
            0 <= old(self).pos() <= final(self).pos() <= final(self).input().len(),
    {
        proof {
            self.lemma_pos_bounds();
        }
        let month = self.read_two_digits();
        if month.is_none() || !self.advance_if('-') {
            return Value::NoValue;
        }
        let day = self.read_two_digits();
        if day.is_none() || !self.advance_if('T') {
            return Value::NoValue;
        }
        let hour = self.read_two_digits();
        if hour.is_none() || !self.advance_if(':') {
            return Value::NoValue;
        }
        let min = self.read_two_digits();
        if min.is_none() || !self.advance_if(':') {
            return Value::NoValue;
        }
        let sec = self.read_two_digits();
        if sec.is_none() || !self.advance_if('Z') {
            return Value::NoValue;
        }
        match (month, day, hour, min, sec) {
            (Some(m), Some(d), Some(h), Some(min), Some(s)) => {
                if m > 0 && m <= 12 && d > 0 && d <= 31 && h <= 24 && min <= 60 && s <= 60 {
                    Value::Datetime(year, m, d, h, min, s)
                } else {
                    Value::NoValue
                }
            },
            _ => Value::NoValue,
        }
    }

    /// Reads the rest of a keyword whose first letter has been read, and says
    /// whether all of `rest` stood there. The cursor is left after the
    /// letters that matched.
    fn parse_keyword_rest(&mut self, rest: &[char]) -> (ok: bool)
        ensures
            final(self).input() == old(self).input(),
            final(self).pos() == old(self).pos() + matched_prefix(
                old(self).input(),
                old(self).pos(),
                rest@,
            ),
            ok == (matched_prefix(old(self).input(), old(self).pos(), rest@) == rest@.len()),
            0 <= old(self).pos() <= final(self).pos() <= final(self).input().len(),
    {
        let ghost s = self.input();
        let ghost start = self.pos();
        proof {
            self.lemma_pos_bounds();
        }
        let mut k: usize = 0;
        assert(rest@.skip(0) =~= rest@);
        while k < rest.len()
            invariant
                self.input() == s,
                old(self).input() == s,
                old(self).pos() == start,
                0 <= start <= self.pos() <= s.len(),
                k <= rest@.len(),
                self.pos() == start + k,
                matched_prefix(s, start, rest@) == k + matched_prefix(s, self.pos(), rest@.skip(k as int)),
            decreases rest@.len() - k,
        {
            proof {
                assert(rest@.skip(k as int).drop_first() =~= rest@.skip(k + 1));
            }
            if !self.advance_if(rest[k]) {
                return false;
            }
            k += 1;
        }
        true
    }
}

impl Parser {
    /// Reads one value, after any blank characters and comments. Returns
    /// `NoValue` where no well-formed value stands; the cursor is then left
    /// where the attempt stopped. What is returned is well formed and is
    /// neither a table nor an array of tables.
    pub fn parse_value(&mut self) -> (v: Value)
        ensures
            final(self).input() == old(self).input(),
            (v@, final(self).pos()) == value_at(old(self).input(), old(self).pos()),
            v@.wf(),
            v@.is_leaf(),
            0 <= old(self).pos() <= final(self).pos() <= final(self).input().len(),
        decreases old(self).input().len() - old(self).pos(),
    {
        let ghost s = self.input();
        let ghost start = self.pos();
        proof {
            self.lemma_pos_bounds();
            lemma_value_at(s, start);
        }
        self.skip_whitespaces_and_comments();
        let ghost p = self.pos();
        let c = match self.ch() {
            Some(c) => c,
            None => {
                return Value::NoValue;
            },
        };
        if c == '-' {
            self.advance();
            match self.read_digits() {
                (Some(n), _) => {
                    if self.advance_if('.') {
                        self.parse_float_rest(n, true)
                    } else {
                        Value::Signed(n)
                    }
                },
                (None, _) => Value::NoValue,
            }
        } else if '0' <= c && c <= '9' {
            match self.read_digits() {
                (Some(n), ndigits) => {
                    match self.ch() {
                        Some('.') => {
                            self.advance();
                            self.parse_float_rest(n, false)
                        },
                        Some('-') => {
                            if ndigits == 4 {
                                proof {
                                    lemma_scan_while(s, p, decimal_digit());
                                    lemma_four_digits_bound(s, p);
                                }
                                self.advance();
                                self.parse_datetime_rest(n as u16)
                            } else {
                                Value::Unsigned(n)
                            }
                        },
                        _ => Value::Unsigned(n),
                    }
                },
                (None, _) => {
                    proof {
                        lemma_scan_while(s, p, decimal_digit());
                    }
                    Value::NoValue
                },
            }
        } else if c == 't' {
            self.advance();
            let word = ['r', 'u', 'e'];
            assert(word@ =~= seq!['r', 'u', 'e']);
            if self.parse_keyword_rest(word.as_slice()) {
                Value::Boolean(true)
            } else {
                Value::NoValue
            }
        } else if c == 'f' {
            self.advance();
            let word = ['a', 'l', 's', 'e'];
            assert(word@ =~= seq!['a', 'l', 's', 'e']);
            if self.parse_keyword_rest(word.as_slice()) {
                Value::Boolean(false)
            } else {
                Value::NoValue
            }
        } else if c == '[' {
            self.advance();
            let mut arr: Vec<Value> = Vec::new();
            assert(views_of(arr@) =~= Seq::<ValueView>::empty());
            loop
                invariant_except_break
                    array_items(s, self.pos(), views_of(arr@)) == value_at(s, start),
                invariant
                    self.input() == s,
                    old(self).input() == s,
                    old(self).pos() == start,
                    0 <= start <= p < self.pos() <= s.len(),
                ensures
                    self.input() == s,
                    0 <= start <= p < self.pos() <= s.len(),
                    array_close(s, self.pos(), views_of(arr@)) == value_at(s, start),
                decreases s.len() - self.pos(),
            {
                let ghost here = self.pos();
                let val = self.parse_value();
                match val {
                    Value::NoValue => {
                        break ;
                    },
                    _ => {},
                }
                if arr.len() > 0 {
                    if !have_equiv_types(&arr[0], &val) {
                        return Value::NoValue;
                    }
                }
                proof {
                    assert(views_of(arr@.push(val)) =~= views_of(arr@).push(val@));
                    lemma_skip_blanks_and_comments(s, self.pos());
                }
                arr.push(val);
                self.skip_whitespaces_and_comments();
                if !self.advance_if(',') {
                    break ;
                }
            }
            proof {
                lemma_skip_blanks_and_comments(s, self.pos());
            }
            self.skip_whitespaces_and_comments();
            if self.advance_if(']') {
                Value::Array(arr)
            } else {
                Value::NoValue
            }
        } else if c == '"' {
            match self.parse_string() {
                Some(text) => Value::String(text),
                None => Value::NoValue,
            }
        } else {
            Value::NoValue
        }
    }
}

} // verus!
