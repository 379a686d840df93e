//! The grammar of values, as functions from a position in the text to what
//! stands there and to the position after it.
//!
//! Each function gives the position that the scanner is left at in every case,
//! also where nothing well-formed stands: inside an array a failed element ends
//! the list of elements, and what follows is read from where the failed
//! attempt stopped.

use vstd::prelude::*;
use crate::scanner::{
    char_at, decimal_digit, digit_at, digits_end, lemma_scan_while, lemma_skip_blanks_and_comments,
    skip_blanks_and_comments, two_digits_at, wrapped_decimal,
};
use crate::text::is_decimal_digit;
use crate::value::{equiv_types, DecimalLiteralView, ValueView};

verus! {

/// The character that a one-letter escape stands for.
pub open spec fn simple_escape(e: char) -> Option<char> {
    if e == 'b' {
        Some('\u{8}')
    } else if e == 't' {
        Some('\t')
    } else if e == 'n' {
        Some('\n')
    } else if e == 'f' {
        Some('\u{c}')
    } else if e == 'r' {
        Some('\r')
    } else if e == '"' {
        Some('"')
    } else if e == '/' {
        Some('/')
    } else if e == '\\' {
        Some('\\')
    } else {
        None
    }
}

/// The characters that may not stand unescaped in a string: carriage return,
/// newline, form feed and backspace.
pub open spec fn is_forbidden_in_string(c: char) -> bool {
    c == '\r' || c == '\n' || c == '\u{c}' || c == '\u{8}'
}

/// The number that four hexadecimal digits at `i` denote, with the position
/// after the digits that were read: all four, or as many as stand there.
pub open spec fn hex4_at(s: Seq<char>, i: int) -> (Option<u32>, int) {
    match digit_at(s, i, 16) {
        None => (None, i),
        Some(d1) => match digit_at(s, i + 1, 16) {
            None => (None, i + 1),
            Some(d2) => match digit_at(s, i + 2, 16) {
                None => (None, i + 2),
                Some(d3) => match digit_at(s, i + 3, 16) {
                    None => (None, i + 3),
                    Some(d4) => (Some((((d1 * 16 + d2) * 16 + d3) * 16 + d4) as u32), i + 4),
                },
            },
        },
    }
}

/// The character with code `code`, if the code is a Unicode scalar value.
pub open spec fn scalar(code: u32) -> Option<char> {
    if code <= 0xD7FF || (0xE000 <= code <= 0x10FFFF) {
        Some(code as char)
    } else {
        None
    }
}

/// The rest of a string literal from position `i` on, the opening quote and
/// the characters `acc` having been read: the string's characters and the
/// position after the closing quote, or `None` and the position at which the
/// literal went wrong.
pub open spec fn string_body(s: Seq<char>, i: int, acc: Seq<char>) -> (Option<Seq<char>>, int)
    decreases s.len() - i,
{
    match char_at(s, i) {
        None => (None, i),
        Some(c) => if is_forbidden_in_string(c) {
            (None, i)
        } else if c == '"' {
            (Some(acc), i + 1)
        } else if c == '\\' {
            match char_at(s, i + 1) {
                None => (None, i + 1),
                Some(e) => if e == 'u' {
                    match hex4_at(s, i + 2) {
                        (Some(code), j) => match scalar(code) {
                            Some(ch) => string_body(s, j, acc.push(ch)),
                            None => (None, j),
                        },
                        (None, j) => (None, j),
                    }
                } else {
                    match simple_escape(e) {
                        Some(ch) => string_body(s, i + 2, acc.push(ch)),
                        None => (None, i + 1),
                    }
                },
            }
        } else {
            string_body(s, i + 1, acc.push(c))
        },
    }
}

/// The string literal at position `i`.
pub open spec fn string_at(s: Seq<char>, i: int) -> (Option<Seq<char>>, int) {
    if char_at(s, i) == Some('"') {
        string_body(s, i + 1, Seq::empty())
    } else {
        (None, i)
    }
}

/// How many characters of `word`, from its first, stand at position `i`.
pub open spec fn matched_prefix(s: Seq<char>, i: int, word: Seq<char>) -> int
    decreases word.len(),
{
    if word.len() > 0 && char_at(s, i) == Some(word[0]) {
        1 + matched_prefix(s, i + 1, word.drop_first())
    } else {
        0
    }
}

/// The value of each of `digits` as a decimal digit.
pub open spec fn digit_values(digits: Seq<char>) -> Seq<u8> {
    Seq::new(digits.len(), |k: int| (digits[k] as int - '0' as int) as u8)
}

/// What follows the point of a decimal literal with the given sign and whole
/// part: a run of at least one digit.
pub open spec fn fraction_at(s: Seq<char>, i: int, negative: bool, whole: u64) -> (ValueView, int) {
    let j = digits_end(s, i);
    if j > i {
        (
            ValueView::Float(
                DecimalLiteralView { negative, whole, fraction: digit_values(s.subrange(i, j)) },
            ),
            j,
        )
    } else {
        (ValueView::NoValue, i)
    }
}

/// What follows the year and the first hyphen of a datetime: `MM-DDThh:mm:ssZ`,
/// each field of two digits and within its range.
pub open spec fn datetime_rest(s: Seq<char>, i: int, year: u16) -> (ValueView, int) {
    let (month, p1) = two_digits_at(s, i);
    if month is None || char_at(s, p1) != Some('-') {
        (ValueView::NoValue, p1)
    } else {
        let (day, p2) = two_digits_at(s, p1 + 1);
        if day is None || char_at(s, p2) != Some('T') {
            (ValueView::NoValue, p2)
        } else {
            let (hour, p3) = two_digits_at(s, p2 + 1);
            if hour is None || char_at(s, p3) != Some(':') {
                (ValueView::NoValue, p3)
            } else {
                let (minute, p4) = two_digits_at(s, p3 + 1);
                if minute is None || char_at(s, p4) != Some(':') {
                    (ValueView::NoValue, p4)
                } else {
                    let (second, p5) = two_digits_at(s, p4 + 1);
                    if second is None || char_at(s, p5) != Some('Z') {
                        (ValueView::NoValue, p5)
                    } else if ValueView::datetime_in_range(
                        month->0,
                        day->0,
                        hour->0,
                        minute->0,
                        second->0,
                    ) {
                        (
                            ValueView::Datetime(
                                year,
                                month->0,
                                day->0,
                                hour->0,
                                minute->0,
                                second->0,
                            ),
                            p5 + 1,
                        )
                    } else {
                        (ValueView::NoValue, p5 + 1)
                    }
                }
            }
        }
    }
}

/// The value at position `i`, after any blank characters and comments, with
/// the position after it. `NoValue` where no well-formed value stands.
///
/// A `-` starts a negative integer or decimal. A digit starts a decimal (a
/// point follows the digits), a datetime (exactly four digits and a hyphen),
/// or an unsigned integer. `t` and `f` start `true` and `false`, `[` an array
/// and `"` a string.
pub open spec fn value_at(s: Seq<char>, i: int) -> (ValueView, int)
    decreases s.len() - i, 0nat,
{
    let p = skip_blanks_and_comments(s, i);
    match char_at(s, p) {
        None => (ValueView::NoValue, p),
        Some(c) => if c == '-' {
            let j = digits_end(s, p + 1);
            if j == p + 1 {
                (ValueView::NoValue, j)
            } else if char_at(s, j) == Some('.') {
                fraction_at(s, j + 1, true, wrapped_decimal(s, p + 1, j))
            } else {
                (ValueView::Signed(wrapped_decimal(s, p + 1, j)), j)
            }
        } else if is_decimal_digit(c) {
            let j = digits_end(s, p);
            if char_at(s, j) == Some('.') {
                fraction_at(s, j + 1, false, wrapped_decimal(s, p, j))
            } else if char_at(s, j) == Some('-') && j - p == 4 {
                datetime_rest(s, j + 1, wrapped_decimal(s, p, j) as u16)
            } else {
                (ValueView::Unsigned(wrapped_decimal(s, p, j)), j)
            }
        } else if c == 't' {
            let n = matched_prefix(s, p + 1, seq!['r', 'u', 'e']);
            (
                if n == 3 {
                    ValueView::Boolean(true)
                } else {
                    ValueView::NoValue
                },
                p + 1 + n,
            )
        } else if c == 'f' {
            let n = matched_prefix(s, p + 1, seq!['a', 'l', 's', 'e']);
            (
                if n == 4 {
                    ValueView::Boolean(false)
                } else {
                    ValueView::NoValue
                },
                p + 1 + n,
            )
        } else if c == '[' {
            proof {
                if 0 <= i <= s.len() {
                    lemma_skip_blanks_and_comments(s, i);
                }
            }
            array_items(s, p + 1, Seq::empty())
        } else if c == '"' {
            match string_at(s, p) {
                (Some(chars), j) => (ValueView::String(chars), j),
                (None, j) => (ValueView::NoValue, j),
            }
        } else {
            (ValueView::NoValue, p)
        },
    }
}

/// The rest of an array from position `i` on, the opening bracket and the
/// elements `acc` having been read.
///
/// An element that is `NoValue` ends the list. An element that is not
/// compatible with the first makes the whole array `NoValue`. After an element
/// a comma continues the list, anything else ends it. The list once ended, a
/// closing bracket must follow.
pub open spec fn array_items(s: Seq<char>, i: int, acc: Seq<ValueView>) -> (ValueView, int)
    decreases s.len() - i, 1nat,
{
    let (v, e) = value_at(s, i);
    if v is NoValue {
        array_close(s, e, acc)
    } else if acc.len() > 0 && !equiv_types(acc[0], v) {
        (ValueView::NoValue, e)
    } else {
        let j = skip_blanks_and_comments(s, e);
        if char_at(s, j) == Some(',') && i <= j {
            array_items(s, j + 1, acc.push(v))
        } else {
            array_close(s, j, acc.push(v))
        }
    }
}

/// The end of an array whose elements `acc` have been read: a closing bracket
/// after any blank characters and comments.
pub open spec fn array_close(s: Seq<char>, i: int, acc: Seq<ValueView>) -> (ValueView, int) {
    let j = skip_blanks_and_comments(s, i);
    if char_at(s, j) == Some(']') {
        (ValueView::Array(acc), j + 1)
    } else {
        (ValueView::NoValue, j)
    }
}

/// The rest of a string ends at or after its start, within the text.
pub proof fn lemma_string_body_bounds(s: Seq<char>, i: int, acc: Seq<char>)
    requires
        0 <= i <= s.len(),
    ensures
        i <= string_body(s, i, acc).1 <= s.len(),
    decreases s.len() - i,
{
    match char_at(s, i) {
        None => {},
        Some(c) => {
            if is_forbidden_in_string(c) || c == '"' {
            } else if c == '\\' {
                match char_at(s, i + 1) {
                    None => {},
                    Some(e) => {
                        if e == 'u' {
                            match hex4_at(s, i + 2) {
                                (Some(code), j) => match scalar(code) {
                                    Some(ch) => {
                                        lemma_string_body_bounds(s, j, acc.push(ch));
                                    },
                                    None => {},
                                },
                                (None, j) => {},
                            }
                        } else {
                            match simple_escape(e) {
                                Some(ch) => {
                                    lemma_string_body_bounds(s, i + 2, acc.push(ch));
                                },
                                None => {},
                            }
                        }
                    },
                }
            } else {
                lemma_string_body_bounds(s, i + 1, acc.push(c));
            }
        },
    }
}

/// A matched prefix is no longer than the word and lies within the text.
pub proof fn lemma_matched_prefix_bounds(s: Seq<char>, i: int, word: Seq<char>)
    requires
        0 <= i <= s.len(),
    ensures
        0 <= matched_prefix(s, i, word) <= word.len(),
        i + matched_prefix(s, i, word) <= s.len(),
    decreases word.len(),
{
    if word.len() > 0 && char_at(s, i) == Some(word[0]) {
        lemma_matched_prefix_bounds(s, i + 1, word.drop_first());
    }
}

/// A datetime ends at or after its start, within the text, and is a datetime
/// with fields in range where it is a value at all.
pub proof fn lemma_datetime_rest(s: Seq<char>, i: int, year: u16)
    requires
        0 <= i <= s.len(),
    ensures
        i <= datetime_rest(s, i, year).1 <= s.len(),
        datetime_rest(s, i, year).0 is NoValue || (datetime_rest(s, i, year).0 is Datetime
            && datetime_rest(s, i, year).0.wf()),
{
}

/// The value at a position ends at or after the position, within the text.
/// It is well formed and holds no table.
pub proof fn lemma_value_at(s: Seq<char>, i: int)
    requires
        0 <= i <= s.len(),
    ensures
        i <= value_at(s, i).1 <= s.len(),
        value_at(s, i).0.wf(),
        value_at(s, i).0.is_leaf(),
    decreases s.len() - i, 0nat,
{
    lemma_skip_blanks_and_comments(s, i);
    let p = skip_blanks_and_comments(s, i);
    match char_at(s, p) {
        None => {},
        Some(c) => {
            if c == '-' {
                lemma_scan_while(s, p + 1, decimal_digit());
                let j = digits_end(s, p + 1);
                if j + 1 <= s.len() {
                    lemma_scan_while(s, j + 1, decimal_digit());
                }
            } else if is_decimal_digit(c) {
                lemma_scan_while(s, p, decimal_digit());
                let j = digits_end(s, p);
                if j + 1 <= s.len() {
                    lemma_scan_while(s, j + 1, decimal_digit());
                    lemma_datetime_rest(s, j + 1, wrapped_decimal(s, p, j) as u16);
                }
            } else if c == 't' {
                lemma_matched_prefix_bounds(s, p + 1, seq!['r', 'u', 'e']);
            } else if c == 'f' {
                lemma_matched_prefix_bounds(s, p + 1, seq!['a', 'l', 's', 'e']);
            } else if c == '[' {
                lemma_array_items(s, p + 1, Seq::empty());
            } else if c == '"' {
                lemma_string_body_bounds(s, p + 1, Seq::empty());
            }
        },
    }
}

/// The rest of an array ends at or after its start, within the text. Where
/// the elements read so far are well formed, hold no table and are compatible
/// with the first of them, so is the array.
pub proof fn lemma_array_items(s: Seq<char>, i: int, acc: Seq<ValueView>)
    requires
        0 <= i <= s.len(),
        forall|k: int|
            0 <= k < acc.len() ==> (#[trigger] acc[k]).wf() && equiv_types(acc[0], acc[k]),
    ensures
        i <= array_items(s, i, acc).1 <= s.len(),
        array_items(s, i, acc).0.wf(),
        array_items(s, i, acc).0.is_leaf(),
    decreases s.len() - i, 1nat,
{
    lemma_value_at(s, i);
    let (v, e) = value_at(s, i);
    lemma_skip_blanks_and_comments(s, e);
    if v is NoValue {
    } else if acc.len() > 0 && !equiv_types(acc[0], v) {
    } else {
        let j = skip_blanks_and_comments(s, e);
        lemma_skip_blanks_and_comments(s, j);
        let next = acc.push(v);
        assert forall|k: int| 0 <= k < next.len() implies (#[trigger] next[k]).wf() && equiv_types(
            next[0],
            next[k],
        ) by {
            if k < acc.len() {
                assert(next[k] == acc[k]);
            }
        }
        if char_at(s, j) == Some(',') {
            lemma_array_items(s, j + 1, next);
        }
    }
}

} // verus!
