//! Dotted paths: splitting at the dots, and telling indices from keys.

use vstd::prelude::*;
use crate::scanner::{lemma_scan_while_is, scan_while};
use crate::text::{
    all_decimal_digits, chars_of, decimal_value, is_decimal_digit, string_of, strings_view,
};

verus! {

/// The predicate of all characters but the dot.
pub open spec fn not_dot() -> spec_fn(char) -> bool {
    |c: char| c != '.'
}

/// The segments between the dots of `s`: one more than there are dots, each
/// possibly empty.
pub open spec fn split_dots(s: Seq<char>) -> Seq<Seq<char>>
    decreases s.len(),
{
    let i = scan_while(s, 0, not_dot());
    if 0 <= i < s.len() {
        seq![s.take(i)] + split_dots(s.skip(i + 1))
    } else {
        seq![s]
    }
}

/// Splits `path` at its dots.
pub fn split_path(path: &str) -> (segments: Vec<String>)
    ensures
        strings_view(segments@) == split_dots(path@),
{
    let chars = chars_of(path);
    let ghost s = chars@;
    let n = chars.len();
    let mut segments: Vec<String> = Vec::new();
    let mut from: usize = 0;
    let mut i: usize = 0;
    assert(s.skip(0) =~= s);
    assert(strings_view(segments@) + split_dots(s.skip(0)) =~= split_dots(s));
    while i < n
        invariant
            chars@ == s,
            n == s.len(),
            from <= i <= n,
            forall|k: int| from <= k < i ==> s[k] != '.',
            strings_view(segments@) + split_dots(s.skip(from as int)) == split_dots(s),
        decreases n - i,
    {
        if chars[i] == '.' {
            let segment = string_of(vstd::slice::slice_subrange(chars.as_slice(), from, i));
            proof {
                let rest = s.skip(from as int);
                lemma_scan_while_is(rest, 0, not_dot(), i - from);
                assert(rest.take(i - from) =~= s.subrange(from as int, i as int));
                assert(rest.skip(i - from + 1) =~= s.skip(i + 1));
                assert(strings_view(segments@.push(segment)) =~= strings_view(segments@) + seq![
                    segment@,
                ]);
                assert(strings_view(segments@.push(segment)) + split_dots(s.skip(i + 1))
                    =~= strings_view(segments@) + split_dots(rest));
            }
            segments.push(segment);
            from = i + 1;
        }
        i += 1;
    }
    let segment = string_of(vstd::slice::slice_subrange(chars.as_slice(), from, n));
    proof {
        let rest = s.skip(from as int);
        lemma_scan_while_is(rest, 0, not_dot(), n - from);
        assert(rest =~= s.subrange(from as int, n as int));
        assert(strings_view(segments@.push(segment)) =~= strings_view(segments@) + seq![segment@]);
    }
    segments.push(segment);
    segments
}

/// The index that a path segment denotes, if it is written as one: decimal
/// digits, at least one, after at most one `+`, and a number that fits in
/// `usize`.
pub open spec fn index_of_segment(segment: Seq<char>) -> Option<nat> {
    let digits = if segment.len() > 0 && segment[0] == '+' {
        segment.skip(1)
    } else {
        segment
    };
    if digits.len() > 0 && all_decimal_digits(digits) && decimal_value(digits) <= usize::MAX {
        Some(decimal_value(digits))
    } else {
        None
    }
}

/// A run of digits denotes at least what any of its prefixes denotes.
proof fn lemma_decimal_value_monotone(digits: Seq<char>, k: int)
    requires
        0 <= k <= digits.len(),
        all_decimal_digits(digits),
    ensures
        decimal_value(digits.take(k)) <= decimal_value(digits),
    decreases digits.len() - k,
{
    if k < digits.len() {
        lemma_decimal_value_monotone(digits, k + 1);
        assert(digits.take(k + 1).drop_last() =~= digits.take(k));
        assert(is_decimal_digit(digits[k]));
    } else {
        assert(digits.take(k) =~= digits);
    }
}

/// Reads `segment` as an index.
pub fn parse_index(segment: &str) -> (r: Option<usize>)
    ensures
        match r {
            Some(n) => index_of_segment(segment@) == Some(n as nat),
            None => index_of_segment(segment@) is None,
        },
{
    let chars = chars_of(segment);
    let n = chars.len();
    let from: usize = if n > 0 && chars[0] == '+' {
        1
    } else {
        0
    };
    if from == n {
        return None;
    }
    let ghost digits = chars@.skip(from as int);
    let mut value: usize = 0;
    let mut i: usize = from;
    assert(digits.take(0) =~= Seq::<char>::empty());
    while i < n
        invariant
            n == chars@.len(),
            from <= i <= n,
            from < n,
            digits == chars@.skip(from as int),
            digits == (if segment@.len() > 0 && segment@[0] == '+' { segment@.skip(1) } else { segment@ }),
            forall|k: int| 0 <= k < i - from ==> is_decimal_digit(#[trigger] digits[k]),
            value == decimal_value(digits.take(i - from)),
        decreases n - i,
    {
        let c = chars[i];
        assert(digits[i - from] == c);
        if !('0' <= c && c <= '9') {
            return None;
        }
        let d: usize = (c as u32 - '0' as u32) as usize;
        proof {
            assert(digits.take(i - from + 1).drop_last() =~= digits.take(i - from));
            if all_decimal_digits(digits) {
                lemma_decimal_value_monotone(digits, i - from + 1);
            }
        }
        value = match value.checked_mul(10) {
            Some(v) => match v.checked_add(d) {
                Some(v) => v,
                None => {
                    return None;
                },
            },
            None => {
                return None;
            },
        };
        i += 1;
    }
    assert(digits.take(n - from) =~= digits);
    Some(value)
}

} // verus!
