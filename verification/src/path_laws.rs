//! Writing a path of keys and indices as a dotted path, and reading it back.

use vstd::prelude::*;
use crate::lookup::{element_of_segment, path_elements, PathElementView};
use crate::path::{index_of_segment, not_dot, split_dots};
use crate::scanner::{lemma_scan_while, lemma_scan_while_is, scan_while};
use crate::text::{all_decimal_digits, decimal_value, is_decimal_digit};

verus! {

/// The character of the decimal digit `d`.
pub open spec fn digit_char(d: nat) -> char {
    ('0' as nat + d) as char
}

/// The number `n` written in decimal digits, without leading zeros.
pub open spec fn decimal_digits(n: nat) -> Seq<char>
    decreases n,
{
    if n < 10 {
        seq![digit_char(n)]
    } else {
        decimal_digits(n / 10).push(digit_char(n % 10))
    }
}

/// The segment of a dotted path that denotes `element`: the key itself, or
/// the index in decimal digits.
pub open spec fn segment_of(element: PathElementView) -> Seq<char> {
    match element {
        PathElementView::Key(key) => key,
        PathElementView::Idx(idx) => decimal_digits(idx),
    }
}

/// The path `path` written as a dotted path: its segments with a dot between
/// each two.
pub open spec fn dotted(path: Seq<PathElementView>) -> Seq<char>
    decreases path.len(),
{
    if path.len() == 0 {
        Seq::empty()
    } else if path.len() == 1 {
        segment_of(path[0])
    } else {
        segment_of(path[0]) + seq!['.'] + dotted(path.drop_first())
    }
}

/// Whether `element` can be written in a dotted path and read back: a key
/// that holds no dot and is not written as an index is, and so is an index
/// that fits in `usize`.
pub open spec fn is_plain(element: PathElementView) -> bool {
    match element {
        PathElementView::Key(key) => !key.contains('.') && index_of_segment(key) is None,
        PathElementView::Idx(idx) => idx <= usize::MAX,
    }
}

/// The decimal digits of a number are digits, at least one, and denote the
/// number.
pub proof fn lemma_decimal_digits(n: nat)
    ensures
        decimal_digits(n).len() > 0,
        all_decimal_digits(decimal_digits(n)),
        decimal_value(decimal_digits(n)) == n,
    decreases n,
{
    if n < 10 {
        let digits = decimal_digits(n);
        assert(digits.drop_last().len() == 0);
        assert(decimal_value(digits.drop_last()) == 0);
        assert(digits.last() == digit_char(n));
    } else {
        lemma_decimal_digits(n / 10);
        let digits = decimal_digits(n);
        assert(digits.drop_last() =~= decimal_digits(n / 10));
        assert(digits.last() == digit_char(n % 10));
        assert forall|i: int| 0 <= i < digits.len() implies is_decimal_digit(
            #[trigger] digits[i],
        ) by {
            if i < digits.len() - 1 {
                assert(digits[i] == decimal_digits(n / 10)[i]);
            }
        }
    }
}

/// A segment is read back as the element that it was written for.
pub proof fn lemma_segment_read_back(element: PathElementView)
    requires
        is_plain(element),
    ensures
        element_of_segment(segment_of(element)) == element,
        !segment_of(element).contains('.'),
{
    match element {
        PathElementView::Idx(idx) => {
            lemma_decimal_digits(idx);
            let digits = decimal_digits(idx);
            assert(is_decimal_digit(digits[0]));
            if digits.contains('.') {
                let i = choose|i: int| 0 <= i < digits.len() && digits[i] == '.';
                assert(is_decimal_digit(digits[i]));
            }
        },
        _ => {},
    }
}

/// A text without a dot is one segment.
pub proof fn lemma_split_one(segment: Seq<char>)
    requires
        !segment.contains('.'),
    ensures
        split_dots(segment) == seq![segment],
{
    lemma_scan_while(segment, 0, not_dot());
    let i = scan_while(segment, 0, not_dot());
    if i < segment.len() {
        assert(segment[i] == '.');
    }
}

/// A text without a dot, a dot, and more text split into the text as the
/// first segment and the segments of what follows the dot.
pub proof fn lemma_split_first(segment: Seq<char>, rest: Seq<char>)
    requires
        !segment.contains('.'),
    ensures
        split_dots(segment + seq!['.'] + rest) == seq![segment] + split_dots(rest),
{
    let joined = segment + seq!['.'] + rest;
    let n = segment.len() as int;
    assert forall|j: int| 0 <= j < n implies not_dot()(#[trigger] joined[j]) by {
        assert(joined[j] == segment[j]);
        if joined[j] == '.' {
            assert(segment.contains('.'));
        }
    }
    assert(joined[n] == '.');
    lemma_scan_while_is(joined, 0, not_dot(), n);
    assert(joined.take(n) =~= segment);
    assert(joined.skip(n + 1) =~= rest);
}

/// A path written as a dotted path is read back as the path, where it is not
/// empty and each of its elements can be written and read back.
pub proof fn lemma_dotted_read_back(path: Seq<PathElementView>)
    requires
        path.len() > 0,
        forall|i: int| 0 <= i < path.len() ==> is_plain(#[trigger] path[i]),
    ensures
        path_elements(dotted(path)) == path,
    decreases path.len(),
{
    lemma_segment_read_back(path[0]);
    let first = segment_of(path[0]);
    if path.len() == 1 {
        lemma_split_one(first);
        assert(path_elements(dotted(path)) =~= path);
    } else {
        let rest = path.drop_first();
        assert forall|i: int| 0 <= i < rest.len() implies is_plain(#[trigger] rest[i]) by {
            assert(rest[i] == path[i + 1]);
        }
        lemma_dotted_read_back(rest);
        lemma_split_first(first, dotted(rest));
        let segments = split_dots(dotted(path));
        let tail = split_dots(dotted(rest));
        assert(segments =~= seq![first] + tail);
        assert forall|i: int| 0 <= i < path.len() implies #[trigger] path_elements(dotted(path))[i]
            == path[i] by {
            if i > 0 {
                assert(segments[i] == tail[i - 1]);
                assert(path_elements(dotted(rest))[i - 1] == rest[i - 1]);
            }
        }
        assert(path_elements(dotted(path)) =~= path);
    }
}

} // verus!
