//! Small scanners used by the block lexer: runs of one character and the
//! `N. ` marker of an ordered list item.

use vstd::prelude::*;
use crate::text::{char_is_whitespace, chars_of, is_whitespace, run_end, trim_start, trim_start_str};

verus! {

/// Whether `c` is an ASCII decimal digit, `'0'` to `'9'`.
pub open spec fn is_ascii_digit(c: char) -> bool {
    '0' <= c && c <= '9'
}

/// The position of the first non-digit at or after `i` (the length if none).
pub open spec fn digits_end(s: Seq<char>, i: int) -> int
    decreases s.len() - i,
{
    if 0 <= i < s.len() && is_ascii_digit(s[i]) {
        digits_end(s, i + 1)
    } else {
        i
    }
}

/// The value of the decimal numeral `s`.
pub open spec fn decimal_value(s: Seq<char>) -> nat
    decreases s.len(),
{
    if s.len() == 0 {
        0
    } else {
        decimal_value(s.drop_last()) * 10 + (s.last() as nat - '0' as nat) as nat
    }
}

/// Whether `s` opens an ordered list item: one or more digits, a `.`, and a
/// whitespace character.
pub open spec fn is_ordered_item(s: Seq<char>) -> bool {
    let k = digits_end(s, 0);
    &&& 0 < k
    &&& k + 1 < s.len()
    &&& s[k] == '.'
    &&& char_is_whitespace(s[k + 1])
}

/// Whether the item marker of `s` ends in digits and a `.` at position `k`
/// (`k` is then the length of the numeral).
pub open spec fn has_marker_dot(s: Seq<char>) -> bool {
    let k = digits_end(s, 0);
    k < s.len() && s[k] == '.'
}

/// The start number of an ordered list item: the numeral before the `.`, or 1
/// where there is none or it does not fit in a `u32`.
pub open spec fn item_start(s: Seq<char>) -> u32 {
    let k = digits_end(s, 0);
    if has_marker_dot(s) && 0 < k && decimal_value(s.subrange(0, k)) <= u32::MAX {
        decimal_value(s.subrange(0, k)) as u32
    } else {
        1
    }
}

/// The text of an ordered list item: what follows the `.` and the character
/// after it, without leading whitespace; empty where there is no such text.
pub open spec fn item_content(s: Seq<char>) -> Seq<char> {
    let k = digits_end(s, 0);
    if has_marker_dot(s) && 0 < k && k + 1 < s.len() {
        trim_start(s.subrange(k + 2, s.len() as int))
    } else {
        Seq::empty()
    }
}

/// Whether taking the item text of `s` stays on character boundaries: the
/// text is cut one byte after the `.`, which fails where the character after
/// the `.` takes more than one byte in UTF-8.
pub open spec fn item_cut_ok(s: Seq<char>) -> bool {
    let k = digits_end(s, 0);
    has_marker_dot(s) && 0 < k && k + 1 < s.len() ==> (s[k + 1] as u32) < 0x80
}

pub proof fn lemma_digits_end(s: Seq<char>, i: int)
    requires
        0 <= i <= s.len(),
    ensures
        i <= digits_end(s, i) <= s.len(),
        forall|j: int| i <= j < digits_end(s, i) ==> is_ascii_digit(#[trigger] s[j]),
        digits_end(s, i) < s.len() ==> !is_ascii_digit(s[digits_end(s, i)]),
    decreases s.len() - i,
{
    if i < s.len() && is_ascii_digit(s[i]) {
        lemma_digits_end(s, i + 1);
    }
}

/// Counts the run of `target` that starts at `start`; returns the count and
/// the position just past the run.
pub fn count_target_chars(target: char, chars: &[char], start: usize) -> (r: (usize, usize))
    ensures
        r.1 == run_end(chars@, target, start as int),
        r.0 == r.1 - start,
{
    let mut i = start;
    let len = chars.len();
    while i < len && chars[i] == target
        invariant
            len == chars@.len(),
            start <= i,
            run_end(chars@, target, start as int) == run_end(chars@, target, i as int),
        decreases len - i,
    {
        i = i + 1;
    }
    let count = i - start;
    (count, i)
}

/// The position of the first non-digit of `v` at or after `i`.
fn skip_digits(v: &Vec<char>, i: usize) -> (r: usize)
    requires
        i <= v@.len(),
    ensures
        r == digits_end(v@, i as int),
{
    let mut j = i;
    while j < v.len() && v[j] >= '0' && v[j] <= '9'
        invariant
            i <= j <= v@.len(),
            digits_end(v@, i as int) == digits_end(v@, j as int),
        decreases v@.len() - j,
    {
        j = j + 1;
    }
    j
}

/// The value of the numeral `v[..k]`, or `None` where it exceeds `u32::MAX`.
fn parse_u32_digits(v: &Vec<char>, k: usize) -> (r: Option<u32>)
    requires
        k <= v@.len(),
        forall|j: int| 0 <= j < k ==> is_ascii_digit(#[trigger] v@[j]),
    ensures
        match r {
            Some(x) => decimal_value(v@.subrange(0, k as int)) <= u32::MAX && x
                == decimal_value(v@.subrange(0, k as int)),
            None => decimal_value(v@.subrange(0, k as int)) > u32::MAX,
        },
{
    let mut acc: Option<u32> = Some(0);
    let mut i: usize = 0;
    assert(v@.subrange(0, 0) =~= Seq::<char>::empty());
    while i < k
        invariant
            k <= v@.len(),
            i <= k,
            forall|j: int| 0 <= j < k ==> is_ascii_digit(#[trigger] v@[j]),
            match acc {
                Some(x) => decimal_value(v@.subrange(0, i as int)) <= u32::MAX && x
                    == decimal_value(v@.subrange(0, i as int)),
                None => decimal_value(v@.subrange(0, i as int)) > u32::MAX,
            },
        decreases k - i,
    {
        let c = v[i];
        assert(is_ascii_digit(v@[i as int]));
        let d: u32 = (c as u32) - ('0' as u32);
        let ghost prev = v@.subrange(0, i as int);
        let ghost next = v@.subrange(0, i + 1);
        assert(next.drop_last() =~= prev);
        assert(decimal_value(next) == decimal_value(prev) * 10 + d);
        acc = match acc {
            Some(x) => match x.checked_mul(10) {
                Some(y) => y.checked_add(d),
                None => None,
            },
            None => None,
        };
        i = i + 1;
    }
    acc
}

/// Whether `input` opens an ordered list item: digits, a `.`, and whitespace.
pub fn is_ordered_list_item(input: &str) -> (r: bool)
    ensures
        r == is_ordered_item(input@),
{
    let v = chars_of(input);
    let k = skip_digits(&v, 0);
    proof { lemma_digits_end(v@, 0); }
    if k > 0 && k < v.len() && v[k] == '.' && k + 1 < v.len() {
        is_whitespace(v[k + 1])
    } else {
        false
    }
}

/// The start number and the text of an ordered list item.
pub fn extract_ordered_list_item(input: &str) -> (r: (u32, &str))
    requires
        item_cut_ok(input@),
    ensures
        r.0 == item_start(input@),
        r.1@ == item_content(input@),
{
    let v = chars_of(input);
    let k = skip_digits(&v, 0);
    proof { lemma_digits_end(v@, 0); }
    let mut number_end: usize = 0;
    let mut start: u32 = 1;
    if k < v.len() && v[k] == '.' {
        number_end = k;
        if k > 0 {
            if let Some(num) = parse_u32_digits(&v, k) {
                start = num;
            }
        }
    }
    if number_end > 0 && number_end + 1 < v.len() {
        let rest = input.substring_char(number_end + 2, v.len());
        (start, trim_start_str(rest))
    } else {
        let empty = input.substring_char(0, 0);
        (start, empty)
    }
}

/// Whether taking the item text of `input` stays on character boundaries.
pub fn item_cut_is_ok(input: &str) -> (r: bool)
    ensures
        r == item_cut_ok(input@),
{
    let v = chars_of(input);
    let k = skip_digits(&v, 0);
    proof { lemma_digits_end(v@, 0); }
    if k > 0 && k < v.len() && v[k] == '.' && k + 1 < v.len() {
        (v[k + 1] as u32) < 0x80
    } else {
        true
    }
}

} // verus!
