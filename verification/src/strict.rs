//! Facts about valid JSON: a valid value is valid wherever its bytes stand,
//! and the scanner reads a valid value to the end that validation gives it.

use vstd::prelude::*;
use crate::scan::{
    digits_end,
    has_word,
    is_close,
    is_digit,
    is_open,
    is_space,
    kind_at,
    lemma_digits_end_bounds,
    lemma_skip_ws_bounds,
    number_end,
    skip_ws,
    squash_end,
    string_end,
    value_end,
    word_false,
    word_null,
    word_true,
    Kind,
};
use crate::text::hex4_at;
use crate::valid::{
    is_simple_escape,
    lemma_strict_elements_bounds,
    lemma_strict_fields_bounds,
    lemma_strict_number_bounds,
    lemma_strict_string_bounds,
    lemma_strict_value_bounds,
    strict_elements_end,
    strict_fields_end,
    strict_number_end,
    strict_string_end,
    strict_value_end,
};
use crate::windows::{
    is_number_byte,
    lemma_digits_window,
    lemma_window_part,
    lemma_word_first,
    lemma_word_window,
    same_window,
};

verus! {

/// Whitespace that ends inside a window ends at the same place wherever the
/// window stands.
pub proof fn lemma_ws_window(b1: Seq<u8>, i1: int, b2: Seq<u8>, i2: int, w: int)
    requires
        same_window(b1, i1, b2, i2, w),
        skip_ws(b1, i1) < i1 + w,
    ensures
        skip_ws(b2, i2) - i2 == skip_ws(b1, i1) - i1,
    decreases w,
{
    lemma_skip_ws_bounds(b1, i1);
    if w > 0 {
        assert(b1[i1 + 0] == b2[i2 + 0]);
        if is_space(b1[i1]) {
            lemma_window_part(b1, i1, b2, i2, w, 1, w - 1);
            lemma_ws_window(b1, i1 + 1, b2, i2 + 1, w - 1);
        }
    }
}

/// A valid string is valid wherever its bytes stand.
pub proof fn lemma_strict_string_window(b1: Seq<u8>, i1: int, b2: Seq<u8>, i2: int, m: int)
    requires
        same_window(b1, i1, b2, i2, m),
        strict_string_end(b1, i1) == Some(i1 + m),
    ensures
        strict_string_end(b2, i2) == Some(i2 + m),
    decreases m,
{
    lemma_strict_string_bounds(b1, i1);
    assert(b1[i1 + 0] == b2[i2 + 0]);
    if b1[i1] == 0x22 {
    } else if b1[i1] == 0x5c {
        if is_simple_escape(b1[i1 + 1]) {
            lemma_strict_string_bounds(b1, i1 + 2);
            assert(b1[i1 + 1] == b2[i2 + 1]);
            lemma_window_part(b1, i1, b2, i2, m, 2, m - 2);
            lemma_strict_string_window(b1, i1 + 2, b2, i2 + 2, m - 2);
        } else {
            assert(hex4_at(b1, i1 + 2));
            lemma_strict_string_bounds(b1, i1 + 6);
            assert(b1[i1 + 1] == b2[i2 + 1]);
            assert(b1[i1 + 2] == b2[i2 + 2]);
            assert(b1[i1 + 3] == b2[i2 + 3]);
            assert(b1[i1 + 4] == b2[i2 + 4]);
            assert(b1[i1 + 5] == b2[i2 + 5]);
            lemma_window_part(b1, i1, b2, i2, m, 6, m - 6);
            lemma_strict_string_window(b1, i1 + 6, b2, i2 + 6, m - 6);
        }
    } else {
        lemma_strict_string_bounds(b1, i1 + 1);
        lemma_window_part(b1, i1, b2, i2, m, 1, m - 1);
        lemma_strict_string_window(b1, i1 + 1, b2, i2 + 1, m - 1);
    }
}

/// A valid number is valid wherever its bytes stand before a byte that cannot
/// go on a number.
pub proof fn lemma_strict_number_window(b1: Seq<u8>, q1: int, b2: Seq<u8>, q2: int, n: int)
    requires
        same_window(b1, q1, b2, q2, n),
        strict_number_end(b1, q1) == Some(q1 + n),
        q2 + n < b2.len() ==> !is_number_byte(b2[q2 + n]),
    ensures
        strict_number_end(b2, q2) == Some(q2 + n),
{
    lemma_strict_number_bounds(b1, q1);
    assert(b1[q1 + 0] == b2[q2 + 0]);
    let s: int = if b1[q1] == 0x2d { 1 } else { 0 };
    let a1 = q1 + s;
    let a2 = q2 + s;
    lemma_digits_end_bounds(b1, a1);
    lemma_digits_end_bounds(b1, a1 + 1);
    let c1 = if b1[a1] == 0x30 { a1 + 1 } else { digits_end(b1, a1) };
    let dot1 = c1 < b1.len() && b1[c1] == 0x2e;
    if dot1 {
        lemma_digits_end_bounds(b1, c1 + 1);
    }
    let d1 = if dot1 { digits_end(b1, c1 + 1) } else { c1 };
    let exp1 = d1 < b1.len() && (b1[d1] == 0x65 || b1[d1] == 0x45);
    let sign1 = exp1 && d1 + 1 < b1.len() && (b1[d1 + 1] == 0x2b || b1[d1 + 1] == 0x2d);
    let s1 = if sign1 { d1 + 2 } else if exp1 { d1 + 1 } else { d1 };
    if exp1 {
        lemma_digits_end_bounds(b1, s1);
    }
    assert(s < n);
    assert(b1[q1 + s] == b2[q2 + s]);
    if b1[a1] != 0x30 {
        lemma_window_part(b1, q1, b2, q2, n, s, n - s);
        lemma_digits_window(b1, a1, b2, a2, n - s);
    }
    let c2 = c1 - q1 + q2;
    if c1 < q1 + n {
        assert(b1[q1 + (c1 - q1)] == b2[q2 + (c1 - q1)]);
    }
    if dot1 {
        lemma_window_part(b1, q1, b2, q2, n, c1 + 1 - q1, q1 + n - (c1 + 1));
        lemma_digits_window(b1, c1 + 1, b2, c2 + 1, q1 + n - (c1 + 1));
    }
    let d2 = d1 - q1 + q2;
    if d1 < q1 + n {
        assert(b1[q1 + (d1 - q1)] == b2[q2 + (d1 - q1)]);
    }
    if exp1 {
        if d1 + 1 < q1 + n {
            assert(b1[q1 + (d1 + 1 - q1)] == b2[q2 + (d1 + 1 - q1)]);
        }
        lemma_window_part(b1, q1, b2, q2, n, s1 - q1, q1 + n - s1);
        lemma_digits_window(b1, s1, b2, s1 - q1 + q2, q1 + n - s1);
    }
}

/// A valid value is valid wherever its bytes stand before a byte that cannot
/// go on a number.
pub proof fn lemma_strict_value_window(b1: Seq<u8>, at1: int, b2: Seq<u8>, at2: int, n: int)
    requires
        same_window(b1, at1, b2, at2, n),
        strict_value_end(b1, at1) == Some(at1 + n),
        at2 + n < b2.len() ==> !is_number_byte(b2[at2 + n]),
    ensures
        strict_value_end(b2, at2) == Some(at2 + n),
    decreases n, 0nat,
{
    lemma_strict_value_bounds(b1, at1);
    assert(b1[at1 + 0] == b2[at2 + 0]);
    let c = b1[at1];
    if c == 0x22 {
        lemma_window_part(b1, at1, b2, at2, n, 1, n - 1);
        lemma_strict_string_window(b1, at1 + 1, b2, at2 + 1, n - 1);
    } else if c == 0x5b || c == 0x7b {
        lemma_skip_ws_bounds(b1, at1 + 1);
        let q1 = skip_ws(b1, at1 + 1);
        if c == 0x5b && !(q1 < b1.len() && b1[q1] == 0x5d) {
            lemma_strict_elements_bounds(b1, q1);
        }
        if c == 0x7b && !(q1 < b1.len() && b1[q1] == 0x7d) {
            lemma_strict_fields_bounds(b1, q1);
        }
        lemma_window_part(b1, at1, b2, at2, n, 1, n - 1);
        lemma_ws_window(b1, at1 + 1, b2, at2 + 1, n - 1);
        let q2 = q1 - at1 + at2;
        assert(b1[at1 + (q1 - at1)] == b2[at2 + (q1 - at1)]);
        lemma_window_part(b1, at1, b2, at2, n, q1 - at1, n - (q1 - at1));
        if c == 0x5b {
            if b1[q1] != 0x5d {
                lemma_strict_elements_window(b1, q1, b2, q2, n - (q1 - at1));
            }
        } else {
            if b1[q1] != 0x7d {
                lemma_strict_fields_window(b1, q1, b2, q2, n - (q1 - at1));
            }
        }
    } else if c == 0x2d || is_digit(c) {
        lemma_strict_number_window(b1, at1, b2, at2, n);
    } else {
        if has_word(b1, at1, word_true()) {
            lemma_word_window(b1, at1, b2, at2, n, word_true());
        } else if has_word(b1, at1, word_null()) {
            lemma_word_window(b1, at1, b2, at2, n, word_null());
        } else {
            lemma_word_window(b1, at1, b2, at2, n, word_false());
        }
    }
}

/// What follows a valid value inside a valid list: whitespace, then a comma or
/// the closing bracket.
pub proof fn lemma_after_value(b: Seq<u8>, e: int)
    requires
        0 <= e <= b.len(),
        skip_ws(b, e) < b.len(),
        b[skip_ws(b, e)] == 0x2c || is_close(b[skip_ws(b, e)]),
    ensures
        e < b.len(),
        !is_number_byte(b[e]),
{
    lemma_skip_ws_bounds(b, e);
}

/// The rest of a valid array is valid wherever its bytes stand.
pub proof fn lemma_strict_elements_window(b1: Seq<u8>, q1: int, b2: Seq<u8>, q2: int, m: int)
    requires
        same_window(b1, q1, b2, q2, m),
        strict_elements_end(b1, q1) == Some(q1 + m),
    ensures
        strict_elements_end(b2, q2) == Some(q2 + m),
    decreases m, 1nat,
{
    lemma_strict_elements_bounds(b1, q1);
    lemma_strict_value_bounds(b1, q1);
    let e1 = strict_value_end(b1, q1)->0;
    lemma_skip_ws_bounds(b1, e1);
    let c1 = skip_ws(b1, e1);
    if b1[c1] == 0x2c {
        lemma_skip_ws_bounds(b1, c1 + 1);
        lemma_strict_elements_bounds(b1, skip_ws(b1, c1 + 1));
    }
    let n = e1 - q1;
    lemma_after_value(b1, e1);
    assert(b1[q1 + n] == b2[q2 + n]);
    lemma_window_part(b1, q1, b2, q2, m, 0, n);
    lemma_strict_value_window(b1, q1, b2, q2, n);
    lemma_window_part(b1, q1, b2, q2, m, n, m - n);
    lemma_ws_window(b1, e1, b2, q2 + n, m - n);
    let c2 = c1 - q1 + q2;
    assert(b1[q1 + (c1 - q1)] == b2[q2 + (c1 - q1)]);
    if b1[c1] == 0x2c {
        let r1 = skip_ws(b1, c1 + 1);
        lemma_window_part(b1, q1, b2, q2, m, c1 + 1 - q1, q1 + m - (c1 + 1));
        lemma_ws_window(b1, c1 + 1, b2, c2 + 1, q1 + m - (c1 + 1));
        lemma_window_part(b1, q1, b2, q2, m, r1 - q1, q1 + m - r1);
        lemma_strict_elements_window(b1, r1, b2, r1 - q1 + q2, q1 + m - r1);
    }
}

/// The rest of a valid object is valid wherever its bytes stand.
pub proof fn lemma_strict_fields_window(b1: Seq<u8>, q1: int, b2: Seq<u8>, q2: int, m: int)
    requires
        same_window(b1, q1, b2, q2, m),
        strict_fields_end(b1, q1) == Some(q1 + m),
    ensures
        strict_fields_end(b2, q2) == Some(q2 + m),
    decreases m, 1nat,
{
    lemma_strict_fields_bounds(b1, q1);
    lemma_strict_string_bounds(b1, q1 + 1);
    assert(b1[q1 + 0] == b2[q2 + 0]);
    let ke = strict_string_end(b1, q1 + 1)->0;
    lemma_skip_ws_bounds(b1, ke);
    let colon = skip_ws(b1, ke);
    lemma_skip_ws_bounds(b1, colon + 1);
    let v1 = skip_ws(b1, colon + 1);
    lemma_strict_value_bounds(b1, v1);
    let e1 = strict_value_end(b1, v1)->0;
    lemma_skip_ws_bounds(b1, e1);
    let c1 = skip_ws(b1, e1);
    if b1[c1] == 0x2c {
        lemma_skip_ws_bounds(b1, c1 + 1);
        lemma_strict_fields_bounds(b1, skip_ws(b1, c1 + 1));
    }
    let d = q2 - q1;
    // The key.
    lemma_window_part(b1, q1, b2, q2, m, 1, ke - q1 - 1);
    lemma_strict_string_window(b1, q1 + 1, b2, q2 + 1, ke - q1 - 1);
    // The colon.
    lemma_window_part(b1, q1, b2, q2, m, ke - q1, q1 + m - ke);
    lemma_ws_window(b1, ke, b2, ke + d, q1 + m - ke);
    assert(b1[q1 + (colon - q1)] == b2[q2 + (colon - q1)]);
    lemma_window_part(b1, q1, b2, q2, m, colon + 1 - q1, q1 + m - (colon + 1));
    lemma_ws_window(b1, colon + 1, b2, colon + 1 + d, q1 + m - (colon + 1));
    // The value.
    let n = e1 - v1;
    lemma_after_value(b1, e1);
    assert(b1[q1 + (e1 - q1)] == b2[q2 + (e1 - q1)]);
    lemma_window_part(b1, q1, b2, q2, m, v1 - q1, n);
    lemma_strict_value_window(b1, v1, b2, v1 + d, n);
    // What follows.
    lemma_window_part(b1, q1, b2, q2, m, e1 - q1, q1 + m - e1);
    lemma_ws_window(b1, e1, b2, e1 + d, q1 + m - e1);
    assert(b1[q1 + (c1 - q1)] == b2[q2 + (c1 - q1)]);
    if b1[c1] == 0x2c {
        let r1 = skip_ws(b1, c1 + 1);
        lemma_window_part(b1, q1, b2, q2, m, c1 + 1 - q1, q1 + m - (c1 + 1));
        lemma_ws_window(b1, c1 + 1, b2, c1 + 1 + d, q1 + m - (c1 + 1));
        lemma_window_part(b1, q1, b2, q2, m, r1 - q1, q1 + m - r1);
        lemma_strict_fields_window(b1, r1, b2, r1 + d, q1 + m - r1);
    }
}

/// The scanner reads a valid string to the end that validation gives it.
pub proof fn lemma_agree_string(b: Seq<u8>, i: int)
    requires
        0 <= i <= b.len(),
        strict_string_end(b, i) is Some,
    ensures
        string_end(b, i) == strict_string_end(b, i)->0,
    decreases b.len() - i,
{
    if b[i] == 0x22 {
    } else if b[i] == 0x5c {
        if is_simple_escape(b[i + 1]) {
            lemma_agree_string(b, i + 2);
        } else {
            assert(hex4_at(b, i + 2));
            lemma_agree_string(b, i + 6);
            reveal_with_fuel(string_end, 5);
        }
    } else {
        lemma_agree_string(b, i + 1);
    }
}

/// The scanner reads a valid number to the end that validation gives it,
/// where no digit follows the number.
pub proof fn lemma_agree_number(b: Seq<u8>, p: int)
    requires
        0 <= p <= b.len(),
        strict_number_end(b, p) is Some,
        strict_number_end(b, p)->0 < b.len() ==> !is_digit(b[strict_number_end(b, p)->0]),
    ensures
        number_end(b, p) == strict_number_end(b, p)->0,
{
    let a = if p < b.len() && b[p] == 0x2d { p + 1 } else { p };
    lemma_digits_end_bounds(b, a);
    lemma_digits_end_bounds(b, a + 1);
    let c = if b[a] == 0x30 { a + 1 } else { digits_end(b, a) };
    if c < b.len() {
        lemma_digits_end_bounds(b, c + 1);
    }
    let dot = c < b.len() && b[c] == 0x2e;
    let d = if dot { digits_end(b, c + 1) } else { c };
    if d + 1 <= b.len() {
        lemma_digits_end_bounds(b, d + 1);
    }
    if d + 2 <= b.len() {
        lemma_digits_end_bounds(b, d + 2);
    }
    if b[a] == 0x30 {
        assert(a + 1 < b.len() ==> !is_digit(b[a + 1]));
        assert(digits_end(b, a) == a + 1);
    }
}

/// A byte that the bracket count passes over: no quote and no bracket.
pub open spec fn is_plain_byte(c: u8) -> bool {
    c != 0x22 && !is_open(c) && !is_close(c)
}

/// The bracket count passes over bytes that are no quotes and no brackets.
pub proof fn lemma_squash_plain(b: Seq<u8>, i: int, e: int, depth: nat)
    requires
        0 <= i <= e <= b.len(),
        forall|j: int| i <= j < e ==> is_plain_byte(#[trigger] b[j]),
    ensures
        squash_end(b, i, depth, false) == squash_end(b, e, depth, false),
    decreases e - i,
{
    if i < e {
        assert(is_plain_byte(b[i]));
        lemma_squash_plain(b, i + 1, e, depth);
    }
}

/// The bracket count passes over a valid string.
pub proof fn lemma_squash_string(b: Seq<u8>, i: int, depth: nat)
    requires
        0 <= i <= b.len(),
        strict_string_end(b, i) is Some,
    ensures
        squash_end(b, i, depth, true) == squash_end(b, strict_string_end(b, i)->0, depth, false),
    decreases b.len() - i,
{
    if b[i] == 0x22 {
    } else if b[i] == 0x5c {
        if is_simple_escape(b[i + 1]) {
            lemma_squash_string(b, i + 2, depth);
        } else {
            assert(hex4_at(b, i + 2));
            lemma_squash_string(b, i + 6, depth);
            reveal_with_fuel(squash_end, 5);
        }
    } else {
        lemma_squash_string(b, i + 1, depth);
    }
}

/// The bytes from `i` to the end of the digits that start there are digits.
pub proof fn lemma_digits_plain(b: Seq<u8>, i: int)
    requires
        0 <= i <= b.len(),
    ensures
        forall|j: int| i <= j < digits_end(b, i) ==> is_digit(#[trigger] b[j]),
    decreases b.len() - i,
{
    if i < b.len() && is_digit(b[i]) {
        lemma_digits_plain(b, i + 1);
    }
}

/// The bytes of a valid number are no quotes and no brackets.
pub proof fn lemma_number_plain(b: Seq<u8>, p: int)
    requires
        0 <= p <= b.len(),
        strict_number_end(b, p) is Some,
    ensures
        forall|j: int| p <= j < strict_number_end(b, p)->0 ==> is_plain_byte(#[trigger] b[j]),
{
    let e = strict_number_end(b, p)->0;
    let a = if p < b.len() && b[p] == 0x2d { p + 1 } else { p };
    lemma_digits_end_bounds(b, a);
    lemma_digits_plain(b, a);
    let c = if b[a] == 0x30 { a + 1 } else { digits_end(b, a) };
    let dot = c < b.len() && b[c] == 0x2e;
    if dot {
        lemma_digits_end_bounds(b, c + 1);
        lemma_digits_plain(b, c + 1);
    }
    let d = if dot { digits_end(b, c + 1) } else { c };
    let has_exp = d < b.len() && (b[d] == 0x65 || b[d] == 0x45);
    let signed = has_exp && d + 1 < b.len() && (b[d + 1] == 0x2b || b[d + 1] == 0x2d);
    let s = if signed { d + 2 } else if has_exp { d + 1 } else { d };
    if has_exp {
        lemma_digits_end_bounds(b, s);
        lemma_digits_plain(b, s);
    }
    assert forall|j: int| p <= j < e implies is_plain_byte(#[trigger] b[j]) by {
        if j < a {
        } else if j < c {
            assert(is_digit(b[j]));
        } else if j < d {
            if j > c {
                assert(is_digit(b[j]));
            }
        } else if j < s {
        } else {
            assert(is_digit(b[j]));
        }
    }
}

/// The bytes of a word made of letters are no quotes and no brackets.
pub proof fn lemma_word_plain(b: Seq<u8>, p: int, word: Seq<u8>)
    requires
        has_word(b, p, word),
        forall|j: int| 0 <= j < word.len() ==> is_plain_byte(#[trigger] word[j]),
    ensures
        forall|j: int| p <= j < p + word.len() ==> is_plain_byte(#[trigger] b[j]),
{
    assert forall|j: int| p <= j < p + word.len() implies is_plain_byte(#[trigger] b[j]) by {
        assert(b.subrange(p, p + word.len())[j - p] == b[j]);
        assert(is_plain_byte(word[j - p]));
    }
}

/// The bracket count passes over a valid value.
pub proof fn lemma_squash_value(b: Seq<u8>, p: int, depth: nat)
    requires
        0 <= p <= b.len(),
        depth >= 1,
        strict_value_end(b, p) is Some,
    ensures
        squash_end(b, p, depth, false) == squash_end(
            b,
            strict_value_end(b, p)->0,
            depth,
            false,
        ),
    decreases b.len() - p, 0nat,
{
    lemma_strict_value_bounds(b, p);
    let e = strict_value_end(b, p)->0;
    let c = b[p];
    if c == 0x22 {
        lemma_squash_string(b, p + 1, depth);
    } else if c == 0x5b || c == 0x7b {
        lemma_skip_ws_bounds(b, p + 1);
        let q = skip_ws(b, p + 1);
        lemma_ws_plain(b, p + 1);
        lemma_squash_plain(b, p + 1, q, depth + 1);
        if c == 0x5b {
            if !(b[q] == 0x5d) {
                lemma_squash_elements(b, q, depth + 1);
            }
        } else {
            if !(b[q] == 0x7d) {
                lemma_squash_fields(b, q, depth + 1);
            }
        }
    } else if c == 0x2d || is_digit(c) {
        lemma_number_plain(b, p);
        lemma_squash_plain(b, p, e, depth);
    } else {
        if has_word(b, p, word_true()) {
            lemma_word_plain(b, p, word_true());
        } else if has_word(b, p, word_null()) {
            lemma_word_plain(b, p, word_null());
        } else {
            lemma_word_plain(b, p, word_false());
        }
        lemma_squash_plain(b, p, e, depth);
    }
}

/// The bytes that `skip_ws` passes over are whitespace, and the byte at which
/// it stops is none.
pub proof fn lemma_ws_plain(b: Seq<u8>, i: int)
    requires
        0 <= i <= b.len(),
    ensures
        forall|j: int| i <= j < skip_ws(b, i) ==> is_space(#[trigger] b[j]),
        forall|j: int| i <= j < skip_ws(b, i) ==> is_plain_byte(#[trigger] b[j]),
        skip_ws(b, i) < b.len() ==> !is_space(b[skip_ws(b, i)]),
    decreases b.len() - i,
{
    if i < b.len() && is_space(b[i]) {
        lemma_ws_plain(b, i + 1);
    }
}

/// The bracket count passes over the rest of a valid array and leaves it
/// through its closing bracket.
pub proof fn lemma_squash_elements(b: Seq<u8>, q: int, depth: nat)
    requires
        0 <= q <= b.len(),
        depth >= 1,
        strict_elements_end(b, q) is Some,
    ensures
        squash_end(b, q, depth, false) == if depth <= 1 {
            strict_elements_end(b, q)->0
        } else {
            squash_end(b, strict_elements_end(b, q)->0, (depth - 1) as nat, false)
        },
    decreases b.len() - q, 1nat,
{
    lemma_strict_value_bounds(b, q);
    let e1 = strict_value_end(b, q)->0;
    lemma_squash_value(b, q, depth);
    lemma_skip_ws_bounds(b, e1);
    lemma_ws_plain(b, e1);
    let c = skip_ws(b, e1);
    lemma_squash_plain(b, e1, c, depth);
    if b[c] == 0x2c {
        lemma_skip_ws_bounds(b, c + 1);
        lemma_ws_plain(b, c + 1);
        let r = skip_ws(b, c + 1);
        lemma_squash_plain(b, c + 1, r, depth);
        lemma_squash_elements(b, r, depth);
    }
}

/// The bracket count passes over the rest of a valid object and leaves it
/// through its closing bracket.
pub proof fn lemma_squash_fields(b: Seq<u8>, q: int, depth: nat)
    requires
        0 <= q <= b.len(),
        depth >= 1,
        strict_fields_end(b, q) is Some,
    ensures
        squash_end(b, q, depth, false) == if depth <= 1 {
            strict_fields_end(b, q)->0
        } else {
            squash_end(b, strict_fields_end(b, q)->0, (depth - 1) as nat, false)
        },
    decreases b.len() - q, 1nat,
{
    lemma_strict_string_bounds(b, q + 1);
    let ke = strict_string_end(b, q + 1)->0;
    lemma_squash_string(b, q + 1, depth);
    lemma_skip_ws_bounds(b, ke);
    lemma_ws_plain(b, ke);
    let colon = skip_ws(b, ke);
    lemma_squash_plain(b, ke, colon, depth);
    lemma_skip_ws_bounds(b, colon + 1);
    lemma_ws_plain(b, colon + 1);
    let v = skip_ws(b, colon + 1);
    lemma_squash_plain(b, colon + 1, v, depth);
    lemma_strict_value_bounds(b, v);
    let e1 = strict_value_end(b, v)->0;
    lemma_squash_value(b, v, depth);
    lemma_skip_ws_bounds(b, e1);
    lemma_ws_plain(b, e1);
    let c = skip_ws(b, e1);
    lemma_squash_plain(b, e1, c, depth);
    if b[c] == 0x2c {
        lemma_skip_ws_bounds(b, c + 1);
        lemma_ws_plain(b, c + 1);
        let r = skip_ws(b, c + 1);
        lemma_squash_plain(b, c + 1, r, depth);
        lemma_squash_fields(b, r, depth);
    }
}

/// The scanner reads a valid value to the end that validation gives it, where
/// no digit follows the value.
pub proof fn lemma_agree_value(b: Seq<u8>, p: int)
    requires
        0 <= p <= b.len(),
        strict_value_end(b, p) is Some,
        strict_value_end(b, p)->0 < b.len() ==> !is_digit(b[strict_value_end(b, p)->0]),
    ensures
        value_end(b, p) == strict_value_end(b, p)->0,
        kind_at(b, p) != Kind::NotPresent,
        !is_space(b[p]),
        b[p] != 0x2c,
        !is_close(b[p]),
{
    lemma_strict_value_bounds(b, p);
    let c = b[p];
    if has_word(b, p, word_true()) {
        lemma_word_first(b, p, word_true());
    }
    if has_word(b, p, word_false()) {
        lemma_word_first(b, p, word_false());
    }
    if has_word(b, p, word_null()) {
        lemma_word_first(b, p, word_null());
    }
    if c == 0x22 {
        lemma_agree_string(b, p + 1);
    } else if c == 0x5b || c == 0x7b {
        lemma_skip_ws_bounds(b, p + 1);
        let q = skip_ws(b, p + 1);
        lemma_ws_plain(b, p + 1);
        lemma_squash_plain(b, p + 1, q, 1);
        if c == 0x5b {
            if !(b[q] == 0x5d) {
                lemma_squash_elements(b, q, 1);
            }
        } else {
            if !(b[q] == 0x7d) {
                lemma_squash_fields(b, q, 1);
            }
        }
    } else if c == 0x2d || is_digit(c) {
        lemma_agree_number(b, p);
    }
}

} // verus!
