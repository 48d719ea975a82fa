//! Strict validation of a JSON text.
//!
//! Unlike the scanner, validation accepts nothing but the JSON grammar: one
//! value, surrounded by optional whitespace, with no trailing commas, no
//! control bytes in strings and no malformed escapes or numbers.

use vstd::prelude::*;
use crate::scan::{
    digits_end, has_word, is_digit, lemma_digits_end_bounds, lemma_skip_ws_bounds, skip_digits,
    skip_whitespace, skip_ws, starts_with, word_false, word_null, word_true,
};
use crate::text::{hex4_at, hex_digit};

verus! {

/// Bytes that may follow a backslash on their own.
pub open spec fn is_simple_escape(c: u8) -> bool {
    c == 0x22 || c == 0x5c || c == 0x2f || c == 0x62 || c == 0x66 || c == 0x6e || c == 0x72 || c
        == 0x74
}

/// With `i` inside a string body, the position after the closing quote, or
/// `None` where the string is not closed, holds a control byte, or holds a
/// malformed escape.
pub open spec fn strict_string_end(b: Seq<u8>, i: int) -> Option<int>
    decreases b.len() - i,
{
    if i < 0 || i >= b.len() {
        None
    } else if b[i] == 0x22 {
        Some(i + 1)
    } else if b[i] < 0x20 {
        None
    } else if b[i] == 0x5c {
        if i + 1 >= b.len() {
            None
        } else if is_simple_escape(b[i + 1]) {
            strict_string_end(b, i + 2)
        } else if b[i + 1] == 0x75 && hex4_at(b, i + 2) {
            strict_string_end(b, i + 6)
        } else {
            None
        }
    } else {
        strict_string_end(b, i + 1)
    }
}

/// The end of the number that starts at `p`, or `None` where the bytes at `p`
/// do not follow the number grammar.
pub open spec fn strict_number_end(b: Seq<u8>, p: int) -> Option<int> {
    let a = if 0 <= p < b.len() && b[p] == 0x2d { p + 1 } else { p };
    if a < 0 || a >= b.len() || !is_digit(b[a]) {
        None
    } else {
        let c = if b[a] == 0x30 { a + 1 } else { digits_end(b, a) };
        let dot = c < b.len() && b[c] == 0x2e;
        let d = if dot { digits_end(b, c + 1) } else { c };
        let has_exp = d < b.len() && (b[d] == 0x65 || b[d] == 0x45);
        let signed = has_exp && d + 1 < b.len() && (b[d + 1] == 0x2b || b[d + 1] == 0x2d);
        let s = if signed { d + 2 } else if has_exp { d + 1 } else { d };
        let e = if has_exp { digits_end(b, s) } else { d };
        if (dot && d <= c + 1) || (has_exp && e <= s) {
            None
        } else {
            Some(e)
        }
    }
}

/// The end of the value whose first byte is at `p`, or `None` where no valid
/// value stands there.
pub open spec fn strict_value_end(b: Seq<u8>, p: int) -> Option<int>
    decreases b.len() - p, 0nat,
{
    if p < 0 || p >= b.len() {
        None
    } else if b[p] == 0x22 {
        strict_string_end(b, p + 1)
    } else if b[p] == 0x5b {
        let q = skip_ws(b, p + 1);
        if p < q < b.len() && b[q] == 0x5d {
            Some(q + 1)
        } else if p < q <= b.len() {
            strict_elements_end(b, q)
        } else {
            None
        }
    } else if b[p] == 0x7b {
        let q = skip_ws(b, p + 1);
        if p < q < b.len() && b[q] == 0x7d {
            Some(q + 1)
        } else if p < q <= b.len() {
            strict_fields_end(b, q)
        } else {
            None
        }
    } else if b[p] == 0x2d || is_digit(b[p]) {
        strict_number_end(b, p)
    } else if has_word(b, p, word_true()) || has_word(b, p, word_null()) {
        Some(p + 4)
    } else if has_word(b, p, word_false()) {
        Some(p + 5)
    } else {
        None
    }
}

/// With `p` at the first byte of an array element, the position after the
/// bracket that closes the array, or `None` where the rest of the array is not
/// valid.
pub open spec fn strict_elements_end(b: Seq<u8>, p: int) -> Option<int>
    decreases b.len() - p, 1nat,
{
    match strict_value_end(b, p) {
        None => None,
        Some(e) => {
            let q = skip_ws(b, e);
            if !(p < e <= q < b.len()) {
                None
            } else if b[q] == 0x5d {
                Some(q + 1)
            } else if b[q] == 0x2c && q < skip_ws(b, q + 1) <= b.len() {
                strict_elements_end(b, skip_ws(b, q + 1))
            } else {
                None
            }
        },
    }
}

/// With `p` at the first byte of an object member, the position after the
/// bracket that closes the object, or `None` where the rest of the object is
/// not valid.
pub open spec fn strict_fields_end(b: Seq<u8>, p: int) -> Option<int>
    decreases b.len() - p, 1nat,
{
    if p < 0 || p >= b.len() || b[p] != 0x22 {
        None
    } else {
        match strict_string_end(b, p + 1) {
            None => None,
            Some(ke) => {
                let c = skip_ws(b, ke);
                let v = skip_ws(b, c + 1);
                if !(p < ke <= c < v <= b.len()) || b[c] != 0x3a {
                    None
                } else {
                    match strict_value_end(b, v) {
                        None => None,
                        Some(e) => {
                            let q = skip_ws(b, e);
                            if !(v < e <= q < b.len()) {
                                None
                            } else if b[q] == 0x7d {
                                Some(q + 1)
                            } else if b[q] == 0x2c && q < skip_ws(b, q + 1) <= b.len() {
                                strict_fields_end(b, skip_ws(b, q + 1))
                            } else {
                                None
                            }
                        },
                    }
                }
            },
        }
    }
}

/// The text is one valid JSON value with nothing but whitespace around it.
pub open spec fn is_valid(b: Seq<u8>) -> bool {
    match strict_value_end(b, skip_ws(b, 0)) {
        Some(e) => skip_ws(b, e) == b.len(),
        None => false,
    }
}

/// A valid string ends inside the buffer, behind at least one byte.
pub proof fn lemma_strict_string_bounds(b: Seq<u8>, i: int)
    requires
        0 <= i <= b.len(),
    ensures
        strict_string_end(b, i) matches Some(e) ==> i < e <= b.len(),
    decreases b.len() - i,
{
    if i < b.len() && b[i] != 0x22 && b[i] >= 0x20 {
        if b[i] == 0x5c {
            if i + 1 < b.len() {
                if is_simple_escape(b[i + 1]) {
                    lemma_strict_string_bounds(b, i + 2);
                } else if b[i + 1] == 0x75 && hex4_at(b, i + 2) {
                    lemma_strict_string_bounds(b, i + 6);
                }
            }
        } else {
            lemma_strict_string_bounds(b, i + 1);
        }
    }
}

/// A valid number is not empty and ends inside the buffer.
pub proof fn lemma_strict_number_bounds(b: Seq<u8>, p: int)
    requires
        0 <= p <= b.len(),
    ensures
        strict_number_end(b, p) matches Some(e) ==> p < e <= b.len(),
{
    let a = if p < b.len() && b[p] == 0x2d { p + 1 } else { p };
    if a < b.len() && is_digit(b[a]) {
        lemma_digits_end_bounds(b, a);
        lemma_digits_end_bounds(b, a + 1);
        let c = if b[a] == 0x30 { a + 1 } else { digits_end(b, a) };
        if c < b.len() {
            lemma_digits_end_bounds(b, c + 1);
        }
        let dot = c < b.len() && b[c] == 0x2e;
        let d = if dot { digits_end(b, c + 1) } else { c };
        if d + 1 <= b.len() {
            lemma_digits_end_bounds(b, d + 1);
        }
        if d + 2 <= b.len() {
            lemma_digits_end_bounds(b, d + 2);
        }
    }
}

/// A valid value is not empty and ends inside the buffer.
pub proof fn lemma_strict_value_bounds(b: Seq<u8>, p: int)
    requires
        0 <= p <= b.len(),
    ensures
        strict_value_end(b, p) matches Some(e) ==> p < e <= b.len(),
    decreases b.len() - p, 0nat,
{
    if p < b.len() {
        if b[p] == 0x22 {
            lemma_strict_string_bounds(b, p + 1);
        } else if b[p] == 0x5b {
            lemma_skip_ws_bounds(b, p + 1);
            let q = skip_ws(b, p + 1);
            if !(q < b.len() && b[q] == 0x5d) {
                lemma_strict_elements_bounds(b, q);
            }
        } else if b[p] == 0x7b {
            lemma_skip_ws_bounds(b, p + 1);
            let q = skip_ws(b, p + 1);
            if !(q < b.len() && b[q] == 0x7d) {
                lemma_strict_fields_bounds(b, q);
            }
        } else if b[p] == 0x2d || is_digit(b[p]) {
            lemma_strict_number_bounds(b, p);
        }
    }
}

/// The rest of a valid array is not empty and ends inside the buffer.
pub proof fn lemma_strict_elements_bounds(b: Seq<u8>, p: int)
    requires
        0 <= p <= b.len(),
    ensures
        strict_elements_end(b, p) matches Some(e) ==> p < e <= b.len(),
    decreases b.len() - p, 1nat,
{
    lemma_strict_value_bounds(b, p);
    match strict_value_end(b, p) {
        None => {},
        Some(e) => {
            lemma_skip_ws_bounds(b, e);
            let q = skip_ws(b, e);
            if p < e <= q < b.len() && b[q] == 0x2c {
                lemma_skip_ws_bounds(b, q + 1);
                lemma_strict_elements_bounds(b, skip_ws(b, q + 1));
            }
        },
    }
}

/// The rest of a valid object is not empty and ends inside the buffer.
pub proof fn lemma_strict_fields_bounds(b: Seq<u8>, p: int)
    requires
        0 <= p <= b.len(),
    ensures
        strict_fields_end(b, p) matches Some(e) ==> p < e <= b.len(),
    decreases b.len() - p, 1nat,
{
    if p < b.len() && b[p] == 0x22 {
        lemma_strict_string_bounds(b, p + 1);
        match strict_string_end(b, p + 1) {
            None => {},
            Some(ke) => {
                lemma_skip_ws_bounds(b, ke);
                let c = skip_ws(b, ke);
                if c < b.len() {
                    lemma_skip_ws_bounds(b, c + 1);
                    let v = skip_ws(b, c + 1);
                    lemma_strict_value_bounds(b, v);
                    match strict_value_end(b, v) {
                        None => {},
                        Some(e) => {
                            lemma_skip_ws_bounds(b, e);
                            let q = skip_ws(b, e);
                            if p < ke <= c < v <= b.len() && v < e <= q < b.len() && b[q] == 0x2c {
                                lemma_skip_ws_bounds(b, q + 1);
                                lemma_strict_fields_bounds(b, skip_ws(b, q + 1));
                            }
                        },
                    }
                }
            },
        }
    }
}

fn simple_escape(c: u8) -> (r: bool)
    ensures
        r == is_simple_escape(c),
{
    c == 0x22 || c == 0x5c || c == 0x2f || c == 0x62 || c == 0x66 || c == 0x6e || c == 0x72 || c
        == 0x74
}

/// Checks the rest of a string whose opening quote stands just before `p`.
pub fn check_string(b: &[u8], p: usize) -> (r: Option<usize>)
    requires
        p <= b@.len(),
    ensures
        r matches Some(e) ==> strict_string_end(b@, p as int) == Some(e as int) && p < e <= b@.len(),
        r is None ==> strict_string_end(b@, p as int) is None,
{
    let n = b.len();
    let mut i: usize = p;
    proof {
        lemma_strict_string_bounds(b@, p as int);
    }
    loop
        invariant
            n == b@.len(),
            p <= i <= n,
            strict_string_end(b@, p as int) == strict_string_end(b@, i as int),
        decreases n - i,
    {
        if i >= n {
            return None;
        }
        let c = b[i];
        if c == 0x22 {
            return Some(i + 1);
        } else if c < 0x20 {
            return None;
        } else if c == 0x5c {
            if n - i <= 1 {
                return None;
            }
            let e = b[i + 1];
            if simple_escape(e) {
                i += 2;
            } else if e == 0x75 && n - i >= 6 && hex_digit(b[i + 2]) && hex_digit(b[i + 3])
                && hex_digit(b[i + 4]) && hex_digit(b[i + 5]) {
                i += 6;
            } else {
                return None;
            }
        } else {
            i += 1;
        }
    }
}

/// Checks the number that starts at `p`.
pub fn check_number(b: &[u8], p: usize) -> (r: Option<usize>)
    requires
        p <= b@.len(),
    ensures
        r matches Some(e) ==> strict_number_end(b@, p as int) == Some(e as int) && p < e <= b@.len(),
        r is None ==> strict_number_end(b@, p as int) is None,
{
    let n = b.len();
    proof {
        lemma_strict_number_bounds(b@, p as int);
    }
    let a: usize = if p < n && b[p] == 0x2d { p + 1 } else { p };
    if a >= n || !(0x30 <= b[a] && b[a] <= 0x39) {
        return None;
    }
    let c: usize = if b[a] == 0x30 { a + 1 } else { skip_digits(b, a) };
    let dot = c < n && b[c] == 0x2e;
    let d: usize = if dot { skip_digits(b, c + 1) } else { c };
    let has_exp = d < n && (b[d] == 0x65 || b[d] == 0x45);
    let signed = has_exp && n - d > 1 && (b[d + 1] == 0x2b || b[d + 1] == 0x2d);
    let s: usize = if signed { d + 2 } else if has_exp { d + 1 } else { d };
    let e: usize = if has_exp { skip_digits(b, s) } else { d };
    if (dot && d <= c + 1) || (has_exp && e <= s) {
        None
    } else {
        Some(e)
    }
}

/// Checks the value whose first byte is at `p`.
pub fn check_value(b: &[u8], p: usize) -> (r: Option<usize>)
    requires
        p <= b@.len(),
    ensures
        r matches Some(e) ==> strict_value_end(b@, p as int) == Some(e as int) && p < e <= b@.len(),
        r is None ==> strict_value_end(b@, p as int) is None,
    decreases b@.len() - p,
{
    let n = b.len();
    proof {
        lemma_strict_value_bounds(b@, p as int);
    }
    if p >= n {
        return None;
    }
    let c = b[p];
    if c == 0x22 {
        check_string(b, p + 1)
    } else if c == 0x5b {
        let q = skip_whitespace(b, p + 1);
        if q < n && b[q] == 0x5d {
            return Some(q + 1);
        }
        let mut cur: usize = q;
        loop
            invariant
                n == b@.len(),
                p < cur <= n,
                strict_value_end(b@, p as int) == strict_elements_end(b@, q as int),
                strict_elements_end(b@, q as int) == strict_elements_end(b@, cur as int),
            decreases n - cur,
        {
            let e: usize = match check_value(b, cur) {
                Some(e) => e,
                None => {
                    return None;
                },
            };
            let w = skip_whitespace(b, e);
            if w >= n {
                return None;
            }
            if b[w] == 0x5d {
                return Some(w + 1);
            }
            if b[w] != 0x2c {
                return None;
            }
            cur = skip_whitespace(b, w + 1);
        }
    } else if c == 0x7b {
        let q = skip_whitespace(b, p + 1);
        if q < n && b[q] == 0x7d {
            return Some(q + 1);
        }
        let mut cur: usize = q;
        loop
            invariant
                n == b@.len(),
                p < cur <= n,
                strict_value_end(b@, p as int) == strict_fields_end(b@, q as int),
                strict_fields_end(b@, q as int) == strict_fields_end(b@, cur as int),
            decreases n - cur,
        {
            if cur >= n || b[cur] != 0x22 {
                return None;
            }
            let ke: usize = match check_string(b, cur + 1) {
                Some(ke) => ke,
                None => {
                    return None;
                },
            };
            let colon = skip_whitespace(b, ke);
            if colon >= n || b[colon] != 0x3a {
                return None;
            }
            let v = skip_whitespace(b, colon + 1);
            let e: usize = match check_value(b, v) {
                Some(e) => e,
                None => {
                    return None;
                },
            };
            let w = skip_whitespace(b, e);
            if w >= n {
                return None;
            }
            if b[w] == 0x7d {
                return Some(w + 1);
            }
            if b[w] != 0x2c {
                return None;
            }
            cur = skip_whitespace(b, w + 1);
        }
    } else if c == 0x2d || (0x30 <= c && c <= 0x39) {
        check_number(b, p)
    } else if starts_with(b, p, &[0x74u8, 0x72u8, 0x75u8, 0x65u8]) || starts_with(
        b,
        p,
        &[0x6eu8, 0x75u8, 0x6cu8, 0x6cu8],
    ) {
        Some(p + 4)
    } else if starts_with(b, p, &[0x66u8, 0x61u8, 0x6cu8, 0x73u8, 0x65u8]) {
        Some(p + 5)
    } else {
        None
    }
}

/// Tests whether a text is valid JSON.
pub fn valid_bytes(b: &[u8]) -> (r: bool)
    ensures
        r == is_valid(b@),
{
    let p = skip_whitespace(b, 0);
    match check_value(b, p) {
        Some(e) => skip_whitespace(b, e) == b.len(),
        None => false,
    }
}

} // verus!
