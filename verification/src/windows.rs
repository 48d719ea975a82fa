//! A value scans the same wherever it stands: if the bytes of a value that
//! ends by itself stand in another buffer, followed by a byte that cannot go
//! on a number, the scanner finds the same value there.

use vstd::prelude::*;
use crate::scan::{
    digits_end,
    has_word,
    is_close,
    is_digit,
    is_open,
    kind_at,
    lemma_digits_end_bounds,
    lemma_squash_end_bounds,
    lemma_string_end_bounds,
    number_end,
    squash_end,
    string_end,
    value_end,
    word_false,
    word_null,
    word_true,
    Kind,
};

verus! {

/// Bytes that can stand inside a number.
pub open spec fn is_number_byte(c: u8) -> bool {
    is_digit(c) || c == 0x2e || c == 0x65 || c == 0x45 || c == 0x2b || c == 0x2d
}

/// The `n` bytes at `q1` in `b1` are the `n` bytes at `q2` in `b2`.
pub open spec fn same_window(b1: Seq<u8>, q1: int, b2: Seq<u8>, q2: int, n: int) -> bool {
    &&& 0 <= q1
    &&& 0 <= q2
    &&& 0 <= n
    &&& q1 + n <= b1.len()
    &&& q2 + n <= b2.len()
    &&& forall|j: int| 0 <= j < n ==> b1[q1 + j] == #[trigger] b2[q2 + j]
}

/// A part of a window is a window.
pub proof fn lemma_window_part(b1: Seq<u8>, q1: int, b2: Seq<u8>, q2: int, n: int, d: int, m: int)
    requires
        same_window(b1, q1, b2, q2, n),
        0 <= d,
        0 <= m,
        d + m <= n,
    ensures
        same_window(b1, q1 + d, b2, q2 + d, m),
{
    assert forall|j: int| 0 <= j < m implies b1[q1 + d + j] == #[trigger] b2[q2 + d + j] by {
        assert(b1[q1 + (d + j)] == b2[q2 + (d + j)]);
    }
}

/// A string that is closed inside a window is closed at the same place
/// wherever the window stands.
pub proof fn lemma_string_window(b1: Seq<u8>, i1: int, b2: Seq<u8>, i2: int, m: int)
    requires
        same_window(b1, i1, b2, i2, m),
        string_end(b1, i1) == i1 + m,
        i1 + m < b1.len(),
    ensures
        string_end(b2, i2) == i2 + m,
    decreases m,
{
    lemma_string_end_bounds(b1, i1);
    assert(m >= 1);
    assert(b1[i1 + 0] == b2[i2 + 0]);
    if b1[i1] == 0x22 {
    } else if b1[i1] == 0x5c {
        lemma_string_end_bounds(b1, i1 + 2);
        lemma_window_part(b1, i1, b2, i2, m, 2, m - 2);
        lemma_string_window(b1, i1 + 2, b2, i2 + 2, m - 2);
    } else {
        lemma_string_end_bounds(b1, i1 + 1);
        lemma_window_part(b1, i1, b2, i2, m, 1, m - 1);
        lemma_string_window(b1, i1 + 1, b2, i2 + 1, m - 1);
    }
}

/// A container that is closed inside a window is closed at the same place
/// wherever the window stands.
pub proof fn lemma_squash_window(
    b1: Seq<u8>,
    i1: int,
    b2: Seq<u8>,
    i2: int,
    m: int,
    depth: nat,
    in_str: bool,
)
    requires
        same_window(b1, i1, b2, i2, m),
        squash_end(b1, i1, depth, in_str) == i1 + m,
        i1 + m < b1.len(),
    ensures
        squash_end(b2, i2, depth, in_str) == i2 + m,
    decreases m,
{
    lemma_squash_end_bounds(b1, i1, depth, in_str);
    if m == 0 {
        // The scan does not end where it starts unless the buffer ends there.
        assert(i1 < b1.len());
        if in_str {
            if b1[i1] == 0x22 {
                lemma_squash_end_bounds(b1, i1 + 1, depth, false);
            } else if b1[i1] == 0x5c {
                if i1 + 1 < b1.len() {
                    lemma_squash_end_bounds(b1, i1 + 2, depth, true);
                }
            } else {
                lemma_squash_end_bounds(b1, i1 + 1, depth, true);
            }
        } else if b1[i1] == 0x22 {
            lemma_squash_end_bounds(b1, i1 + 1, depth, true);
        } else if is_open(b1[i1]) {
            lemma_squash_end_bounds(b1, i1 + 1, depth + 1, false);
        } else if is_close(b1[i1]) {
            if depth > 1 {
                lemma_squash_end_bounds(b1, i1 + 1, (depth - 1) as nat, false);
            }
        } else {
            lemma_squash_end_bounds(b1, i1 + 1, depth, false);
        }
        assert(false);
    } else {
        assert(b1[i1 + 0] == b2[i2 + 0]);
        let c = b1[i1];
        let escape = in_str && c == 0x5c;
        if escape {
            lemma_squash_end_bounds(b1, i1 + 2, depth, true);
            lemma_window_part(b1, i1, b2, i2, m, 2, m - 2);
            lemma_squash_window(b1, i1 + 2, b2, i2 + 2, m - 2, depth, true);
        } else {
            let ends = !in_str && is_close(c) && depth <= 1;
            if !ends {
                let d: nat = if in_str || c == 0x22 {
                    depth
                } else if is_open(c) {
                    depth + 1
                } else if is_close(c) {
                    (depth - 1) as nat
                } else {
                    depth
                };
                let s = if in_str {
                    c != 0x22
                } else {
                    c == 0x22
                };
                lemma_squash_end_bounds(b1, i1 + 1, d, s);
                lemma_window_part(b1, i1, b2, i2, m, 1, m - 1);
                lemma_squash_window(b1, i1 + 1, b2, i2 + 1, m - 1, d, s);
            }
        }
    }
}

/// A run of digits that ends inside a window, or at its end before a byte
/// that is no digit, ends at the same place wherever the window stands.
pub proof fn lemma_digits_window(b1: Seq<u8>, i1: int, b2: Seq<u8>, i2: int, w: int)
    requires
        same_window(b1, i1, b2, i2, w),
        digits_end(b1, i1) <= i1 + w,
        i2 + w < b2.len() ==> !is_digit(b2[i2 + w]),
    ensures
        digits_end(b2, i2) - i2 == digits_end(b1, i1) - i1,
    decreases w,
{
    lemma_digits_end_bounds(b1, i1);
    if w == 0 {
    } else {
        assert(b1[i1 + 0] == b2[i2 + 0]);
        if is_digit(b1[i1]) {
            lemma_window_part(b1, i1, b2, i2, w, 1, w - 1);
            lemma_digits_window(b1, i1 + 1, b2, i2 + 1, w - 1);
        }
    }
}

/// A number that ends at the end of a window, before a byte that cannot go on
/// a number, ends at the same place wherever the window stands.
pub proof fn lemma_number_window(b1: Seq<u8>, q1: int, b2: Seq<u8>, q2: int, n: int)
    requires
        same_window(b1, q1, b2, q2, n),
        n > 0,
        number_end(b1, q1) == q1 + n,
        q2 + n < b2.len() ==> !is_number_byte(b2[q2 + n]),
    ensures
        number_end(b2, q2) == q2 + n,
{
    assert(b1[q1 + 0] == b2[q2 + 0]);
    let s: int = if b1[q1] == 0x2d { 1 } else { 0 };
    let a1 = q1 + s;
    let a2 = q2 + s;
    lemma_digits_end_bounds(b1, a1);
    let c1 = digits_end(b1, a1);
    let dot1 = c1 < b1.len() && b1[c1] == 0x2e;
    if dot1 {
        lemma_digits_end_bounds(b1, c1 + 1);
    }
    let d1 = if dot1 { digits_end(b1, c1 + 1) } else { c1 };
    let exp1 = d1 < b1.len() && (b1[d1] == 0x65 || b1[d1] == 0x45);
    let sign1 = exp1 && d1 + 1 < b1.len() && (b1[d1 + 1] == 0x2b || b1[d1 + 1] == 0x2d);
    let s1 = if sign1 { d1 + 2 } else { d1 + 1 };
    if exp1 {
        lemma_digits_end_bounds(b1, s1);
    }
    // Digits before the point.
    lemma_window_part(b1, q1, b2, q2, n, s, n - s);
    lemma_digits_window(b1, a1, b2, a2, n - s);
    let c2 = digits_end(b2, a2);
    assert(c2 - q2 == c1 - q1);
    if c1 < q1 + n {
        assert(b1[q1 + (c1 - q1)] == b2[q2 + (c1 - q1)]);
    }
    if dot1 {
        lemma_window_part(b1, q1, b2, q2, n, c1 + 1 - q1, q1 + n - (c1 + 1));
        lemma_digits_window(b1, c1 + 1, b2, c2 + 1, q1 + n - (c1 + 1));
    }
    let d2 = c2 + (d1 - c1);
    if d1 < q1 + n {
        assert(b1[q1 + (d1 - q1)] == b2[q2 + (d1 - q1)]);
    }
    if exp1 {
        if d1 + 1 < q1 + n {
            assert(b1[q1 + (d1 + 1 - q1)] == b2[q2 + (d1 + 1 - q1)]);
        }
        lemma_window_part(b1, q1, b2, q2, n, s1 - q1, q1 + n - s1);
        lemma_digits_window(b1, s1, b2, d2 + (s1 - d1), q1 + n - s1);
    }
}

/// A word that stands in a buffer starts with its first byte.
pub proof fn lemma_word_first(b: Seq<u8>, q: int, word: Seq<u8>)
    requires
        word.len() > 0,
        has_word(b, q, word),
    ensures
        0 <= q < b.len(),
        b[q] == word[0],
{
    assert(b.subrange(q, q + word.len())[0] == b[q]);
}

/// A word that stands inside a window stands at the same place wherever the
/// window stands.
pub proof fn lemma_word_window(b1: Seq<u8>, q1: int, b2: Seq<u8>, q2: int, n: int, word: Seq<u8>)
    requires
        same_window(b1, q1, b2, q2, n),
        word.len() <= n,
    ensures
        has_word(b2, q2, word) == has_word(b1, q1, word),
{
    let m = word.len() as int;
    assert forall|j: int| 0 <= j < m implies #[trigger] b1.subrange(q1, q1 + m)[j]
        == b2.subrange(q2, q2 + m)[j] by {
        assert(b1[q1 + j] == b2[q2 + j]);
    }
    assert(b1.subrange(q1, q1 + m) =~= b2.subrange(q2, q2 + m));
}

/// A value that ends by itself inside its buffer is found, with the same kind
/// and the same extent, wherever its bytes stand before a byte that cannot go
/// on a number.
pub proof fn lemma_value_window(b1: Seq<u8>, q1: int, b2: Seq<u8>, q2: int, n: int)
    requires
        same_window(b1, q1, b2, q2, n),
        n > 0,
        value_end(b1, q1) == q1 + n,
        q1 + n < b1.len(),
        q2 + n < b2.len() ==> !is_number_byte(b2[q2 + n]),
    ensures
        value_end(b2, q2) == q2 + n,
        kind_at(b2, q2) == kind_at(b1, q1),
        kind_at(b1, q1) != Kind::NotPresent,
{
    assert(b1[q1 + 0] == b2[q2 + 0]);
    let k = kind_at(b1, q1);
    if has_word(b2, q2, word_true()) {
        lemma_word_first(b2, q2, word_true());
    }
    if has_word(b2, q2, word_false()) {
        lemma_word_first(b2, q2, word_false());
    }
    if has_word(b2, q2, word_null()) {
        lemma_word_first(b2, q2, word_null());
    }
    if has_word(b1, q1, word_true()) {
        lemma_word_first(b1, q1, word_true());
    }
    if has_word(b1, q1, word_false()) {
        lemma_word_first(b1, q1, word_false());
    }
    if has_word(b1, q1, word_null()) {
        lemma_word_first(b1, q1, word_null());
    }
    match k {
        Kind::String => {
            lemma_window_part(b1, q1, b2, q2, n, 1, n - 1);
            lemma_string_window(b1, q1 + 1, b2, q2 + 1, n - 1);
        },
        Kind::Object | Kind::Array => {
            lemma_window_part(b1, q1, b2, q2, n, 1, n - 1);
            lemma_squash_window(b1, q1 + 1, b2, q2 + 1, n - 1, 1, false);
        },
        Kind::Number => {
            lemma_number_window(b1, q1, b2, q2, n);
        },
        Kind::True => {
            lemma_word_window(b1, q1, b2, q2, n, word_true());
        },
        Kind::False => {
            lemma_word_window(b1, q1, b2, q2, n, word_false());
        },
        Kind::Null => {
            lemma_word_window(b1, q1, b2, q2, n, word_null());
        },
        Kind::NotPresent => {},
    }
}

} // verus!
