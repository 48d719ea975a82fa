//! Replacing a value inside a valid JSON text by a valid value gives a valid
//! JSON text.
//!
//! The proof follows the path down through the containers: in each, the
//! members before the one that changes stay where they are, the one that
//! changes is valid by what was shown further down, and the members behind it
//! move as a whole.

use vstd::prelude::*;
use crate::scan::{
    is_close,
    is_space,
    kind_at,
    lemma_skip_ws_bounds,
    members,
    next_element,
    skip_seps,
    skip_ws,
    Element,
    Kind,
};
use crate::mutate::{
    escaped_byte,
    escaped_upto,
    hex_digit_of,
    json_quoted,
    member_index,
    replaced,
    replacement,
    walk,
    Slot,
    Walk,
};
use crate::scan::lemma_next_element_facts;
use crate::strict::{
    lemma_after_value,
    lemma_agree_string,
    lemma_agree_value,
    lemma_strict_elements_window,
    lemma_strict_fields_window,
    lemma_strict_string_window,
    lemma_strict_value_window,
    lemma_ws_plain,
    lemma_ws_window,
};
use crate::valid::{
    lemma_strict_elements_bounds,
    lemma_strict_fields_bounds,
    lemma_strict_string_bounds,
    lemma_strict_value_bounds,
    strict_elements_end,
    strict_fields_end,
    strict_string_end,
    strict_value_end,
};
use crate::windows::{is_number_byte, lemma_window_part, lemma_word_first, same_window};

verus! {

/// How a patched text and the text it was made from go together: the bytes
/// before the patch stay, the patch stands where the range stood, and the
/// bytes behind it move as a whole.
pub proof fn lemma_patched(b: Seq<u8>, lo: int, hi: int, w: Seq<u8>)
    requires
        0 <= lo <= hi <= b.len(),
    ensures
        replaced(b, lo, hi, w).len() == b.len() + w.len() - (hi - lo),
        same_window(b, 0, replaced(b, lo, hi, w), 0, lo),
        same_window(w, 0, replaced(b, lo, hi, w), lo, w.len() as int),
        same_window(b, hi, replaced(b, lo, hi, w), lo + w.len(), b.len() - hi),
{
    let t = replaced(b, lo, hi, w);
    assert forall|j: int| 0 <= j < lo implies b[0 + j] == #[trigger] t[0 + j] by {}
    assert forall|j: int| 0 <= j < w.len() implies w[0 + j] == #[trigger] t[lo + j] by {}
    assert forall|j: int| 0 <= j < b.len() - hi implies b[hi + j] == #[trigger] t[lo + w.len()
        + j] by {}
}

/// Whitespace from `i` up to `j`, where a byte that is no whitespace stands or
/// the text ends, is skipped up to `j`.
pub proof fn lemma_ws_to(b: Seq<u8>, i: int, j: int)
    requires
        0 <= i <= j <= b.len(),
        forall|k: int| i <= k < j ==> is_space(#[trigger] b[k]),
        j < b.len() ==> !is_space(b[j]),
    ensures
        skip_ws(b, i) == j,
    decreases j - i,
{
    if i < j {
        assert(is_space(b[i]));
        lemma_ws_to(b, i + 1, j);
    }
}

/// Whitespace that stands unchanged in a second text, before a byte that is
/// no whitespace there either, is skipped to the same place in both.
pub proof fn lemma_ws_same(b: Seq<u8>, b2: Seq<u8>, i: int, n: int)
    requires
        same_window(b, 0, b2, 0, n),
        0 <= i <= skip_ws(b, i) <= n,
        skip_ws(b, i) < b2.len(),
        !is_space(b2[skip_ws(b, i)]),
    ensures
        skip_ws(b2, i) == skip_ws(b, i),
{
    lemma_ws_plain(b, i);
    let j = skip_ws(b, i);
    assert forall|k: int| i <= k < j implies is_space(#[trigger] b2[k]) by {
        assert(b[0 + k] == b2[0 + k]);
        assert(is_space(b[k]));
    }
    lemma_ws_to(b2, i, j);
}

/// Separators are skipped from where whitespace ends.
pub proof fn lemma_seps_over_ws(b: Seq<u8>, i: int)
    requires
        0 <= i <= b.len(),
    ensures
        skip_seps(b, i) == skip_seps(b, skip_ws(b, i)),
    decreases b.len() - i,
{
    if i < b.len() && is_space(b[i]) {
        lemma_seps_over_ws(b, i + 1);
    }
}

/// A valid value starts with a byte that is no whitespace, no comma, no colon
/// and no closing bracket.
pub proof fn lemma_strict_first(b: Seq<u8>, p: int)
    requires
        strict_value_end(b, p) is Some,
    ensures
        0 <= p < b.len(),
        !is_space(b[p]),
        b[p] != 0x2c,
        !is_close(b[p]),
        skip_seps(b, p) == p,
        skip_ws(b, p) == p,
{
    if crate::scan::has_word(b, p, crate::scan::word_true()) {
        lemma_word_first(b, p, crate::scan::word_true());
    }
    if crate::scan::has_word(b, p, crate::scan::word_false()) {
        lemma_word_first(b, p, crate::scan::word_false());
    }
    if crate::scan::has_word(b, p, crate::scan::word_null()) {
        lemma_word_first(b, p, crate::scan::word_null());
    }
}

/// The start of element `i` of the valid list of elements that starts at `q`.
pub open spec fn nth_start(b: Seq<u8>, q: int, i: nat) -> Option<int>
    decreases i,
{
    if i == 0 {
        Some(q)
    } else {
        match strict_value_end(b, q) {
            Some(e1) => {
                let c = skip_ws(b, e1);
                if 0 <= c < b.len() && b[c] == 0x2c {
                    nth_start(b, skip_ws(b, c + 1), (i - 1) as nat)
                } else {
                    None
                }
            },
            None => None,
        }
    }
}

/// What a valid list of elements looks like at its first element: the value,
/// whitespace, and then the closing bracket or a comma, whitespace and the
/// rest of the list.
pub proof fn lemma_elements_head(b: Seq<u8>, q: int)
    requires
        0 <= q <= b.len(),
        strict_elements_end(b, q) is Some,
    ensures
        strict_value_end(b, q) is Some,
        ({
            let e1 = strict_value_end(b, q)->0;
            let c = skip_ws(b, e1);
            let r = skip_ws(b, c + 1);
            &&& q < e1 <= c < b.len()
            &&& c < strict_elements_end(b, q)->0 <= b.len()
            &&& !is_number_byte(b[e1])
            &&& b[c] == 0x5d || b[c] == 0x2c
            &&& b[c] == 0x5d ==> strict_elements_end(b, q) == Some(c + 1)
            &&& b[c] == 0x2c ==> c < r < b.len() && strict_elements_end(b, r)
                == strict_elements_end(b, q) && strict_value_end(b, r) is Some
        }),
{
    lemma_strict_value_bounds(b, q);
    let e1 = strict_value_end(b, q)->0;
    lemma_skip_ws_bounds(b, e1);
    let c = skip_ws(b, e1);
    lemma_after_value(b, e1);
    if b[c] == 0x2c {
        lemma_skip_ws_bounds(b, c + 1);
        let r = skip_ws(b, c + 1);
        lemma_strict_elements_bounds(b, r);
        lemma_strict_value_bounds(b, r);
    }
}

/// Element `i` of a valid list does not start before the list.
pub proof fn lemma_nth_start_order(b: Seq<u8>, q: int, i: nat)
    requires
        0 <= q <= b.len(),
        nth_start(b, q, i) is Some,
        strict_elements_end(b, q) is Some,
    ensures
        q <= nth_start(b, q, i)->0,
        i > 0 ==> q < nth_start(b, q, i)->0,
        strict_elements_end(b, nth_start(b, q, i)->0) == strict_elements_end(b, q),
    decreases i,
{
    if i > 0 {
        lemma_elements_head(b, q);
        let e1 = strict_value_end(b, q)->0;
        let c = skip_ws(b, e1);
        let r = skip_ws(b, c + 1);
        lemma_nth_start_order(b, r, (i - 1) as nat);
    }
}

/// The walk of the scanner through a valid list of elements steps from one
/// element of the list to the next: member `i` of the walk is element `i` of
/// the list, and it ends where validation says that it ends.
pub proof fn lemma_align_elements(b: Seq<u8>, cur: int, q: int, i: int)
    requires
        0 <= cur <= q <= b.len() <= usize::MAX,
        skip_seps(b, cur) == q,
        strict_elements_end(b, q) is Some,
        0 <= i < members(b, cur, false).len(),
    ensures
        nth_start(b, q, i as nat) == Some(members(b, cur, false)[i].val_lo as int),
        strict_value_end(b, members(b, cur, false)[i].val_lo as int) == Some(
            members(b, cur, false)[i].val_hi as int,
        ),
        members(b, cur, false)[i].val_hi < strict_elements_end(b, q)->0,
        !is_number_byte(b[members(b, cur, false)[i].val_hi as int]),
    decreases i,
{
    lemma_elements_head(b, q);
    lemma_strict_elements_bounds(b, q);
    let e1 = strict_value_end(b, q)->0;
    let c = skip_ws(b, e1);
    lemma_agree_value(b, q);
    lemma_next_element_facts(b, cur, false);
    let ms = members(b, cur, false);
    let first = next_element(b, cur, false)->0;
    assert(next_element(b, cur, false) is Some);
    assert(ms[0] == first);
    assert(first.val_lo == q && first.val_hi == e1);
    if i > 0 {
        let rest = members(b, e1, false);
        assert(ms[i] == rest[i - 1]);
        lemma_seps_over_ws(b, e1);
        assert(next_element(b, e1, false) is Some);
        if b[c] == 0x5d {
            assert(skip_seps(b, c) == c);
            assert(false);
        }
        let r = skip_ws(b, c + 1);
        lemma_seps_over_ws(b, c + 1);
        lemma_strict_first(b, r);
        assert(skip_seps(b, c) == skip_seps(b, c + 1));
        assert(skip_seps(b, e1) == r);
        lemma_align_elements(b, e1, r, i - 1);
    }
}

/// Patching inside element `i` of a valid list of elements, so that the
/// element stays valid, keeps the list valid.
pub proof fn lemma_elements_patched(
    b: Seq<u8>,
    lo: int,
    hi: int,
    w: Seq<u8>,
    q: int,
    i: nat,
    te: int,
)
    requires
        0 <= q <= b.len(),
        strict_elements_end(b, q) is Some,
        nth_start(b, q, i) is Some,
        strict_value_end(b, nth_start(b, q, i)->0) == Some(te),
        nth_start(b, q, i)->0 <= lo <= hi <= te,
        strict_value_end(replaced(b, lo, hi, w), nth_start(b, q, i)->0) == Some(
            te + w.len() - (hi - lo),
        ),
    ensures
        strict_elements_end(replaced(b, lo, hi, w), q) == Some(
            strict_elements_end(b, q)->0 + w.len() - (hi - lo),
        ),
    decreases i,
{
    let b2 = replaced(b, lo, hi, w);
    let delta = w.len() - (hi - lo);
    let tq = nth_start(b, q, i)->0;
    let e = strict_elements_end(b, q)->0;
    lemma_strict_elements_bounds(b, q);
    lemma_strict_value_bounds(b, tq);
    lemma_elements_head(b, q);
    lemma_patched(b, lo, hi, w);
    let e1 = strict_value_end(b, q)->0;
    let c = skip_ws(b, e1);
    if i == 0 {
        lemma_tail_ws(b, lo, hi, w, te);
        if b[c] == 0x2c {
            let r = skip_ws(b, c + 1);
            lemma_tail_ws(b, lo, hi, w, c + 1);
            lemma_strict_elements_bounds(b, r);
            lemma_window_part(b, hi, b2, lo + w.len(), b.len() - hi, r - hi, e - r);
            lemma_strict_elements_window(b, r, b2, r + delta, e - r);
        }
    } else {
        let r = skip_ws(b, c + 1);
        lemma_nth_start_order(b, r, (i - 1) as nat);
        lemma_window_part(b, 0, b2, 0, lo, q, e1 - q);
        assert(b[0 + e1] == b2[0 + e1]);
        lemma_strict_value_window(b, q, b2, q, e1 - q);
        assert(b[0 + c] == b2[0 + c]);
        lemma_ws_same(b, b2, e1, lo);
        lemma_strict_first(b2, tq);
        if r < lo {
            assert(b[0 + r] == b2[0 + r]);
            lemma_strict_first(b, r);
        }
        lemma_ws_same(b, b2, c + 1, lo);
        lemma_elements_patched(b, lo, hi, w, r, (i - 1) as nat, te);
    }
}

/// Behind the patch, whitespace is skipped as before, moved with the text.
pub proof fn lemma_tail_ws(b: Seq<u8>, lo: int, hi: int, w: Seq<u8>, i: int)
    requires
        0 <= lo <= hi <= i <= b.len(),
        skip_ws(b, i) < b.len(),
    ensures
        skip_ws(replaced(b, lo, hi, w), i + w.len() - (hi - lo)) == skip_ws(b, i) + w.len() - (hi
            - lo),
        replaced(b, lo, hi, w)[skip_ws(b, i) + w.len() - (hi - lo)] == b[skip_ws(b, i)],
{
    let b2 = replaced(b, lo, hi, w);
    let delta = w.len() - (hi - lo);
    lemma_patched(b, lo, hi, w);
    lemma_skip_ws_bounds(b, i);
    lemma_window_part(b, hi, b2, lo + w.len(), b.len() - hi, i - hi, b.len() - i);
    lemma_ws_window(b, i, b2, i + delta, b.len() - i);
    let c = skip_ws(b, i);
    assert(b[hi + (c - hi)] == b2[lo + w.len() + (c - hi)]);
}

/// The start of the value of the member whose key starts at `q`.
pub open spec fn field_value_start(b: Seq<u8>, q: int) -> int {
    skip_ws(b, skip_ws(b, strict_string_end(b, q + 1)->0) + 1)
}

/// The start of the key of member `i` of the valid list of members that
/// starts at `q`.
pub open spec fn nth_field(b: Seq<u8>, q: int, i: nat) -> Option<int>
    decreases i,
{
    if i == 0 {
        Some(q)
    } else {
        match strict_value_end(b, field_value_start(b, q)) {
            Some(e1) => {
                let c = skip_ws(b, e1);
                if 0 <= c < b.len() && b[c] == 0x2c {
                    nth_field(b, skip_ws(b, c + 1), (i - 1) as nat)
                } else {
                    None
                }
            },
            None => None,
        }
    }
}

/// What a valid list of members looks like at its first member: the key,
/// the colon, the value, and then the closing bracket or a comma and the rest
/// of the list.
pub proof fn lemma_fields_head(b: Seq<u8>, q: int)
    requires
        0 <= q <= b.len(),
        strict_fields_end(b, q) is Some,
    ensures
        q < b.len(),
        b[q] == 0x22,
        strict_string_end(b, q + 1) is Some,
        strict_value_end(b, field_value_start(b, q)) is Some,
        ({
            let ke = strict_string_end(b, q + 1)->0;
            let colon = skip_ws(b, ke);
            let v = field_value_start(b, q);
            let e1 = strict_value_end(b, v)->0;
            let c = skip_ws(b, e1);
            let r = skip_ws(b, c + 1);
            &&& q + 1 < ke <= colon < v < e1 <= c < b.len()
            &&& b[colon] == 0x3a
            &&& c < strict_fields_end(b, q)->0 <= b.len()
            &&& !is_number_byte(b[e1])
            &&& b[c] == 0x7d || b[c] == 0x2c
            &&& b[c] == 0x7d ==> strict_fields_end(b, q) == Some(c + 1)
            &&& b[c] == 0x2c ==> c < r < b.len() && strict_fields_end(b, r) == strict_fields_end(
                b,
                q,
            ) && b[r] == 0x22
        }),
{
    lemma_strict_string_bounds(b, q + 1);
    let ke = strict_string_end(b, q + 1)->0;
    lemma_skip_ws_bounds(b, ke);
    let colon = skip_ws(b, ke);
    lemma_skip_ws_bounds(b, colon + 1);
    let v = skip_ws(b, colon + 1);
    lemma_strict_value_bounds(b, v);
    let e1 = strict_value_end(b, v)->0;
    lemma_skip_ws_bounds(b, e1);
    let c = skip_ws(b, e1);
    lemma_after_value(b, e1);
    if b[c] == 0x2c {
        lemma_skip_ws_bounds(b, c + 1);
        let r = skip_ws(b, c + 1);
        lemma_strict_fields_bounds(b, r);
    }
}

/// Member `i` of a valid list does not start before the list.
pub proof fn lemma_nth_field_order(b: Seq<u8>, q: int, i: nat)
    requires
        0 <= q <= b.len(),
        nth_field(b, q, i) is Some,
        strict_fields_end(b, q) is Some,
    ensures
        q <= nth_field(b, q, i)->0,
        i > 0 ==> q < nth_field(b, q, i)->0,
        strict_fields_end(b, nth_field(b, q, i)->0) == strict_fields_end(b, q),
    decreases i,
{
    if i > 0 {
        lemma_fields_head(b, q);
        let e1 = strict_value_end(b, field_value_start(b, q))->0;
        let c = skip_ws(b, e1);
        let r = skip_ws(b, c + 1);
        lemma_nth_field_order(b, r, (i - 1) as nat);
    }
}

/// The walk of the scanner through a valid list of members steps from one
/// member of the list to the next.
pub proof fn lemma_align_fields(b: Seq<u8>, cur: int, q: int, i: int)
    requires
        0 <= cur <= q <= b.len() <= usize::MAX,
        skip_seps(b, cur) == q,
        strict_fields_end(b, q) is Some,
        0 <= i < members(b, cur, true).len(),
    ensures
        nth_field(b, q, i as nat) == Some(members(b, cur, true)[i].key_lo as int),
        field_value_start(b, members(b, cur, true)[i].key_lo as int) == members(
            b,
            cur,
            true,
        )[i].val_lo,
        strict_value_end(b, members(b, cur, true)[i].val_lo as int) == Some(
            members(b, cur, true)[i].val_hi as int,
        ),
        members(b, cur, true)[i].val_hi < strict_fields_end(b, q)->0,
        !is_number_byte(b[members(b, cur, true)[i].val_hi as int]),
    decreases i,
{
    lemma_fields_head(b, q);
    let ke = strict_string_end(b, q + 1)->0;
    let v = field_value_start(b, q);
    let e1 = strict_value_end(b, v)->0;
    let c = skip_ws(b, e1);
    lemma_agree_string(b, q + 1);
    lemma_agree_value(b, v);
    lemma_next_element_facts(b, cur, true);
    let ms = members(b, cur, true);
    let first = next_element(b, cur, true)->0;
    assert(next_element(b, cur, true) is Some);
    assert(ms[0] == first);
    assert(first.key_lo == q && first.val_lo == v && first.val_hi == e1);
    if i > 0 {
        let rest = members(b, e1, true);
        assert(ms[i] == rest[i - 1]);
        lemma_seps_over_ws(b, e1);
        assert(next_element(b, e1, true) is Some);
        if b[c] == 0x7d {
            assert(skip_seps(b, c) == c);
            assert(false);
        }
        let r = skip_ws(b, c + 1);
        lemma_seps_over_ws(b, c + 1);
        assert(skip_seps(b, r) == r);
        assert(skip_seps(b, c) == skip_seps(b, c + 1));
        assert(skip_seps(b, e1) == r);
        lemma_align_fields(b, e1, r, i - 1);
    }
}

/// The key and the colon of a member that stand in a part of the text that a
/// second text shares are read in the second text as in the first.
pub proof fn lemma_field_head_same(b: Seq<u8>, b2: Seq<u8>, q: int, n: int)
    requires
        0 <= q <= b.len(),
        same_window(b, 0, b2, 0, n),
        strict_fields_end(b, q) is Some,
        field_value_start(b, q) <= n,
        field_value_start(b, q) < b2.len(),
        !is_space(b2[field_value_start(b, q)]),
    ensures
        b2[q] == 0x22,
        strict_string_end(b2, q + 1) == strict_string_end(b, q + 1),
        skip_ws(b2, strict_string_end(b, q + 1)->0) == skip_ws(b, strict_string_end(b, q + 1)->0),
        b2[skip_ws(b, strict_string_end(b, q + 1)->0)] == 0x3a,
        field_value_start(b2, q) == field_value_start(b, q),
{
    lemma_fields_head(b, q);
    let ke = strict_string_end(b, q + 1)->0;
    let colon = skip_ws(b, ke);
    assert(b[0 + q] == b2[0 + q]);
    lemma_window_part(b, 0, b2, 0, n, q + 1, ke - q - 1);
    lemma_strict_string_window(b, q + 1, b2, q + 1, ke - q - 1);
    assert(b[0 + colon] == b2[0 + colon]);
    lemma_ws_same(b, b2, ke, n);
    lemma_ws_same(b, b2, colon + 1, n);
}

/// A value that stands, with the whitespace and the byte behind it, in a part
/// of the text that a second text shares is read in the second text as in the
/// first.
pub proof fn lemma_value_same(b: Seq<u8>, b2: Seq<u8>, v: int, n: int)
    requires
        0 <= v <= b.len(),
        same_window(b, 0, b2, 0, n),
        strict_value_end(b, v) is Some,
        skip_ws(b, strict_value_end(b, v)->0) < n,
        !is_space(b[skip_ws(b, strict_value_end(b, v)->0)]),
        !is_number_byte(b[strict_value_end(b, v)->0]),
    ensures
        strict_value_end(b2, v) == strict_value_end(b, v),
        skip_ws(b2, strict_value_end(b, v)->0) == skip_ws(b, strict_value_end(b, v)->0),
        b2[skip_ws(b, strict_value_end(b, v)->0)] == b[skip_ws(b, strict_value_end(b, v)->0)],
{
    lemma_strict_value_bounds(b, v);
    let e1 = strict_value_end(b, v)->0;
    lemma_skip_ws_bounds(b, e1);
    let c = skip_ws(b, e1);
    lemma_window_part(b, 0, b2, 0, n, v, e1 - v);
    assert(b[0 + e1] == b2[0 + e1]);
    lemma_strict_value_window(b, v, b2, v, e1 - v);
    assert(b[0 + c] == b2[0 + c]);
    lemma_ws_same(b, b2, e1, n);
}

/// Patching inside the value of member `i` of a valid list of members, so
/// that the value stays valid, keeps the list valid.
pub proof fn lemma_fields_patched(
    b: Seq<u8>,
    lo: int,
    hi: int,
    w: Seq<u8>,
    q: int,
    i: nat,
    te: int,
)
    requires
        0 <= q <= b.len(),
        strict_fields_end(b, q) is Some,
        nth_field(b, q, i) is Some,
        strict_value_end(b, field_value_start(b, nth_field(b, q, i)->0)) == Some(te),
        field_value_start(b, nth_field(b, q, i)->0) <= lo <= hi <= te,
        strict_value_end(replaced(b, lo, hi, w), field_value_start(b, nth_field(b, q, i)->0))
            == Some(te + w.len() - (hi - lo)),
    ensures
        strict_fields_end(replaced(b, lo, hi, w), q) == Some(
            strict_fields_end(b, q)->0 + w.len() - (hi - lo),
        ),
    decreases i,
{
    let b2 = replaced(b, lo, hi, w);
    let delta = w.len() - (hi - lo);
    let tk = nth_field(b, q, i)->0;
    let tq = field_value_start(b, tk);
    let e = strict_fields_end(b, q)->0;
    lemma_fields_head(b, q);
    lemma_nth_field_order(b, q, i);
    lemma_fields_head(b, tk);
    lemma_patched(b, lo, hi, w);
    let v = field_value_start(b, q);
    let e1 = strict_value_end(b, v)->0;
    let c = skip_ws(b, e1);
    let r = skip_ws(b, c + 1);
    if i > 0 {
        lemma_nth_field_order(b, r, (i - 1) as nat);
    }
    lemma_strict_first(b2, tq);
    lemma_strict_first(b, v);
    if v < lo {
        assert(b[0 + v] == b2[0 + v]);
    }
    lemma_field_head_same(b, b2, q, lo);
    if i == 0 {
        lemma_tail_ws(b, lo, hi, w, te);
        if b[c] == 0x2c {
            lemma_tail_ws(b, lo, hi, w, c + 1);
            lemma_strict_fields_bounds(b, r);
            lemma_window_part(b, hi, b2, lo + w.len(), b.len() - hi, r - hi, e - r);
            lemma_strict_fields_window(b, r, b2, r + delta, e - r);
        }
    } else {
        lemma_value_same(b, b2, v, lo);
        assert(b[0 + r] == b2[0 + r]);
        lemma_ws_same(b, b2, c + 1, lo);
        lemma_fields_patched(b, lo, hi, w, r, (i - 1) as nat, te);
    }
}

/// A member that the scanner finds in a valid container is a valid value
/// that stands inside the container, and the walk of the scanner agrees with
/// the list that validation reads.
pub proof fn lemma_member_valid(b: Seq<u8>, v: int, i: int)
    requires
        0 <= v < b.len() <= usize::MAX,
        strict_value_end(b, v) is Some,
        b[v] == 0x5b || b[v] == 0x7b,
        0 <= i < members(b, v + 1, b[v] == 0x7b).len(),
    ensures
        ({
            let m = members(b, v + 1, b[v] == 0x7b)[i];
            let q0 = skip_ws(b, v + 1);
            &&& strict_value_end(b, m.val_lo as int) == Some(m.val_hi as int)
            &&& v < q0 <= m.val_lo < m.val_hi < strict_value_end(b, v)->0 <= b.len()
            &&& !is_number_byte(b[m.val_hi as int])
            &&& skip_seps(b, v + 1) == q0
            &&& !is_close(b[q0])
            &&& b[v] == 0x5b ==> strict_elements_end(b, q0) == strict_value_end(b, v) && nth_start(
                b,
                q0,
                i as nat,
            ) == Some(m.val_lo as int)
            &&& b[v] == 0x7b ==> strict_fields_end(b, q0) == strict_value_end(b, v) && nth_field(
                b,
                q0,
                i as nat,
            ) == Some(m.key_lo as int) && field_value_start(b, m.key_lo as int) == m.val_lo
        }),
{
    let object = b[v] == 0x7b;
    lemma_strict_value_bounds(b, v);
    lemma_skip_ws_bounds(b, v + 1);
    let q0 = skip_ws(b, v + 1);
    lemma_seps_over_ws(b, v + 1);
    lemma_next_element_facts(b, v + 1, object);
    assert(next_element(b, v + 1, object) is Some);
    if is_close(b[q0]) {
        assert(skip_seps(b, q0) == q0);
        assert(false);
    }
    if object {
        lemma_fields_head(b, q0);
        assert(skip_seps(b, q0) == q0);
        lemma_align_fields(b, v + 1, q0, i);
        lemma_nth_field_order(b, q0, i as nat);
        lemma_fields_head(b, members(b, v + 1, true)[i].key_lo as int);
    } else {
        lemma_elements_head(b, q0);
        lemma_strict_first(b, q0);
        lemma_align_elements(b, v + 1, q0, i);
        lemma_nth_start_order(b, q0, i as nat);
        lemma_strict_value_bounds(b, members(b, v + 1, false)[i].val_lo as int);
    }
}

/// Patching inside the value of a member of a valid container, so that the
/// value stays valid, keeps the container valid.
pub proof fn lemma_container_patched(
    b: Seq<u8>,
    lo: int,
    hi: int,
    w: Seq<u8>,
    v: int,
    i: int,
)
    requires
        0 <= v < b.len() <= usize::MAX,
        strict_value_end(b, v) is Some,
        b[v] == 0x5b || b[v] == 0x7b,
        0 <= i < members(b, v + 1, b[v] == 0x7b).len(),
        members(b, v + 1, b[v] == 0x7b)[i].val_lo <= lo <= hi <= members(
            b,
            v + 1,
            b[v] == 0x7b,
        )[i].val_hi,
        strict_value_end(
            replaced(b, lo, hi, w),
            members(b, v + 1, b[v] == 0x7b)[i].val_lo as int,
        ) == Some(members(b, v + 1, b[v] == 0x7b)[i].val_hi + w.len() - (hi - lo)),
    ensures
        strict_value_end(replaced(b, lo, hi, w), v) == Some(
            strict_value_end(b, v)->0 + w.len() - (hi - lo),
        ),
{
    let object = b[v] == 0x7b;
    let b2 = replaced(b, lo, hi, w);
    let m = members(b, v + 1, object)[i];
    let q0 = skip_ws(b, v + 1);
    lemma_member_valid(b, v, i);
    lemma_patched(b, lo, hi, w);
    lemma_strict_first(b2, m.val_lo as int);
    assert(b[0 + v] == b2[0 + v]);
    if q0 < lo {
        assert(b[0 + q0] == b2[0 + q0]);
        lemma_ws_plain(b, v + 1);
    }
    lemma_ws_same(b, b2, v + 1, lo);
    if object {
        lemma_fields_patched(b, lo, hi, w, q0, i as nat, m.val_hi as int);
    } else {
        lemma_elements_patched(b, lo, hi, w, q0, i as nat, m.val_hi as int);
    }
}

/// What it means that a path leads to a member: the value that it starts
/// from is a container, the first segment names one of its members, and
/// either the path ends there or the rest of it leads on from that member.
pub proof fn lemma_walk_step(b: Seq<u8>, v0: int, path: Seq<u8>)
    requires
        walk(b, v0, path) is At,
    ensures
        ({
            let v = skip_ws(b, v0);
            let object = kind_at(b, v) == Kind::Object;
            let s = crate::path::first_segment(path);
            let rest = crate::path::rest_of(path);
            let ms = members(b, v + 1, object);
            let found = member_index(b, v + 1, object, s.kind, path.subrange(0, s.hi as int));
            &&& kind_at(b, v) == Kind::Object || kind_at(b, v) == Kind::Array
            &&& rest.len() < path.len()
            &&& found is Some
            &&& 0 <= found->0 < ms.len()
            &&& rest.len() == 0 ==> walk(b, v0, path) == Walk::At(
                Slot { start: v + 1, object, k: found->0 },
            )
            &&& rest.len() > 0 ==> walk(b, ms[found->0].val_lo as int, rest) == walk(b, v0, path)
        }),
{
    reveal(walk);
}

/// Replacing the value that a path leads to by a valid value keeps the value
/// that the path started from valid.
pub proof fn lemma_walk_patched(b: Seq<u8>, v0: int, path: Seq<u8>, w: Seq<u8>)
    requires
        0 <= v0 <= b.len() <= usize::MAX,
        strict_value_end(b, skip_ws(b, v0)) is Some,
        walk(b, v0, path) is At,
        strict_value_end(w, 0) == Some(w.len() as int),
    ensures
        ({
            let slot = walk(b, v0, path)->At_0;
            let ms = members(b, slot.start, slot.object);
            let t = ms[slot.k];
            &&& 0 <= slot.k < ms.len()
            &&& skip_ws(b, v0) < t.val_lo < t.val_hi < strict_value_end(b, skip_ws(b, v0))->0
            &&& strict_value_end(
                replaced(b, t.val_lo as int, t.val_hi as int, w),
                skip_ws(b, v0),
            ) == Some(
                strict_value_end(b, skip_ws(b, v0))->0 + w.len() - (t.val_hi - t.val_lo),
            )
        }),
    decreases path.len(),
{
    let v = skip_ws(b, v0);
    lemma_skip_ws_bounds(b, v0);
    lemma_strict_value_bounds(b, v);
    lemma_walk_step(b, v0, path);
    let s = crate::path::first_segment(path);
    let rest = crate::path::rest_of(path);
    let object = kind_at(b, v) == Kind::Object;
    assert(b[v] == 0x5b || b[v] == 0x7b);
    assert(object == (b[v] == 0x7b));
    let ms = members(b, v + 1, object);
    let i = member_index(b, v + 1, object, s.kind, path.subrange(0, s.hi as int))->0;
    let m = ms[i];
    lemma_member_valid(b, v, i);
    if rest.len() == 0 {
        lemma_leaf_patched(b, m.val_lo as int, m.val_hi as int, w);
        lemma_container_patched(b, m.val_lo as int, m.val_hi as int, w, v, i);
    } else {
        lemma_strict_first(b, m.val_lo as int);
        lemma_walk_patched(b, m.val_lo as int, rest, w);
        let slot = walk(b, m.val_lo as int, rest)->At_0;
        let t = members(b, slot.start, slot.object)[slot.k];
        lemma_container_patched(b, t.val_lo as int, t.val_hi as int, w, v, i);
    }
}

/// A valid value that takes the place of a range before a byte that cannot go
/// on a number is valid where it stands.
pub proof fn lemma_leaf_patched(b: Seq<u8>, lo: int, hi: int, w: Seq<u8>)
    requires
        0 <= lo <= hi < b.len(),
        !is_number_byte(b[hi]),
        strict_value_end(w, 0) == Some(w.len() as int),
    ensures
        strict_value_end(replaced(b, lo, hi, w), lo) == Some(lo + w.len()),
{
    let b2 = replaced(b, lo, hi, w);
    lemma_patched(b, lo, hi, w);
    lemma_strict_value_bounds(w, 0);
    assert(b[hi + 0] == b2[lo + w.len() + 0]);
    lemma_strict_value_window(w, 0, b2, lo, w.len() as int);
}

/// Mutation validity: replacing the value that a path leads to in a valid
/// JSON text by a valid value gives a valid JSON text.
pub proof fn lemma_overwrite_valid(b: Seq<u8>, path: Seq<u8>, w: Seq<u8>)
    requires
        b.len() <= usize::MAX,
        crate::valid::is_valid(b),
        walk(b, 0, path) is At,
        strict_value_end(w, 0) == Some(w.len() as int),
    ensures
        ({
            let slot = walk(b, 0, path)->At_0;
            let t = members(b, slot.start, slot.object)[slot.k];
            crate::valid::is_valid(replaced(b, t.val_lo as int, t.val_hi as int, w))
        }),
{
    let v = skip_ws(b, 0);
    lemma_skip_ws_bounds(b, 0);
    lemma_walk_patched(b, 0, path, w);
    let slot = walk(b, 0, path)->At_0;
    let t = members(b, slot.start, slot.object)[slot.k];
    let lo = t.val_lo as int;
    let hi = t.val_hi as int;
    let b2 = replaced(b, lo, hi, w);
    let delta = w.len() - (hi - lo);
    let e = strict_value_end(b, v)->0;
    lemma_patched(b, lo, hi, w);
    lemma_strict_first(b, v);
    assert(b[0 + v] == b2[0 + v]);
    lemma_ws_same(b, b2, 0, lo);
    lemma_ws_plain(b, e);
    assert forall|j: int| e + delta <= j < b2.len() implies is_space(#[trigger] b2[j]) by {
        assert(b[hi + (j - delta - hi)] == b2[lo + w.len() + (j - delta - hi)]);
        assert(is_space(b[j - delta]));
    }
    lemma_ws_to(b2, e + delta, b2.len() as int);
}

/// In the escaped form of a text, the escaped form of byte `k` stands behind
/// the escaped form of the bytes before it.
pub proof fn lemma_escaped_at(v: Seq<u8>, k: int, n: int)
    requires
        0 <= k < n <= v.len(),
    ensures
        escaped_upto(v, k).len() + escaped_byte(v[k]).len() <= escaped_upto(v, n).len(),
        forall|j: int|
            0 <= j < escaped_byte(v[k]).len() ==> escaped_upto(v, n)[escaped_upto(v, k).len() + j]
                == #[trigger] escaped_byte(v[k])[j],
        escaped_upto(v, k + 1).len() == escaped_upto(v, k).len() + escaped_byte(v[k]).len(),
    decreases n,
{
    if n > k + 1 {
        lemma_escaped_at(v, k, n - 1);
    }
}

/// From the escaped form of byte `k` on, a text between quotes is a valid
/// string.
pub proof fn lemma_quoted_from(v: Seq<u8>, k: int)
    requires
        0 <= k <= v.len(),
    ensures
        strict_string_end(json_quoted(v), 1 + escaped_upto(v, k).len() as int) == Some(
            json_quoted(v).len() as int,
        ),
        1 + escaped_upto(v, k).len() < json_quoted(v).len(),
    decreases v.len() - k,
{
    let t = json_quoted(v);
    let n = v.len() as int;
    let body = escaped_upto(v, n);
    let pos: int = 1 + escaped_upto(v, k).len() as int;
    assert(t.len() == body.len() + 2);
    if k == n {
        assert(t[pos] == 0x22);
    } else {
        lemma_escaped_at(v, k, n);
        lemma_quoted_from(v, k + 1);
        let chunk = escaped_byte(v[k]);
        assert forall|j: int| 0 <= j < chunk.len() implies t[pos + j] == chunk[j] by {
            assert(t[1 + (escaped_upto(v, k).len() + j)] == body[escaped_upto(v, k).len() + j]);
        }
        let c = v[k];
        assert(t[pos + 0] == chunk[0]);
        if c == 0x22 || c == 0x5c {
            assert(t[pos + 1] == chunk[1]);
        } else if c < 0x20 {
            assert(t[pos + 1] == chunk[1]);
            assert(t[pos + 2] == chunk[2]);
            assert(t[pos + 3] == chunk[3]);
            assert(t[pos + 4] == chunk[4]);
            assert(t[pos + 5] == chunk[5]);
            assert(crate::text::is_hex(hex_digit_of(c as int / 16)));
            assert(crate::text::is_hex(hex_digit_of(c as int % 16)));
            assert(crate::text::hex4_at(t, pos + 2));
        }
    }
}

/// The text that stands for a new value is one valid value, with nothing
/// before it and nothing behind it.
pub proof fn lemma_replacement_strict(v: Seq<u8>)
    ensures
        strict_value_end(replacement(v), 0) == Some(replacement(v).len() as int),
{
    if crate::valid::is_valid(v) {
        let p = skip_ws(v, 0);
        lemma_skip_ws_bounds(v, 0);
        lemma_strict_value_bounds(v, p);
        let e = strict_value_end(v, p)->0;
        let w = v.subrange(p, e);
        assert(same_window(v, p, w, 0, e - p)) by {
            assert forall|j: int| 0 <= j < e - p implies v[p + j] == #[trigger] w[0 + j] by {}
        }
        lemma_strict_value_window(v, p, w, 0, e - p);
    } else {
        lemma_quoted_from(v, 0);
        let t = json_quoted(v);
        assert(escaped_upto(v, 0).len() == 0);
        assert(t[0] == 0x22);
    }
}

} // verus!
