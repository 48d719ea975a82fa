//! Putting a new member into a container of a valid JSON text gives a valid
//! JSON text.

use vstd::prelude::*;
use crate::lists::stands_at;
use crate::mutate::{fresh, inserted, json_quoted, new_member, nulls, replaced, walk, Walk};
use crate::path::{first_segment, rest_of, SegKind};
use crate::scan::{
    has_word,
    is_close,
    is_space,
    kind_at,
    lemma_skip_ws_bounds,
    members,
    next_element,
    skip_seps,
    skip_ws,
    word_null,
    word_true,
    Kind,
};
use crate::splice::{
    field_value_start,
    lemma_container_patched,
    lemma_elements_head,
    lemma_field_head_same,
    lemma_fields_head,
    lemma_member_valid,
    lemma_nth_field_order,
    lemma_nth_start_order,
    lemma_patched,
    lemma_quoted_from,
    lemma_replacement_strict,
    lemma_seps_over_ws,
    lemma_strict_first,
    lemma_tail_ws,
    lemma_value_same,
    lemma_ws_same,
    lemma_ws_to,
    nth_field,
    nth_start,
};
use crate::strict::{
    lemma_agree_string,
    lemma_agree_value,
    lemma_strict_string_window,
    lemma_strict_value_window,
    lemma_ws_plain,
};
use crate::text::{digits_value, unescape_path};
use crate::valid::{
    is_valid,
    lemma_strict_value_bounds,
    strict_elements_end,
    strict_fields_end,
    strict_value_end,
};
use crate::windows::{is_number_byte, lemma_window_part, lemma_word_first, same_window};

verus! {

/// Where `x` and then `y` stand, `x` stands, and `y` stands behind it.
pub proof fn lemma_stands_parts(t: Seq<u8>, c: int, x: Seq<u8>, y: Seq<u8>)
    requires
        stands_at(t, c, x + y),
    ensures
        stands_at(t, c, x),
        stands_at(t, c + x.len(), y),
{
    assert forall|j: int| 0 <= j < x.len() implies #[trigger] t[c + j] == x[j] by {
        assert((x + y)[j] == x[j]);
    }
    assert forall|j: int| 0 <= j < y.len() implies #[trigger] t[c + x.len() + j] == y[j] by {
        assert((x + y)[x.len() + j] == y[j]);
        assert(t[c + (x.len() + j)] == (x + y)[x.len() + j]);
    }
}

/// A valid value is valid where it stands before a byte that cannot go on a
/// number.
pub proof fn lemma_stands_value(t: Seq<u8>, c: int, x: Seq<u8>)
    requires
        stands_at(t, c, x),
        strict_value_end(x, 0) == Some(x.len() as int),
        c + x.len() < t.len() ==> !is_number_byte(t[c + x.len()]),
    ensures
        strict_value_end(t, c) == Some(c + x.len()),
        x.len() > 0,
        c < t.len(),
        t[c] == x[0],
        !is_space(t[c]),
        !is_close(t[c]),
        t[c] != 0x2c,
{
    lemma_strict_value_bounds(x, 0);
    lemma_strict_first(x, 0);
    assert(same_window(x, 0, t, c, x.len() as int)) by {
        assert forall|j: int| 0 <= j < x.len() implies x[0 + j] == #[trigger] t[c + j] by {}
    }
    assert(t[c + 0] == x[0]);
    lemma_strict_value_window(x, 0, t, c, x.len() as int);
}

/// Whitespace that leads to a closing bracket starts with a byte that cannot
/// go on a number.
pub proof fn lemma_before_close(t: Seq<u8>, i: int)
    requires
        0 <= i <= t.len(),
        skip_ws(t, i) < t.len(),
        is_close(t[skip_ws(t, i)]),
    ensures
        i < t.len(),
        !is_number_byte(t[i]),
{
    lemma_skip_ws_bounds(t, i);
    lemma_ws_plain(t, i);
}

/// `null,` written one more time is `null,` before what was written.
pub proof fn lemma_nulls_front(k: nat)
    requires
        k > 0,
    ensures
        nulls(k) == seq![0x6eu8, 0x75u8, 0x6cu8, 0x6cu8, 0x2cu8] + nulls((k - 1) as nat),
        nulls(k).len() == 5 * k,
    decreases k,
{
    let one = seq![0x6eu8, 0x75u8, 0x6cu8, 0x6cu8, 0x2cu8];
    if k == 1 {
        assert(nulls(0).len() == 0);
        assert(nulls(1) =~= one + nulls(0));
    } else {
        lemma_nulls_front((k - 1) as nat);
        assert(nulls(k) =~= one + nulls((k - 1) as nat));
    }
}

/// Where `null,` stands, validation reads the value `null` and a comma.
pub proof fn lemma_null_stands(t: Seq<u8>, c: int)
    requires
        stands_at(t, c, seq![0x6eu8, 0x75u8, 0x6cu8, 0x6cu8, 0x2cu8]),
    ensures
        strict_value_end(t, c) == Some(c + 4),
        skip_ws(t, c + 4) == c + 4,
        t[c + 4] == 0x2c,
        t[c] == 0x6e,
{
    let one = seq![0x6eu8, 0x75u8, 0x6cu8, 0x6cu8, 0x2cu8];
    assert(t[c + 0] == one[0]);
    assert(t[c + 1] == one[1]);
    assert(t[c + 2] == one[2]);
    assert(t[c + 3] == one[3]);
    assert(t[c + 4] == one[4]);
    assert(t.subrange(c, c + 4) =~= word_null());
    if has_word(t, c, word_true()) {
        lemma_word_first(t, c, word_true());
    }
}

/// Where as many `null,` as it takes, a valid value, whitespace and a closing
/// bracket stand, validation reads the rest of an array.
pub proof fn lemma_list_of_nulls(t: Seq<u8>, c: int, k: nat, inner: Seq<u8>)
    requires
        stands_at(t, c, nulls(k) + inner),
        strict_value_end(inner, 0) == Some(inner.len() as int),
        skip_ws(t, c + nulls(k).len() + inner.len()) < t.len(),
        t[skip_ws(t, c + nulls(k).len() + inner.len())] == 0x5d,
    ensures
        strict_elements_end(t, c) == Some(skip_ws(t, c + nulls(k).len() + inner.len()) + 1),
        c < t.len(),
        !is_space(t[c]),
        !is_close(t[c]),
    decreases k,
{
    let end = c + nulls(k).len() + inner.len();
    lemma_skip_ws_bounds(t, end);
    if k == 0 {
        assert(nulls(0).len() == 0);
        assert(nulls(0) + inner =~= inner);
        lemma_before_close(t, end);
        lemma_stands_value(t, c, inner);
    } else {
        lemma_nulls_front(k);
        let one = seq![0x6eu8, 0x75u8, 0x6cu8, 0x6cu8, 0x2cu8];
        let rest = nulls((k - 1) as nat) + inner;
        assert(nulls(k) + inner =~= one + rest);
        lemma_stands_parts(t, c, one, rest);
        lemma_null_stands(t, c);
        if k > 1 {
            lemma_nulls_front((k - 1) as nat);
        } else {
            assert(nulls(0).len() == 0);
        }
        lemma_list_of_nulls(t, c + 5, (k - 1) as nat, inner);
        assert(skip_ws(t, c + 5) == c + 5);
    }
}

/// Where a key between quotes, a colon, a valid value, whitespace and a
/// closing bracket stand, validation reads the rest of an object.
pub proof fn lemma_list_of_field(t: Seq<u8>, c: int, key: Seq<u8>, inner: Seq<u8>)
    requires
        stands_at(t, c, json_quoted(key) + seq![0x3au8] + inner),
        strict_value_end(inner, 0) == Some(inner.len() as int),
        skip_ws(t, c + json_quoted(key).len() + 1 + inner.len()) < t.len(),
        t[skip_ws(t, c + json_quoted(key).len() + 1 + inner.len())] == 0x7d,
    ensures
        strict_fields_end(t, c) == Some(
            skip_ws(t, c + json_quoted(key).len() + 1 + inner.len()) + 1,
        ),
        c < t.len(),
        t[c] == 0x22,
{
    let q = json_quoted(key);
    let end = c + q.len() + 1 + inner.len();
    lemma_skip_ws_bounds(t, end);
    lemma_quoted_from(key, 0);
    assert(crate::mutate::escaped_upto(key, 0).len() == 0);
    assert(q + seq![0x3au8] + inner =~= q + (seq![0x3au8] + inner));
    lemma_stands_parts(t, c, q, seq![0x3au8] + inner);
    lemma_stands_parts(t, c + q.len(), seq![0x3au8], inner);
    assert(t[c + 0] == q[0]);
    assert(same_window(q, 1, t, c + 1, q.len() - 1)) by {
        assert forall|j: int| 0 <= j < q.len() - 1 implies q[1 + j] == #[trigger] t[c + 1 + j] by {
            assert(t[c + (1 + j)] == q[1 + j]);
        }
    }
    lemma_strict_string_window(q, 1, t, c + 1, q.len() - 1);
    assert(t[c + q.len() + 0] == seq![0x3au8][0]);
    lemma_before_close(t, end);
    lemma_stands_value(t, c + q.len() + 1, inner);
    assert(skip_ws(t, c + q.len()) == c + q.len());
    assert(skip_ws(t, c + q.len() + 1) == c + q.len() + 1);
}

/// The smallest text in which a path leads to a value is one valid value.
pub proof fn lemma_fresh_strict(path: Seq<u8>, value: Seq<u8>)
    requires
        fresh(path, value) is Some,
    ensures
        strict_value_end(fresh(path, value)->0, 0) == Some(fresh(path, value)->0.len() as int),
    decreases path.len(),
{
    let t = fresh(path, value)->0;
    if path.len() == 0 {
        lemma_replacement_strict(value);
    } else {
        let s = first_segment(path);
        let rest = rest_of(path);
        lemma_fresh_strict(rest, value);
        let inner = fresh(rest, value)->0;
        lemma_strict_first(inner, 0);
        if s.kind == SegKind::Index {
            let n = digits_value(path.subrange(0, s.hi as int));
            let m = nulls(n) + inner;
            assert(t =~= seq![0x5bu8] + m + seq![0x5du8]);
            assert(stands_at(t, 1, m)) by {
                assert forall|j: int| 0 <= j < m.len() implies #[trigger] t[1 + j] == m[j] by {}
            }
            assert(t[1 + m.len() as int] == 0x5d);
            assert(skip_ws(t, 1 + m.len() as int) == 1 + m.len());
            lemma_list_of_nulls(t, 1, n, inner);
            assert(skip_ws(t, 1) == 1);
        } else {
            let key = unescape_path(path.subrange(0, s.hi as int));
            let m = json_quoted(key) + seq![0x3au8] + inner;
            assert(t =~= seq![0x7bu8] + m + seq![0x7du8]);
            assert(stands_at(t, 1, m)) by {
                assert forall|j: int| 0 <= j < m.len() implies #[trigger] t[1 + j] == m[j] by {}
            }
            assert(t[1 + m.len() as int] == 0x7d);
            assert(skip_ws(t, 1 + m.len() as int) == 1 + m.len());
            lemma_list_of_field(t, 1, key, inner);
            assert(skip_ws(t, 1) == 1);
        }
    }
}

/// Where a new member, whitespace and the closing bracket of its container
/// stand, validation reads the rest of the container.
pub proof fn lemma_member_list(
    t: Seq<u8>,
    c: int,
    path: Seq<u8>,
    value: Seq<u8>,
    object: bool,
    count: nat,
)
    requires
        new_member(path, value, object, count) is Some,
        stands_at(t, c, new_member(path, value, object, count)->0),
        skip_ws(t, c + new_member(path, value, object, count)->0.len()) < t.len(),
        t[skip_ws(t, c + new_member(path, value, object, count)->0.len())] == (if object {
            0x7du8
        } else {
            0x5du8
        }),
    ensures
        new_member(path, value, object, count)->0.len() > 0,
        c < t.len(),
        !is_space(t[c]),
        !is_close(t[c]),
        object ==> strict_fields_end(t, c) == Some(
            skip_ws(t, c + new_member(path, value, object, count)->0.len()) + 1,
        ),
        !object ==> strict_elements_end(t, c) == Some(
            skip_ws(t, c + new_member(path, value, object, count)->0.len()) + 1,
        ),
{
    reveal(new_member);
    let s = first_segment(path);
    let rest = rest_of(path);
    lemma_fresh_strict(rest, value);
    let inner = fresh(rest, value)->0;
    lemma_strict_value_bounds(inner, 0);
    if object {
        let key = unescape_path(path.subrange(0, s.hi as int));
        lemma_list_of_field(t, c, key, inner);
    } else {
        let n = digits_value(path.subrange(0, s.hi as int));
        lemma_list_of_nulls(t, c, (n - count) as nat, inner);
    }
}

/// The walk from the end of member `k` steps through the members behind it.
pub proof fn lemma_members_after(b: Seq<u8>, p: int, in_object: bool, k: int)
    requires
        0 <= p <= b.len() <= usize::MAX,
        0 <= k < members(b, p, in_object).len(),
    ensures
        members(b, members(b, p, in_object)[k].next as int, in_object) == members(
            b,
            p,
            in_object,
        ).subrange(k + 1, members(b, p, in_object).len() as int),
    decreases k,
{
    crate::scan::lemma_next_element_bounds(b, p, in_object);
    let ms = members(b, p, in_object);
    let e = next_element(b, p, in_object)->0;
    let rest = members(b, e.next as int, in_object);
    assert(ms =~= seq![e] + rest);
    if k == 0 {
        assert(rest =~= ms.subrange(1, ms.len() as int));
    } else {
        lemma_members_after(b, e.next as int, in_object, k - 1);
        assert(ms[k] == rest[k - 1]);
        assert(rest.subrange(k, rest.len() as int) =~= ms.subrange(k + 1, ms.len() as int));
    }
}

/// Where a valid value stands behind the separators that follow the cursor,
/// the walk finds a member.
pub proof fn lemma_walk_finds(b: Seq<u8>, cur: int, q: int, in_object: bool)
    requires
        0 <= cur <= q <= b.len() <= usize::MAX,
        skip_seps(b, cur) == q,
        if in_object {
            strict_fields_end(b, q) is Some
        } else {
            strict_elements_end(b, q) is Some
        },
    ensures
        members(b, cur, in_object).len() > 0,
{
    crate::scan::lemma_next_element_bounds(b, cur, in_object);
    if in_object {
        lemma_fields_head(b, q);
        lemma_agree_string(b, q + 1);
        lemma_agree_value(b, field_value_start(b, q));
    } else {
        lemma_elements_head(b, q);
        lemma_agree_value(b, q);
    }
    assert(next_element(b, cur, in_object) is Some);
}

/// Putting a comma and more elements behind the last element of a valid list
/// of elements, so that what is put there is read as the rest of the list,
/// keeps the list valid.
pub proof fn lemma_elements_appended(b: Seq<u8>, at: int, ins: Seq<u8>, q: int, i: nat)
    requires
        0 <= q <= b.len(),
        strict_elements_end(b, q) is Some,
        nth_start(b, q, i) is Some,
        strict_value_end(b, nth_start(b, q, i)->0) == Some(at),
        ins.len() >= 2,
        ins[0] == 0x2c,
        !is_space(ins[1]),
        strict_elements_end(replaced(b, at, at, ins), at + 1) == Some(
            strict_elements_end(b, q)->0 + ins.len(),
        ),
    ensures
        strict_elements_end(replaced(b, at, at, ins), q) == Some(
            strict_elements_end(b, q)->0 + ins.len(),
        ),
    decreases i,
{
    let b2 = replaced(b, at, at, ins);
    let tq = nth_start(b, q, i)->0;
    lemma_strict_value_bounds(b, tq);
    lemma_elements_head(b, q);
    lemma_nth_start_order(b, q, i);
    lemma_patched(b, at, at, ins);
    let e1 = strict_value_end(b, q)->0;
    let c = skip_ws(b, e1);
    assert(ins[0int + 0] == b2[at + 0]);
    assert(ins[0int + 1] == b2[at + 1]);
    if i == 0 {
        lemma_window_part(b, 0, b2, 0, at, q, at - q);
        lemma_strict_value_window(b, q, b2, q, at - q);
        assert(skip_ws(b2, at) == at);
        assert(skip_ws(b2, at + 1) == at + 1);
    } else {
        let r = skip_ws(b, c + 1);
        lemma_nth_start_order(b, r, (i - 1) as nat);
        lemma_value_same(b, b2, q, at);
        lemma_strict_first(b, r);
        assert(b[0 + r] == b2[0 + r]);
        lemma_ws_same(b, b2, c + 1, at);
        lemma_elements_appended(b, at, ins, r, (i - 1) as nat);
    }
}

/// Putting a comma and one more member behind the last member of a valid
/// list of members, so that what is put there is read as the rest of the
/// list, keeps the list valid.
pub proof fn lemma_fields_appended(b: Seq<u8>, at: int, ins: Seq<u8>, q: int, i: nat)
    requires
        0 <= q <= b.len(),
        strict_fields_end(b, q) is Some,
        nth_field(b, q, i) is Some,
        strict_value_end(b, field_value_start(b, nth_field(b, q, i)->0)) == Some(at),
        ins.len() >= 2,
        ins[0] == 0x2c,
        !is_space(ins[1]),
        strict_fields_end(replaced(b, at, at, ins), at + 1) == Some(
            strict_fields_end(b, q)->0 + ins.len(),
        ),
    ensures
        strict_fields_end(replaced(b, at, at, ins), q) == Some(
            strict_fields_end(b, q)->0 + ins.len(),
        ),
    decreases i,
{
    let b2 = replaced(b, at, at, ins);
    let tk = nth_field(b, q, i)->0;
    lemma_fields_head(b, q);
    lemma_nth_field_order(b, q, i);
    lemma_fields_head(b, tk);
    lemma_strict_value_bounds(b, field_value_start(b, tk));
    lemma_patched(b, at, at, ins);
    let v = field_value_start(b, q);
    let e1 = strict_value_end(b, v)->0;
    let c = skip_ws(b, e1);
    let r = skip_ws(b, c + 1);
    if i > 0 {
        lemma_nth_field_order(b, r, (i - 1) as nat);
    }
    assert(ins[0int + 0] == b2[at + 0]);
    assert(ins[0int + 1] == b2[at + 1]);
    lemma_strict_first(b, v);
    assert(b[0 + v] == b2[0 + v]);
    lemma_field_head_same(b, b2, q, at);
    if i == 0 {
        lemma_window_part(b, 0, b2, 0, at, v, at - v);
        lemma_strict_value_window(b, v, b2, v, at - v);
        assert(skip_ws(b2, at) == at);
        assert(skip_ws(b2, at + 1) == at + 1);
    } else {
        lemma_value_same(b, b2, v, at);
        assert(b[0 + r] == b2[0 + r]);
        lemma_ws_same(b, b2, c + 1, at);
        lemma_fields_appended(b, at, ins, r, (i - 1) as nat);
    }
}

/// Where a new member is put into the container whose walk starts at
/// `start`: behind the opening bracket of an empty container, else behind the
/// last member.
pub open spec fn insert_pos(b: Seq<u8>, start: int, object: bool) -> int {
    let ms = members(b, start, object);
    if ms.len() == 0 {
        start
    } else {
        ms.last().val_hi as int
    }
}

/// What is put into the text for a new member: the member, behind a comma
/// unless it is the first.
pub open spec fn insert_text(b: Seq<u8>, start: int, object: bool, member: Seq<u8>) -> Seq<u8> {
    if members(b, start, object).len() == 0 {
        member
    } else {
        seq![0x2cu8] + member
    }
}

/// In a valid container without members, the closing bracket follows the
/// opening one, with nothing but whitespace between them.
pub proof fn lemma_empty_closes(b: Seq<u8>, v: int)
    requires
        0 <= v < b.len() <= usize::MAX,
        strict_value_end(b, v) is Some,
        b[v] == 0x5b || b[v] == 0x7b,
        members(b, v + 1, b[v] == 0x7b).len() == 0,
    ensures
        v < skip_ws(b, v + 1) < b.len(),
        b[skip_ws(b, v + 1)] == (if b[v] == 0x7b { 0x7du8 } else { 0x5du8 }),
        strict_value_end(b, v) == Some(skip_ws(b, v + 1) + 1),
{
    let object = b[v] == 0x7b;
    lemma_strict_value_bounds(b, v);
    lemma_skip_ws_bounds(b, v + 1);
    let q0 = skip_ws(b, v + 1);
    lemma_seps_over_ws(b, v + 1);
    let close: u8 = if object { 0x7d } else { 0x5d };
    if b[q0] != close {
        if object {
            lemma_fields_head(b, q0);
        } else {
            lemma_elements_head(b, q0);
            lemma_strict_first(b, q0);
        }
        assert(skip_seps(b, q0) == q0);
        lemma_walk_finds(b, v + 1, q0, object);
    }
}

/// Behind the last member of a valid container, the closing bracket follows,
/// with nothing but whitespace before it.
pub proof fn lemma_last_closes(b: Seq<u8>, v: int)
    requires
        0 <= v < b.len() <= usize::MAX,
        strict_value_end(b, v) is Some,
        b[v] == 0x5b || b[v] == 0x7b,
        members(b, v + 1, b[v] == 0x7b).len() > 0,
    ensures
        ({
            let at = members(b, v + 1, b[v] == 0x7b).last().val_hi as int;
            &&& v < at <= skip_ws(b, at) < b.len()
            &&& b[skip_ws(b, at)] == (if b[v] == 0x7b { 0x7du8 } else { 0x5du8 })
            &&& strict_value_end(b, v) == Some(skip_ws(b, at) + 1)
        }),
{
    let object = b[v] == 0x7b;
    let ms = members(b, v + 1, object);
    let n = ms.len() as int;
    let last = ms[n - 1];
    let at = last.val_hi as int;
    let q0 = skip_ws(b, v + 1);
    lemma_member_valid(b, v, n - 1);
    lemma_members_after(b, v + 1, object, n - 1);
    let c = skip_ws(b, at);
    lemma_skip_ws_bounds(b, at);
    lemma_seps_over_ws(b, at);
    crate::scan::lemma_member_follows(b, v + 1, object, n - 1);
    assert(last.next == last.val_hi);
    assert(members(b, at, object).len() == 0);
    if object {
        lemma_nth_field_order(b, q0, (n - 1) as nat);
        lemma_fields_head(b, last.key_lo as int);
        if b[c] == 0x2c {
            let r = skip_ws(b, c + 1);
            lemma_seps_over_ws(b, c + 1);
            assert(skip_seps(b, r) == r);
            assert(skip_seps(b, c) == skip_seps(b, c + 1));
            lemma_walk_finds(b, at, r, true);
        }
    } else {
        lemma_nth_start_order(b, q0, (n - 1) as nat);
        lemma_elements_head(b, last.val_lo as int);
        if b[c] == 0x2c {
            let r = skip_ws(b, c + 1);
            lemma_seps_over_ws(b, c + 1);
            lemma_strict_first(b, r);
            assert(skip_seps(b, c) == skip_seps(b, c + 1));
            lemma_walk_finds(b, at, r, false);
        }
    }
}

/// A new member that is put behind the position `at`, before whitespace and
/// the closing bracket of its container, is read as the rest of the
/// container.
pub proof fn lemma_member_put(
    b: Seq<u8>,
    at: int,
    lead: Seq<u8>,
    path: Seq<u8>,
    value: Seq<u8>,
    object: bool,
    count: nat,
)
    requires
        0 <= at <= b.len(),
        new_member(path, value, object, count) is Some,
        skip_ws(b, at) < b.len(),
        b[skip_ws(b, at)] == (if object { 0x7du8 } else { 0x5du8 }),
    ensures
        ({
            let m = new_member(path, value, object, count)->0;
            let b2 = replaced(b, at, at, lead + m);
            let p = at + lead.len();
            &&& m.len() > 0
            &&& p < b2.len()
            &&& b2[p] == m[0]
            &&& !is_space(b2[p])
            &&& !is_close(b2[p])
            &&& object ==> strict_fields_end(b2, p) == Some(skip_ws(b, at) + 1 + lead.len() + m.len())
            &&& !object ==> strict_elements_end(b2, p) == Some(
                skip_ws(b, at) + 1 + lead.len() + m.len(),
            )
        }),
{
    let m = new_member(path, value, object, count)->0;
    let ins = lead + m;
    let b2 = replaced(b, at, at, ins);
    let p = at + lead.len();
    lemma_patched(b, at, at, ins);
    assert(stands_at(b2, p, m)) by {
        assert forall|j: int| 0 <= j < m.len() implies #[trigger] b2[p + j] == m[j] by {
            assert(ins[0 + (lead.len() + j)] == b2[at + (lead.len() + j)]);
        }
    }
    lemma_tail_ws(b, at, at, ins, at);
    lemma_member_list(b2, p, path, value, object, count);
    assert(b2[p + 0] == m[0]);
}

/// Putting a new member into a valid container that has none keeps the
/// container valid.
pub proof fn lemma_inserted_first(b: Seq<u8>, v: int, path: Seq<u8>, value: Seq<u8>)
    requires
        0 <= v < b.len() <= usize::MAX,
        strict_value_end(b, v) is Some,
        b[v] == 0x5b || b[v] == 0x7b,
        members(b, v + 1, b[v] == 0x7b).len() == 0,
        new_member(path, value, b[v] == 0x7b, 0) is Some,
    ensures
        v + 1 < strict_value_end(b, v)->0,
        strict_value_end(
            replaced(b, v + 1, v + 1, new_member(path, value, b[v] == 0x7b, 0)->0),
            v,
        ) == Some(strict_value_end(b, v)->0 + new_member(path, value, b[v] == 0x7b, 0)->0.len()),
{
    let object = b[v] == 0x7b;
    let m = new_member(path, value, object, 0)->0;
    let at = v + 1;
    let b2 = replaced(b, at, at, m);
    lemma_empty_closes(b, v);
    lemma_patched(b, at, at, m);
    assert(b[0 + v] == b2[0 + v]);
    assert(Seq::<u8>::empty() + m =~= m);
    lemma_member_put(b, at, Seq::<u8>::empty(), path, value, object, 0);
    assert(skip_ws(b2, at) == at);
}

/// Putting a new member behind the last member of a valid container keeps
/// the container valid.
pub proof fn lemma_inserted_behind(b: Seq<u8>, v: int, path: Seq<u8>, value: Seq<u8>)
    requires
        0 <= v < b.len() <= usize::MAX,
        strict_value_end(b, v) is Some,
        b[v] == 0x5b || b[v] == 0x7b,
        members(b, v + 1, b[v] == 0x7b).len() > 0,
        new_member(path, value, b[v] == 0x7b, members(b, v + 1, b[v] == 0x7b).len()) is Some,
    ensures
        ({
            let object = b[v] == 0x7b;
            let ms = members(b, v + 1, object);
            let ins = seq![0x2cu8] + new_member(path, value, object, ms.len())->0;
            let at = ms.last().val_hi as int;
            &&& v < at < strict_value_end(b, v)->0
            &&& strict_value_end(replaced(b, at, at, ins), v) == Some(
                strict_value_end(b, v)->0 + ins.len(),
            )
        }),
{
    let object = b[v] == 0x7b;
    let ms = members(b, v + 1, object);
    let m = new_member(path, value, object, ms.len())->0;
    let n = ms.len() as int;
    let at = ms[n - 1].val_hi as int;
    let ins = seq![0x2cu8] + m;
    let b2 = replaced(b, at, at, ins);
    let q0 = skip_ws(b, v + 1);
    lemma_last_closes(b, v);
    lemma_member_valid(b, v, n - 1);
    lemma_patched(b, at, at, ins);
    assert(b[0 + v] == b2[0 + v]);
    lemma_member_put(b, at, seq![0x2cu8], path, value, object, ms.len());
    assert(ins[0] == 0x2c);
    assert(ins[1] == m[0]);
    if object {
        lemma_nth_field_order(b, q0, (n - 1) as nat);
        lemma_fields_appended(b, at, ins, q0, (n - 1) as nat);
    } else {
        lemma_nth_start_order(b, q0, (n - 1) as nat);
        lemma_elements_appended(b, at, ins, q0, (n - 1) as nat);
    }
    assert(b[0 + q0] == b2[0 + q0]);
    lemma_ws_plain(b, v + 1);
    lemma_ws_same(b, b2, v + 1, at);
}

/// Putting a new member into a valid container keeps the container valid.
pub proof fn lemma_container_inserted(b: Seq<u8>, v: int, path: Seq<u8>, value: Seq<u8>)
    requires
        0 <= v < b.len() <= usize::MAX,
        strict_value_end(b, v) is Some,
        b[v] == 0x5b || b[v] == 0x7b,
        new_member(path, value, b[v] == 0x7b, members(b, v + 1, b[v] == 0x7b).len()) is Some,
    ensures
        ({
            let object = b[v] == 0x7b;
            let m = new_member(path, value, object, members(b, v + 1, object).len())->0;
            let at = insert_pos(b, v + 1, object);
            let ins = insert_text(b, v + 1, object, m);
            &&& v < at < strict_value_end(b, v)->0
            &&& strict_value_end(replaced(b, at, at, ins), v) == Some(
                strict_value_end(b, v)->0 + ins.len(),
            )
        }),
{
    if members(b, v + 1, b[v] == 0x7b).len() == 0 {
        lemma_inserted_first(b, v, path, value);
    } else {
        lemma_inserted_behind(b, v, path, value);
    }
}

/// What it means that a path leads into a container that lacks a member:
/// either the value that the path starts from is that container, or the first
/// segment names one of its members and the rest of the path leads on from
/// there.
pub proof fn lemma_walk_step_missing(b: Seq<u8>, v0: int, path: Seq<u8>)
    requires
        path.len() <= usize::MAX,
        walk(b, v0, path) is Missing,
    ensures
        ({
            let v = skip_ws(b, v0);
            let object = kind_at(b, v) == Kind::Object;
            let s = first_segment(path);
            let rest = rest_of(path);
            let ms = members(b, v + 1, object);
            let found = crate::mutate::member_index(
                b,
                v + 1,
                object,
                s.kind,
                path.subrange(0, s.hi as int),
            );
            &&& path.len() > 0
            &&& kind_at(b, v) == Kind::Object || kind_at(b, v) == Kind::Array
            &&& rest.len() < path.len()
            &&& rest == path.subrange(s.next as int, path.len() as int)
            &&& 1 <= s.next <= path.len()
            &&& found is None ==> walk(b, v0, path) == (Walk::Missing {
                start: v + 1,
                object,
                off: 0,
            })
            &&& found is Some ==> 0 <= found->0 < ms.len() && rest.len() > 0 && walk(
                b,
                ms[found->0].val_lo as int,
                rest,
            ) is Missing && walk(b, v0, path)->Missing_start == walk(
                b,
                ms[found->0].val_lo as int,
                rest,
            )->Missing_start && walk(b, v0, path)->Missing_object == walk(
                b,
                ms[found->0].val_lo as int,
                rest,
            )->Missing_object && walk(b, v0, path)->Missing_off == walk(
                b,
                ms[found->0].val_lo as int,
                rest,
            )->Missing_off + s.next
        }),
{
    reveal(walk);
    crate::path::lemma_first_segment_bounds(path);
}

/// The segment that is missing stands inside the path.
pub proof fn lemma_missing_off(b: Seq<u8>, v0: int, path: Seq<u8>)
    requires
        path.len() <= usize::MAX,
        walk(b, v0, path) is Missing,
    ensures
        0 <= walk(b, v0, path)->Missing_off <= path.len(),
    decreases path.len(),
{
    lemma_walk_step_missing(b, v0, path);
    let v = skip_ws(b, v0);
    let object = kind_at(b, v) == Kind::Object;
    let s = first_segment(path);
    let rest = rest_of(path);
    let found = crate::mutate::member_index(b, v + 1, object, s.kind, path.subrange(0, s.hi as int));
    if found is Some {
        lemma_missing_off(b, members(b, v + 1, object)[found->0].val_lo as int, rest);
    }
}

/// The member that is put into the container that a path leads into.
pub open spec fn member_for(b: Seq<u8>, v0: int, path: Seq<u8>, value: Seq<u8>) -> Option<Seq<u8>> {
    let w = walk(b, v0, path);
    new_member(
        path.subrange(w->Missing_off, path.len() as int),
        value,
        w->Missing_object,
        members(b, w->Missing_start, w->Missing_object).len(),
    )
}

/// A change inside a member of a valid container that keeps the member valid
/// keeps the container valid, and lies inside the container.
pub proof fn lemma_inside_member(b: Seq<u8>, v: int, i: int, at: int, ins: Seq<u8>)
    requires
        0 <= v < b.len() <= usize::MAX,
        strict_value_end(b, v) is Some,
        b[v] == 0x5b || b[v] == 0x7b,
        0 <= i < members(b, v + 1, b[v] == 0x7b).len(),
        members(b, v + 1, b[v] == 0x7b)[i].val_lo < at < members(b, v + 1, b[v] == 0x7b)[i].val_hi,
        strict_value_end(replaced(b, at, at, ins), members(b, v + 1, b[v] == 0x7b)[i].val_lo as int)
            == Some(members(b, v + 1, b[v] == 0x7b)[i].val_hi + ins.len()),
    ensures
        v < at < strict_value_end(b, v)->0,
        strict_value_end(replaced(b, at, at, ins), v) == Some(
            strict_value_end(b, v)->0 + ins.len(),
        ),
{
    lemma_member_valid(b, v, i);
    lemma_container_patched(b, at, at, ins, v, i);
}

/// Putting a new member into the container that a path leads into keeps the
/// value that the path started from valid.
pub proof fn lemma_walk_inserted(b: Seq<u8>, v0: int, path: Seq<u8>, value: Seq<u8>)
    requires
        0 <= v0 <= b.len() <= usize::MAX,
        path.len() <= usize::MAX,
        strict_value_end(b, skip_ws(b, v0)) is Some,
        walk(b, v0, path) is Missing,
        member_for(b, v0, path, value) is Some,
    ensures
        ({
            let w = walk(b, v0, path);
            let at = insert_pos(b, w->Missing_start, w->Missing_object);
            let ins = insert_text(
                b,
                w->Missing_start,
                w->Missing_object,
                member_for(b, v0, path, value)->0,
            );
            &&& skip_ws(b, v0) < at < strict_value_end(b, skip_ws(b, v0))->0
            &&& strict_value_end(replaced(b, at, at, ins), skip_ws(b, v0)) == Some(
                strict_value_end(b, skip_ws(b, v0))->0 + ins.len(),
            )
        }),
    decreases path.len(),
{
    let v = skip_ws(b, v0);
    lemma_skip_ws_bounds(b, v0);
    lemma_strict_value_bounds(b, v);
    lemma_walk_step_missing(b, v0, path);
    lemma_missing_off(b, v0, path);
    let s = first_segment(path);
    let rest = rest_of(path);
    let object = kind_at(b, v) == Kind::Object;
    assert(b[v] == 0x5b || b[v] == 0x7b);
    assert(object == (b[v] == 0x7b));
    let found = crate::mutate::member_index(b, v + 1, object, s.kind, path.subrange(0, s.hi as int));
    if found is None {
        assert(path.subrange(0, path.len() as int) =~= path);
        lemma_container_inserted(b, v, path, value);
    } else {
        let i = found->0;
        let lo = members(b, v + 1, object)[i].val_lo as int;
        assert(strict_value_end(b, lo) is Some && skip_ws(b, lo) == lo) by {
            lemma_member_valid(b, v, i);
            lemma_strict_first(b, lo);
        }
        lemma_missing_off(b, lo, rest);
        let inner = walk(b, lo, rest);
        assert(path.subrange(walk(b, v0, path)->Missing_off, path.len() as int) =~= rest.subrange(
            inner->Missing_off,
            rest.len() as int,
        ));
        assert(member_for(b, lo, rest, value) == member_for(b, v0, path, value));
        lemma_walk_inserted(b, lo, rest, value);
        let at = insert_pos(b, inner->Missing_start, inner->Missing_object);
        let ins = insert_text(
            b,
            inner->Missing_start,
            inner->Missing_object,
            member_for(b, v0, path, value)->0,
        );
        assert(strict_value_end(b, lo) == Some(members(b, v + 1, object)[i].val_hi as int)) by {
            lemma_member_valid(b, v, i);
        }
        lemma_inside_member(b, v, i, at, ins);
    }
}

/// A change inside the value of a valid JSON text that keeps the value valid
/// keeps the text valid.
pub proof fn lemma_document_patched(b: Seq<u8>, lo: int, hi: int, w: Seq<u8>)
    requires
        is_valid(b),
        skip_ws(b, 0) < lo <= hi <= strict_value_end(b, skip_ws(b, 0))->0,
        strict_value_end(replaced(b, lo, hi, w), skip_ws(b, 0)) == Some(
            strict_value_end(b, skip_ws(b, 0))->0 + w.len() - (hi - lo),
        ),
    ensures
        is_valid(replaced(b, lo, hi, w)),
{
    let v = skip_ws(b, 0);
    lemma_skip_ws_bounds(b, 0);
    lemma_strict_value_bounds(b, v);
    let b2 = replaced(b, lo, hi, w);
    let delta = w.len() - (hi - lo);
    let e = strict_value_end(b, v)->0;
    lemma_patched(b, lo, hi, w);
    lemma_strict_first(b, v);
    assert(b[0 + v] == b2[0 + v]);
    lemma_ws_same(b, b2, 0, lo);
    lemma_ws_plain(b, e);
    assert forall|j: int| e + delta <= j < b2.len() implies is_space(#[trigger] b2[j]) by {
        assert(b[hi + (j - delta - hi)] == b2[lo + w.len() + (j - delta - hi)]);
        assert(is_space(b[j - delta]));
    }
    lemma_ws_to(b2, e + delta, b2.len() as int);
}

/// Creation validity: putting the member that a path asks for into the
/// container of a valid JSON text that lacks it gives a valid JSON text.
pub proof fn lemma_set_valid(b: Seq<u8>, path: Seq<u8>, value: Seq<u8>)
    requires
        b.len() <= usize::MAX,
        path.len() <= usize::MAX,
        is_valid(b),
        walk(b, 0, path) is Missing,
        member_for(b, 0, path, value) is Some,
    ensures
        is_valid(
            inserted(
                b,
                walk(b, 0, path)->Missing_start,
                walk(b, 0, path)->Missing_object,
                member_for(b, 0, path, value)->0,
            ),
        ),
{
    lemma_walk_inserted(b, 0, path, value);
    let w = walk(b, 0, path);
    let at = insert_pos(b, w->Missing_start, w->Missing_object);
    let ins = insert_text(b, w->Missing_start, w->Missing_object, member_for(b, 0, path, value)->0);
    lemma_document_patched(b, at, at, ins);
}

} // verus!
