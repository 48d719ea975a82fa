//! Writing a list of members out and reading it back gives the same members.

use vstd::prelude::*;
use crate::eval::separated;
use crate::found::piece_texts;
use crate::scan::{
    has_word,
    is_close,
    is_space,
    kind_at,
    lemma_member_follows,
    lemma_next_element_bounds,
    lemma_next_element_facts,
    lemma_string_end_bounds,
    members,
    next_element,
    skip_seps,
    skip_ws,
    string_end,
    value_end,
    word_false,
    word_null,
    word_true,
    Element,
    Kind,
};
use crate::windows::{
    is_number_byte,
    lemma_string_window,
    lemma_value_window,
    lemma_word_first,
    same_window,
};

verus! {

/// The text of a member in two parts: its key, empty in an array, and its
/// value.
pub struct Piece {
    pub key: Seq<u8>,
    pub val: Seq<u8>,
}

/// The member as it is written out.
pub open spec fn piece_bytes(p: Piece) -> Seq<u8> {
    if p.key.len() > 0 {
        p.key + seq![0x3au8] + p.val
    } else {
        p.val
    }
}

/// The members as they are written out.
pub open spec fn pieces_bytes(ps: Seq<Piece>) -> Seq<Seq<u8>> {
    Seq::new(ps.len(), |k: int| piece_bytes(ps[k]))
}

/// The text is one value that ends by itself: followed by a comma, it is
/// scanned to its end and no further.
pub open spec fn sealed_value(x: Seq<u8>) -> bool {
    x.len() > 0 && value_end(x.push(0x2c), 0) == x.len()
}

/// The text is one string that is closed.
pub open spec fn sealed_key(x: Seq<u8>) -> bool {
    x.len() >= 2 && x[0] == 0x22 && string_end(x.push(0x2c), 1) == x.len()
}

/// The member can be written out and read back.
pub open spec fn sealed(p: Piece, in_object: bool) -> bool {
    sealed_value(p.val) && if in_object {
        sealed_key(p.key)
    } else {
        p.key.len() == 0
    }
}

/// The member `e` of the buffer `b`, as text.
pub open spec fn piece_of(b: Seq<u8>, e: Element) -> Piece {
    Piece {
        key: b.subrange(e.key_lo as int, e.key_hi as int),
        val: b.subrange(e.val_lo as int, e.val_hi as int),
    }
}

/// The members `es` of the buffer `b`, as texts.
pub open spec fn pieces_of(b: Seq<u8>, es: Seq<Element>) -> Seq<Piece> {
    Seq::new(es.len(), |k: int| piece_of(b, es[k]))
}

/// The first byte of a sealed value is neither whitespace nor a comma nor a
/// closing bracket.
pub proof fn lemma_sealed_first(x: Seq<u8>)
    requires
        sealed_value(x),
    ensures
        !is_space(x[0]),
        x[0] != 0x2c,
        !is_close(x[0]),
{
    let y = x.push(0x2c);
    assert(y[0] == x[0]);
    assert(kind_at(y, 0) != Kind::NotPresent);
    if has_word(y, 0, word_true()) {
        lemma_word_first(y, 0, word_true());
    }
    if has_word(y, 0, word_false()) {
        lemma_word_first(y, 0, word_false());
    }
    if has_word(y, 0, word_null()) {
        lemma_word_first(y, 0, word_null());
    }
}

/// Member `k` of a walk is what a step from the end of the member before it
/// hands out.
pub proof fn lemma_member_step(b: Seq<u8>, p: int, in_object: bool, k: int)
    requires
        0 <= p <= b.len(),
        b.len() <= usize::MAX,
        0 <= k < members(b, p, in_object).len(),
    ensures
        next_element(
            b,
            if k == 0 {
                p
            } else {
                members(b, p, in_object)[k - 1].next as int
            },
            in_object,
        ) == Some(members(b, p, in_object)[k]),
    decreases k,
{
    lemma_next_element_bounds(b, p, in_object);
    match next_element(b, p, in_object) {
        Some(e) => {
            let ms = members(b, p, in_object);
            let rest = members(b, e.next as int, in_object);
            assert(ms[0] == e);
            if k > 0 {
                assert(ms[k] == rest[k - 1]);
                lemma_member_step(b, e.next as int, in_object, k - 1);
                if k > 1 {
                    assert(ms[k - 1] == rest[k - 2]);
                }
            }
        },
        None => {},
    }
}

/// A member of a walk that ends before the buffer ends can be written out and
/// read back.
pub proof fn lemma_member_sealed(b: Seq<u8>, p: int, in_object: bool, k: int)
    requires
        0 <= p <= b.len(),
        b.len() <= usize::MAX,
        0 <= k < members(b, p, in_object).len(),
        members(b, p, in_object)[k].val_hi < b.len(),
    ensures
        sealed(piece_of(b, members(b, p, in_object)[k]), in_object),
{
    let e = members(b, p, in_object)[k];
    lemma_member_step(b, p, in_object, k);
    lemma_member_follows(b, p, in_object, k);
    let cur = if k == 0 { p } else { members(b, p, in_object)[k - 1].next as int };
    if k > 0 {
        lemma_member_follows(b, p, in_object, k - 1);
    }
    lemma_next_element_facts(b, cur, in_object);
    let val = b.subrange(e.val_lo as int, e.val_hi as int);
    let n = val.len() as int;
    let y = val.push(0x2c);
    assert(same_window(b, e.val_lo as int, y, 0, n)) by {
        assert forall|j: int| 0 <= j < n implies b[e.val_lo + j] == #[trigger] y[0 + j] by {
            assert(y[j] == val[j]);
        }
    }
    assert(y[n] == 0x2c);
    lemma_value_window(b, e.val_lo as int, y, 0, n);
    if in_object {
        let key = b.subrange(e.key_lo as int, e.key_hi as int);
        let q = e.key_lo as int;
        lemma_string_end_bounds(b, q + 1);
        let m = key.len() as int - 1;
        let yk = key.push(0x2c);
        assert(key[0] == b[q]);
        assert(same_window(b, q + 1, yk, 1, m)) by {
            assert forall|j: int| 0 <= j < m implies b[q + 1 + j] == #[trigger] yk[1 + j] by {
                assert(yk[1 + j] == key[1 + j]);
            }
        }
        lemma_string_window(b, q + 1, yk, 1, m);
    }
}

/// The texts of a list of members are the written forms of their pieces.
pub proof fn lemma_piece_texts(b: Seq<u8>, es: Seq<Element>)
    requires
        forall|k: int| 0 <= k < es.len() ==> crate::found::spans_in(#[trigger] es[k], b.len() as int),
    ensures
        piece_texts(b, es) == pieces_bytes(pieces_of(b, es)),
{
    assert forall|k: int| 0 <= k < es.len() implies piece_texts(b, es)[k] == pieces_bytes(
        pieces_of(b, es),
    )[k] by {
        let e = es[k];
        assert(crate::found::spans_in(e, b.len() as int));
        assert(piece_of(b, e).key.len() == e.key_hi - e.key_lo);
    }
    assert(piece_texts(b, es) =~= pieces_bytes(pieces_of(b, es)));
}

/// The bytes of `x` stand in `t` at `c`.
pub open spec fn stands_at(t: Seq<u8>, c: int, x: Seq<u8>) -> bool {
    0 <= c && c + x.len() <= t.len() && forall|j: int|
        0 <= j < x.len() ==> #[trigger] t[c + j] == x[j]
}

/// Where the bytes from `c` on are `x` and then `y`, `x` stands at `c` and the
/// bytes behind it are `y`.
pub proof fn lemma_split_at(t: Seq<u8>, c: int, x: Seq<u8>, y: Seq<u8>)
    requires
        0 <= c <= t.len(),
        t.subrange(c, t.len() as int) == x + y,
    ensures
        stands_at(t, c, x),
        t.subrange(c + x.len(), t.len() as int) == y,
{
    let tail = t.subrange(c, t.len() as int);
    assert(tail.len() == x.len() + y.len());
    assert forall|j: int| 0 <= j < x.len() implies #[trigger] t[c + j] == x[j] by {
        assert(tail[j] == x[j]);
    }
    assert forall|j: int| 0 <= j < y.len() implies t.subrange(c + x.len(), t.len() as int)[j]
        == y[j] by {
        assert(tail[x.len() + j] == y[j]);
    }
    assert(t.subrange(c + x.len(), t.len() as int) =~= y);
}

/// Reading one value back: where a sealed value stands at `v`, before a byte
/// that cannot go on a number, the scanner finds it there.
pub proof fn lemma_read_value(t: Seq<u8>, v: int, x: Seq<u8>)
    requires
        sealed_value(x),
        stands_at(t, v, x),
        v + x.len() < t.len(),
        !is_number_byte(t[v + x.len()]),
    ensures
        value_end(t, v) == v + x.len(),
        t.subrange(v, v + x.len()) == x,
        !is_space(t[v]),
        t[v] != 0x2c,
        !is_close(t[v]),
{
    let n = x.len() as int;
    let y = x.push(0x2c);
    lemma_sealed_first(x);
    assert(t[v + 0] == x[0]);
    assert(same_window(y, 0, t, v, n)) by {
        assert forall|j: int| 0 <= j < n implies y[0 + j] == #[trigger] t[v + j] by {
            assert(y[j] == x[j]);
        }
    }
    lemma_value_window(y, 0, t, v, n);
    assert forall|j: int| 0 <= j < n implies t.subrange(v, v + n)[j] == x[j] by {
        assert(t[v + j] == x[j]);
    }
    assert(t.subrange(v, v + n) =~= x);
}

/// Reading one key back: where a sealed key stands at `q`, the scanner finds
/// it there.
pub proof fn lemma_read_key(t: Seq<u8>, q: int, key: Seq<u8>)
    requires
        sealed_key(key),
        stands_at(t, q, key),
    ensures
        t[q] == 0x22,
        string_end(t, q + 1) == q + key.len(),
        t.subrange(q, q + key.len()) == key,
{
    let m = key.len() as int - 1;
    let yk = key.push(0x2c);
    assert(t[q + 0] == key[0]);
    assert(same_window(yk, 1, t, q + 1, m)) by {
        assert forall|j: int| 0 <= j < m implies yk[1 + j] == #[trigger] t[q + 1 + j] by {
            assert(yk[1 + j] == key[1 + j]);
            assert(t[q + (1 + j)] == key[1 + j]);
        }
    }
    lemma_string_window(yk, 1, t, q + 1, m);
    assert forall|j: int| 0 <= j < key.len() implies t.subrange(q, q + key.len())[j] == key[j] by {
        assert(t[q + j] == key[j]);
    }
    assert(t.subrange(q, q + key.len()) =~= key);
}

/// Reading one member back: where a sealed member stands at `q`, before a
/// comma or a closing bracket, a step of the walk from `q` hands it out.
pub proof fn lemma_read_member(t: Seq<u8>, q: int, p: Piece, in_object: bool)
    requires
        t.len() <= usize::MAX,
        sealed(p, in_object),
        stands_at(t, q, piece_bytes(p)),
        q + piece_bytes(p).len() < t.len(),
        t[q + piece_bytes(p).len()] == 0x2c || is_close(t[q + piece_bytes(p).len()]),
    ensures
        next_element(t, q, in_object) matches Some(e) && piece_of(t, e) == p && e.next == q
            + piece_bytes(p).len(),
{
    let x = piece_bytes(p);
    let n = x.len() as int;
    if in_object {
        let kn = p.key.len() as int;
        assert(stands_at(t, q, p.key)) by {
            assert forall|j: int| 0 <= j < kn implies #[trigger] t[q + j] == p.key[j] by {
                assert(x[j] == p.key[j]);
            }
        }
        lemma_read_key(t, q, p.key);
        let v = q + kn + 1;
        assert(stands_at(t, v, p.val)) by {
            assert forall|j: int| 0 <= j < p.val.len() implies #[trigger] t[v + j] == p.val[j] by {
                assert(x[kn + 1 + j] == p.val[j]);
                assert(t[q + (kn + 1 + j)] == x[kn + 1 + j]);
            }
        }
        lemma_read_value(t, v, p.val);
        assert(t[q + kn] == x[kn]);
        assert(t[q + kn] == 0x3a);
        assert(skip_ws(t, q + kn) == q + kn);
        assert(skip_ws(t, v) == v);
        assert(skip_seps(t, q) == q);
    } else {
        assert(x == p.val);
        lemma_read_value(t, q, p.val);
        assert(skip_seps(t, q) == q);
        assert(p.key =~= t.subrange(q, q));
    }
}

/// Reading back what was written: where the bytes from the cursor `c` on are
/// a list of sealed members, written one behind the other, and a closing
/// bracket, the walk from `c` steps through exactly those members.
pub proof fn lemma_walk_written(
    t: Seq<u8>,
    c: int,
    first: bool,
    ps: Seq<Piece>,
    in_object: bool,
    close: u8,
)
    requires
        0 <= c <= t.len() <= usize::MAX,
        is_close(close),
        t.subrange(c, t.len() as int) == separated(first, pieces_bytes(ps)) + seq![close],
        forall|k: int| 0 <= k < ps.len() ==> sealed(#[trigger] ps[k], in_object),
    ensures
        pieces_of(t, members(t, c, in_object)) == ps,
        members(t, c, in_object).len() == ps.len(),
        forall|k: int|
            0 <= k < members(t, c, in_object).len() ==> (#[trigger] members(
                t,
                c,
                in_object,
            )[k]).val_hi < t.len(),
    decreases ps.len(),
{
    let texts = pieces_bytes(ps);
    if ps.len() == 0 {
        lemma_split_at(t, c, seq![close], Seq::<u8>::empty());
        assert(t[c + 0] == close);
        assert(skip_seps(t, c) == c);
        assert(next_element(t, c, in_object) is None);
        assert(pieces_of(t, members(t, c, in_object)) =~= ps);
    } else {
        let head = ps[0];
        let x = texts[0];
        let sep: Seq<u8> = if first { Seq::empty() } else { seq![0x2cu8] };
        let rest = ps.subrange(1, ps.len() as int);
        let rest_texts = texts.subrange(1, texts.len() as int);
        assert(rest_texts =~= pieces_bytes(rest));
        let after = separated(false, rest_texts) + seq![close];
        assert(separated(first, texts) + seq![close] =~= sep + (x + after));
        lemma_split_at(t, c, sep, x + after);
        let q = c + sep.len();
        lemma_split_at(t, q, x, after);
        let n = x.len() as int;
        assert(sealed(head, in_object));
        assert(t[q + n] == 0x2c || t[q + n] == close) by {
            let behind = t.subrange(q + n, t.len() as int);
            assert(behind[0] == t[q + n]);
            if rest_texts.len() > 0 {
                assert(separated(false, rest_texts)[0] == 0x2c);
            } else {
                assert(separated(false, rest_texts) =~= Seq::<u8>::empty());
            }
        }
        lemma_read_member(t, q, head, in_object);
        if !first {
            assert(t[c + 0] == sep[0]);
            assert(skip_seps(t, c) == skip_seps(t, c + 1));
        }
        lemma_sealed_first(head.val);
        assert(t[q + 0] == x[0]);
        assert(skip_seps(t, q) == q);
        assert(next_element(t, c, in_object) == next_element(t, q, in_object));
        let e = next_element(t, c, in_object)->0;
        lemma_walk_written(t, q + n, false, rest, in_object, close);
        let ms = members(t, c, in_object);
        let ms_rest = members(t, q + n, in_object);
        assert(ms =~= seq![e] + ms_rest);
        assert forall|k: int| 0 <= k < ps.len() implies pieces_of(t, ms)[k] == ps[k] by {
            if k > 0 {
                assert(ms[k] == ms_rest[k - 1]);
                assert(pieces_of(t, ms_rest)[k - 1] == rest[k - 1]);
            }
        }
        assert(pieces_of(t, ms) =~= ps);
        assert forall|k: int| 0 <= k < ms.len() implies (#[trigger] ms[k]).val_hi < t.len() by {
            if k > 0 {
                assert(ms[k] == ms_rest[k - 1]);
            }
        }
    }
}

} // verus!
