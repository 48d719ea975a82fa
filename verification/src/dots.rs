//! The dot law: where a path only selects members up to one of its dots, it
//! finds what the part behind the dot finds in what the part before the dot
//! finds. With it, counting holds at the end of any such path.

use vstd::prelude::*;
use crate::eval::{
    eval, follow, get_spec, in_array, is_lines, lemma_eval_unfold, lemma_follow_unfold,
    lemma_in_array_unfold, query_hi, query_test,
};
use crate::found::{absent, array_text, element_value, field_of, piece_texts, Outcome};
use crate::laws::{
    lemma_counting, lemma_path_all_this, lemma_path_count, lemma_value_starts, members_closed,
    path_all_this, path_count,
};
use crate::path::{
    component, first_segment, lemma_first_segment_bounds, rest_of, SegKind,
};
use crate::pipes::{lemma_component_prefix, lemma_follow_done, lemma_query_sub_bound};
use crate::scan::{kind_at, members, skip_ws, Kind};
use crate::text::{decimal, digits_value};
use crate::value::items_of;

verus! {

/// A segment that selects one member and does nothing else.
pub open spec fn selects(kind: SegKind) -> bool {
    kind == SegKind::Key || kind == SegKind::Index || kind == SegKind::Wildcard || kind
        == SegKind::Query
}

/// The byte at `k` is a dot between two segments of `p`, and up to it `p` is
/// made of segments that select one member each, with dots between them.
pub open spec fn dot_cut(p: Seq<u8>, k: int) -> bool
    decreases p.len(),
{
    p.len() > 0 && selects(first_segment(p).kind) && first_segment(p).hi > 0 && !first_segment(
        p,
    ).piped && if first_segment(p).hi == k {
        k < p.len() && p[k] == 0x2e
    } else {
        first_segment(p).next <= k && rest_of(p).len() < p.len() && dot_cut(
            rest_of(p),
            k - first_segment(p).next,
        )
    }
}

/// How the first segment of a path and the first segment of the path before
/// one of its dots go together.
pub proof fn lemma_at_dot(p: Seq<u8>, k: int)
    requires
        p.len() <= usize::MAX,
        dot_cut(p, k),
    ensures
        0 < k < p.len(),
        p[k] == 0x2e,
        first_segment(p.subrange(0, k)).kind == first_segment(p).kind,
        first_segment(p.subrange(0, k)).mid == first_segment(p).mid,
        first_segment(p.subrange(0, k)).hi == first_segment(p).hi,
        !first_segment(p.subrange(0, k)).piped,
        first_segment(p).hi <= k,
        p.subrange(0, k).subrange(0, first_segment(p).hi as int) == p.subrange(
            0,
            first_segment(p).hi as int,
        ),
        query_test(p.subrange(0, k)) == query_test(p),
        first_segment(p).hi == k ==> rest_of(p.subrange(0, k)).len() == 0 && rest_of(p)
            == p.subrange(k + 1, p.len() as int),
        first_segment(p).hi != k ==> first_segment(p).next <= k && dot_cut(
            rest_of(p),
            k - first_segment(p).next,
        ) && rest_of(p.subrange(0, k)) == rest_of(p).subrange(0, k - first_segment(p).next)
            && rest_of(p).subrange(k - first_segment(p).next + 1, rest_of(p).len() as int)
            == p.subrange(k + 1, p.len() as int) && rest_of(p).len() < p.len(),
    decreases p.len(),
{
    let s = first_segment(p);
    lemma_first_segment_bounds(p);
    let l = p.subrange(0, k);
    if s.hi == k {
        lemma_component_prefix(p, k);
        assert(l.subrange(0, k) =~= p.subrange(0, k));
        assert(p.subrange(s.next as int, p.len() as int) =~= p.subrange(k + 1, p.len() as int));
        assert(first_segment(l).next == k);
        assert(l.subrange(k, k).len() == 0);
    } else {
        let rest = rest_of(p);
        lemma_at_dot(rest, k - s.next);
        lemma_component_prefix(p, k);
        assert(l.subrange(0, s.hi as int) =~= p.subrange(0, s.hi as int));
        if s.hi < p.len() {
            assert(l[s.hi as int] == p[s.hi as int]);
        }
        assert(first_segment(l) == s);
        assert(l.subrange(s.next as int, k) =~= rest.subrange(0, k - s.next));
        assert(rest.subrange(k - s.next + 1, rest.len() as int) =~= p.subrange(
            k + 1,
            p.len() as int,
        ));
    }
    if 3 <= s.mid {
        assert(l[s.mid - 1] == p[s.mid - 1]);
    }
    assert(query_hi(l) == query_hi(p));
    if 2 <= query_hi(p) <= p.len() {
        assert(l.subrange(2, query_hi(p)) =~= p.subrange(2, query_hi(p)));
    }
}

/// Going on behind a dot with a path that is cut at a dot is going on with the
/// part before the cut and then with the part behind it.
pub proof fn lemma_dot_follow(b: Seq<u8>, x: Outcome, rest: Seq<u8>, k: int)
    requires
        rest.len() <= usize::MAX,
        dot_cut(rest, k),
        x.at is Some || x.kind == Kind::NotPresent,
    ensures
        follow(b, x, rest, false) == follow(
            b,
            follow(b, x, rest.subrange(0, k), false),
            rest.subrange(k + 1, rest.len() as int),
            false,
        ),
    decreases rest.len(), 2nat,
{
    lemma_at_dot(rest, k);
    let before = rest.subrange(0, k);
    let after = rest.subrange(k + 1, rest.len() as int);
    lemma_follow_unfold(b, x, rest, false);
    lemma_follow_unfold(b, x, before, false);
    let inner = follow(b, x, before, false);
    lemma_follow_unfold(b, inner, after, false);
    if x.kind != Kind::NotPresent {
        let i = x.at->0;
        lemma_dot_eval(b, i, i + x.text.len(), rest, k);
    }
}

/// The dot law for the evaluator.
pub proof fn lemma_dot_eval(b: Seq<u8>, lo: int, hi: int, p: Seq<u8>, k: int)
    requires
        p.len() <= usize::MAX,
        dot_cut(p, k),
    ensures
        eval(b, lo, hi, p) == follow(
            b,
            eval(b, lo, hi, p.subrange(0, k)),
            p.subrange(k + 1, p.len() as int),
            false,
        ),
    decreases p.len(), 1nat,
{
    lemma_at_dot(p, k);
    lemma_first_segment_bounds(p);
    let l = p.subrange(0, k);
    let r = p.subrange(k + 1, p.len() as int);
    let s = first_segment(p);
    lemma_first_segment_bounds(l);
    lemma_eval_unfold(b, lo, hi, p);
    lemma_eval_unfold(b, lo, hi, l);
    let v = skip_ws(b, lo);
    let comp = p.subrange(0, s.hi as int);
    if kind_at(b, v) == Kind::Array {
        lemma_dot_in_array(b, v + 1, p, k);
    } else {
        let x: Outcome = match kind_at(b, v) {
            Kind::Object => match field_of(b, v + 1, s.kind, comp) {
                Some(e) => element_value(b, e),
                None => absent(),
            },
            _ => absent(),
        };
        lemma_follow_unfold(b, absent(), r, false);
        lemma_follow_unfold(b, absent(), rest_of(p), false);
        lemma_follow_unfold(b, absent(), rest_of(l), false);
        if s.hi == k {
            assert(rest_of(l) =~= Seq::<u8>::empty());
            lemma_follow_done(b, x, r, false, false);
        } else {
            lemma_dot_follow(b, x, rest_of(p), k - s.next);
        }
    }
}

/// The dot law for a path that is read in an array.
pub proof fn lemma_dot_in_array(b: Seq<u8>, start: int, p: Seq<u8>, k: int)
    requires
        p.len() <= usize::MAX,
        dot_cut(p, k),
    ensures
        in_array(b, start, p) == follow(
            b,
            in_array(b, start, p.subrange(0, k)),
            p.subrange(k + 1, p.len() as int),
            false,
        ),
    decreases p.len(), 0nat,
{
    lemma_at_dot(p, k);
    lemma_first_segment_bounds(p);
    lemma_query_sub_bound(p);
    let l = p.subrange(0, k);
    let r = p.subrange(k + 1, p.len() as int);
    let s = first_segment(p);
    lemma_first_segment_bounds(l);
    lemma_query_sub_bound(l);
    lemma_in_array_unfold(b, start, p);
    lemma_in_array_unfold(b, start, l);
    let ms = members(b, start, false);
    let comp = p.subrange(0, s.hi as int);
    let x: Outcome = match s.kind {
        SegKind::Index => {
            let n = digits_value(comp);
            if n < ms.len() {
                element_value(b, ms[n as int])
            } else {
                absent()
            }
        },
        SegKind::Query => match crate::eval::first_hit(b, start, query_test(p), 0) {
            Some(j) => if 0 <= j < ms.len() {
                element_value(b, ms[j])
            } else {
                absent()
            },
            None => absent(),
        },
        _ => absent(),
    };
    lemma_follow_unfold(b, absent(), r, false);
    lemma_follow_unfold(b, absent(), rest_of(p), false);
    lemma_follow_unfold(b, absent(), rest_of(l), false);
    if s.hi == k {
        assert(rest_of(l) =~= Seq::<u8>::empty());
        lemma_follow_done(b, x, r, false, false);
    } else {
        lemma_dot_follow(b, x, rest_of(p), k - s.next);
    }
}

/// The path `p`, a dot, and the path `q`.
pub open spec fn dotted(p: Seq<u8>, q: Seq<u8>) -> Seq<u8> {
    p + seq![0x2eu8] + q
}

/// Counting at the end of a path: where `p` only selects members and finds
/// an array of `json` that is not cut off by the end of the text, `p.#` finds
/// the number of elements that `p.#.@this` lists.
pub proof fn lemma_counting_at(json: Seq<u8>, p: Seq<u8>)
    requires
        json.len() <= usize::MAX,
        dotted(p, path_all_this()).len() <= usize::MAX,
        dot_cut(dotted(p, path_count()), p.len() as int),
        dot_cut(dotted(p, path_all_this()), p.len() as int),
        !is_lines(p),
        get_spec(json, p).kind == Kind::Array,
        get_spec(json, p).at matches Some(i) && kind_at(json, i) == Kind::Array && members_closed(
            json,
            i + 1,
            false,
        ) && array_text(piece_texts(json, members(json, i + 1, false))).len() <= usize::MAX,
    ensures
        get_spec(json, dotted(p, path_count())).text == decimal(
            items_of(get_spec(json, dotted(p, path_all_this()))).len(),
        ),
{
    let n = json.len() as int;
    let k = p.len() as int;
    let counted = dotted(p, path_count());
    let listed = dotted(p, path_all_this());
    assert(counted.subrange(0, k) =~= p);
    assert(listed.subrange(0, k) =~= p);
    assert(counted.subrange(k + 1, counted.len() as int) =~= path_count());
    assert(listed.subrange(k + 1, listed.len() as int) =~= path_all_this());
    crate::dots::lemma_at_dot(counted, k);
    assert(!is_lines(counted) && !is_lines(listed)) by {
        if p.len() >= 2 {
            assert(counted[0] == p[0] && counted[1] == p[1]);
            assert(listed[0] == p[0] && listed[1] == p[1]);
        } else {
            lemma_first_segment_bounds(counted);
            lemma_first_segment_bounds(listed);
            reveal(component);
        }
    }
    lemma_dot_eval(json, 0, n, counted, k);
    lemma_dot_eval(json, 0, n, listed, k);
    let x = eval(json, 0, n, p);
    let i = x.at->0;
    lemma_follow_unfold(json, x, path_count(), false);
    lemma_follow_unfold(json, x, path_all_this(), false);
    lemma_value_starts(json, i);
    lemma_path_count();
    lemma_path_all_this();
    lemma_eval_unfold(json, i, i + x.text.len(), path_count());
    lemma_eval_unfold(json, i, i + x.text.len(), path_all_this());
    lemma_counting(json, i + 1);
}

} // verus!
