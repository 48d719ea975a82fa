//! The pipe law: a path with a pipe finds what the part behind the pipe finds
//! in the text of what the part before the pipe finds.
//!
//! The proof rests on the fact that a path read up to a pipe is split into
//! the same segments as the whole path.

use vstd::prelude::*;
use crate::eval::{
    each_path,
    eval,
    follow,
    get_spec,
    in_array,
    is_lines,
    lemma_eval_unfold,
    lemma_follow_unfold,
    lemma_in_array_unfold,
    list_test,
    modifier_arg,
    modifier_name,
    query_hi,
    query_test,
    sub_len,
    tail_path,
};
use crate::found::{absent, Outcome};
use crate::path::{
    after_pipe,
    arg_end,
    before_pipe,
    component,
    first_segment,
    is_sep,
    key_end,
    lemma_first_segment_bounds,
    lemma_key_end_bounds,
    lemma_name_end_bounds,
    lemma_nest_end_bounds,
    lemma_plain_end_bounds,
    name_end,
    nest_end,
    pipe_at,
    plain_end,
    rest_of,
    wild_in,
    SegKind,
};
use crate::query::lemma_test_range_bounds;
use crate::scan::{
    kind_at,
    lemma_squash_end_bounds,
    lemma_string_end_bounds,
    lemma_value_end_bounds,
    squash_end,
    string_end,
    Kind,
};

verus! {

/// A key read in the first `k` bytes of a path ends where it ends in the whole
/// path, if that is within those bytes.
pub proof fn lemma_key_end_prefix(p: Seq<u8>, i: int, k: int)
    requires
        0 <= i <= k <= p.len(),
        key_end(p, i) <= k,
    ensures
        key_end(p.subrange(0, k), i) == key_end(p, i),
    decreases p.len() - i,
{
    let l = p.subrange(0, k);
    if i < k {
        assert(l[i] == p[i]);
        if is_sep(p[i]) {
        } else if p[i] == 0x5c {
            if i + 1 < p.len() {
                lemma_key_end_bounds(p, i + 2);
                lemma_key_end_prefix(p, i + 2, k);
            }
        } else {
            lemma_key_end_bounds(p, i + 1);
            lemma_key_end_prefix(p, i + 1, k);
        }
    } else {
        lemma_key_end_bounds(p, i);
    }
}

/// The next separator found in the first `k` bytes of a path is the next
/// separator of the whole path, if that is within those bytes.
pub proof fn lemma_plain_end_prefix(p: Seq<u8>, i: int, k: int)
    requires
        0 <= i <= k <= p.len(),
        plain_end(p, i) <= k,
    ensures
        plain_end(p.subrange(0, k), i) == plain_end(p, i),
    decreases p.len() - i,
{
    let l = p.subrange(0, k);
    if i < k {
        assert(l[i] == p[i]);
        if !is_sep(p[i]) {
            lemma_plain_end_bounds(p, i + 1);
            lemma_plain_end_prefix(p, i + 1, k);
        }
    } else {
        lemma_plain_end_bounds(p, i);
    }
}

/// A name read in the first `k` bytes of a path ends where it ends in the
/// whole path, if that is within those bytes.
pub proof fn lemma_name_end_prefix(p: Seq<u8>, i: int, k: int)
    requires
        0 <= i <= k <= p.len(),
        name_end(p, i) <= k,
    ensures
        name_end(p.subrange(0, k), i) == name_end(p, i),
    decreases p.len() - i,
{
    let l = p.subrange(0, k);
    if i < k {
        assert(l[i] == p[i]);
        if !(is_sep(p[i]) || p[i] == 0x3a) {
            lemma_name_end_bounds(p, i + 1);
            lemma_name_end_prefix(p, i + 1, k);
        }
    } else {
        lemma_name_end_bounds(p, i);
    }
}

/// A group read in the first `k` bytes of a path ends where it ends in the
/// whole path, if that is within those bytes.
pub proof fn lemma_nest_end_prefix(p: Seq<u8>, i: int, depth: nat, in_str: bool, k: int)
    requires
        0 <= i <= k <= p.len(),
        nest_end(p, i, depth, in_str) <= k,
    ensures
        nest_end(p.subrange(0, k), i, depth, in_str) == nest_end(p, i, depth, in_str),
    decreases p.len() - i,
{
    let l = p.subrange(0, k);
    if i < k {
        assert(l[i] == p[i]);
        if p[i] == 0x5c {
            if i + 1 < p.len() {
                lemma_nest_end_bounds(p, i + 2, depth, in_str);
                lemma_nest_end_prefix(p, i + 2, depth, in_str, k);
            }
        } else if p[i] == 0x22 {
            lemma_nest_end_bounds(p, i + 1, depth, !in_str);
            lemma_nest_end_prefix(p, i + 1, depth, !in_str, k);
        } else if in_str {
            lemma_nest_end_bounds(p, i + 1, depth, true);
            lemma_nest_end_prefix(p, i + 1, depth, true, k);
        } else if crate::path::is_group_open(p[i]) {
            lemma_nest_end_bounds(p, i + 1, depth + 1, false);
            lemma_nest_end_prefix(p, i + 1, depth + 1, false, k);
        } else if crate::path::is_group_close(p[i]) {
            if depth > 1 {
                lemma_nest_end_bounds(p, i + 1, (depth - 1) as nat, false);
                lemma_nest_end_prefix(p, i + 1, (depth - 1) as nat, false, k);
            }
        } else {
            lemma_nest_end_bounds(p, i + 1, depth, false);
            lemma_nest_end_prefix(p, i + 1, depth, false, k);
        }
    } else {
        lemma_nest_end_bounds(p, i, depth, in_str);
    }
}

/// A string read in the first `k` bytes of a text ends where it ends in the
/// whole text, if that is within those bytes.
pub proof fn lemma_string_end_prefix(p: Seq<u8>, i: int, k: int)
    requires
        0 <= i <= k <= p.len(),
        string_end(p, i) <= k,
    ensures
        string_end(p.subrange(0, k), i) == string_end(p, i),
    decreases p.len() - i,
{
    let l = p.subrange(0, k);
    if i < k {
        assert(l[i] == p[i]);
        if p[i] == 0x22 {
        } else if p[i] == 0x5c {
            if i + 1 < p.len() {
                lemma_string_end_bounds(p, i + 2);
                lemma_string_end_prefix(p, i + 2, k);
            }
        } else {
            lemma_string_end_bounds(p, i + 1);
            lemma_string_end_prefix(p, i + 1, k);
        }
    } else {
        lemma_string_end_bounds(p, i);
    }
}

/// A container read in the first `k` bytes of a text ends where it ends in
/// the whole text, if that is within those bytes.
pub proof fn lemma_squash_end_prefix(p: Seq<u8>, i: int, depth: nat, in_str: bool, k: int)
    requires
        0 <= i <= k <= p.len(),
        squash_end(p, i, depth, in_str) <= k,
    ensures
        squash_end(p.subrange(0, k), i, depth, in_str) == squash_end(p, i, depth, in_str),
    decreases p.len() - i,
{
    let l = p.subrange(0, k);
    if i < k {
        assert(l[i] == p[i]);
        if in_str {
            if p[i] == 0x22 {
                lemma_squash_end_bounds(p, i + 1, depth, false);
                lemma_squash_end_prefix(p, i + 1, depth, false, k);
            } else if p[i] == 0x5c {
                if i + 1 < p.len() {
                    lemma_squash_end_bounds(p, i + 2, depth, true);
                    lemma_squash_end_prefix(p, i + 2, depth, true, k);
                }
            } else {
                lemma_squash_end_bounds(p, i + 1, depth, true);
                lemma_squash_end_prefix(p, i + 1, depth, true, k);
            }
        } else if p[i] == 0x22 {
            lemma_squash_end_bounds(p, i + 1, depth, true);
            lemma_squash_end_prefix(p, i + 1, depth, true, k);
        } else if crate::scan::is_open(p[i]) {
            lemma_squash_end_bounds(p, i + 1, depth + 1, false);
            lemma_squash_end_prefix(p, i + 1, depth + 1, false, k);
        } else if crate::scan::is_close(p[i]) {
            if depth > 1 {
                lemma_squash_end_bounds(p, i + 1, (depth - 1) as nat, false);
                lemma_squash_end_prefix(p, i + 1, (depth - 1) as nat, false, k);
            }
        } else {
            lemma_squash_end_bounds(p, i + 1, depth, false);
            lemma_squash_end_prefix(p, i + 1, depth, false, k);
        }
    } else {
        lemma_squash_end_bounds(p, i, depth, in_str);
    }
}

/// Whether a component holds a wildcard does not depend on what follows it.
pub proof fn lemma_wild_in_prefix(p: Seq<u8>, i: int, hi: int, k: int)
    requires
        0 <= i,
        hi <= k <= p.len(),
    ensures
        wild_in(p.subrange(0, k), i, hi) == wild_in(p, i, hi),
    decreases hi - i,
{
    let l = p.subrange(0, k);
    if i < hi {
        assert(l[i] == p[i]);
        if p[i] == 0x5c {
            if i + 1 < hi {
                lemma_wild_in_prefix(p, i + 2, hi, k);
            }
        } else if p[i] == 0x2a || p[i] == 0x3f {
        } else {
            lemma_wild_in_prefix(p, i + 1, hi, k);
        }
    }
}

/// The argument of a modifier read in the first `k` bytes of a path ends where
/// it ends in the whole path, if that is within those bytes.
pub proof fn lemma_arg_end_prefix(p: Seq<u8>, a: int, k: int)
    requires
        0 <= a <= k <= p.len(),
        arg_end(p, a) <= k,
    ensures
        arg_end(p.subrange(0, k), a) == arg_end(p, a),
{
    let l = p.subrange(0, k);
    if a < p.len() && (p[a] == 0x22 || p[a] == 0x5b || p[a] == 0x7b) {
        lemma_value_end_bounds(p, a);
        assert(a < k);
        assert(l[a] == p[a]);
        if p[a] == 0x22 {
            lemma_string_end_prefix(p, a + 1, k);
        } else {
            lemma_squash_end_prefix(p, a + 1, 1, false, k);
        }
    } else {
        if a < k {
            assert(l[a] == p[a]);
        }
        lemma_plain_end_prefix(p, a, k);
    }
}

/// A path cut behind its first component, or further on, starts with the same
/// component, provided that a `#` is not cut off from a dot behind it.
pub proof fn lemma_component_prefix(p: Seq<u8>, k: int)
    requires
        0 < k <= p.len() <= usize::MAX,
        component(p).2 <= k,
        component(p).0 == SegKind::ArrayAll ==> k >= 2,
    ensures
        component(p.subrange(0, k)) == component(p),
{
    reveal(component);
    let l = p.subrange(0, k);
    assert(l[0] == p[0]);
    lemma_first_segment_bounds(p);
    if p[0] == 0x40 {
        lemma_name_end_bounds(p, 1);
        let ne = name_end(p, 1);
        if ne < p.len() && p[ne] == 0x3a {
            if ne + 1 < p.len() && (p[ne + 1] == 0x22 || p[ne + 1] == 0x5b || p[ne + 1] == 0x7b) {
                lemma_value_end_bounds(p, ne + 1);
            } else {
                lemma_plain_end_bounds(p, ne + 1);
            }
            lemma_name_end_prefix(p, 1, k);
            assert(l[ne] == p[ne]);
            lemma_arg_end_prefix(p, ne + 1, k);
        } else {
            lemma_name_end_prefix(p, 1, k);
            if ne < k {
                assert(l[ne] == p[ne]);
            }
        }
    } else if p[0] == 0x5b || p[0] == 0x7b {
        lemma_nest_end_prefix(p, 1, 1, false, k);
    } else if p[0] == 0x23 {
        if p.len() > 1 && p[1] == 0x28 {
            lemma_nest_end_bounds(p, 2, 1, false);
            assert(l[1] == p[1]);
            lemma_nest_end_prefix(p, 2, 1, false, k);
            let e = nest_end(p, 2, 1, false);
            if e < k {
                assert(l[e] == p[e]);
            }
        } else if k > 1 {
            assert(l[1] == p[1]);
        }
    } else {
        lemma_key_end_prefix(p, 0, k);
        let e = key_end(p, 0);
        lemma_wild_in_prefix(p, 0, e, k);
        assert(l.subrange(0, e) =~= p.subrange(0, e));
    }
}

/// No path before the first pipe holds an empty segment.
pub open spec fn pipe_ready(p: Seq<u8>) -> bool
    decreases p.len(),
{
    p.len() > 0 && first_segment(p).hi > 0 && (first_segment(p).piped || (rest_of(p).len()
        < p.len() && pipe_ready(rest_of(p))))
}

/// The path has a pipe between two segments, with no empty segment before it.
pub open spec fn has_pipe(p: Seq<u8>) -> bool {
    pipe_at(p) < p.len() && pipe_ready(p)
}

/// How the first segment of a path and the first segment of the path before
/// its first pipe go together.
pub proof fn lemma_before_pipe(p: Seq<u8>)
    requires
        p.len() <= usize::MAX,
        has_pipe(p),
    ensures
        0 < pipe_at(p) < p.len(),
        before_pipe(p) == p.subrange(0, pipe_at(p)),
        after_pipe(p) == p.subrange(pipe_at(p) + 1, p.len() as int),
        first_segment(before_pipe(p)).kind == first_segment(p).kind,
        first_segment(before_pipe(p)).mid == first_segment(p).mid,
        first_segment(before_pipe(p)).hi == first_segment(p).hi,
        !first_segment(before_pipe(p)).piped,
        first_segment(p).hi <= pipe_at(p),
        before_pipe(p).subrange(0, first_segment(p).hi as int) == p.subrange(
            0,
            first_segment(p).hi as int,
        ),
        first_segment(p).piped ==> rest_of(before_pipe(p)).len() == 0 && rest_of(p) == after_pipe(
            p,
        ),
        !first_segment(p).piped ==> has_pipe(rest_of(p)) && rest_of(before_pipe(p)) == before_pipe(
            rest_of(p),
        ) && after_pipe(rest_of(p)) == after_pipe(p) && rest_of(p).len() < p.len(),
        pipe_at(before_pipe(p)) == before_pipe(p).len(),
    decreases p.len(),
{
    let s = first_segment(p);
    let k = pipe_at(p);
    lemma_first_segment_bounds(p);
    let l = p.subrange(0, k);
    if s.kind == SegKind::ArrayAll {
        lemma_array_all_dot(p);
    }
    if s.piped {
        assert(k == s.hi);
        lemma_component_prefix(p, k);
        assert(l.subrange(0, k) =~= p.subrange(0, k));
        assert(p.subrange(s.next as int, p.len() as int) =~= p.subrange(k + 1, p.len() as int));
        assert(first_segment(l).next == k);
        assert(l.subrange(k, k).len() == 0);
        assert(pipe_at(l.subrange(k, k)) == 0);
    } else {
        let rest = rest_of(p);
        assert(rest == p.subrange(s.next as int, p.len() as int));
        lemma_before_pipe(rest);
        let kr = pipe_at(rest);
        assert(k == s.next + kr);
        lemma_component_prefix(p, k);
        assert(l.subrange(0, s.hi as int) =~= p.subrange(0, s.hi as int));
        if s.hi < p.len() {
            assert(l[s.hi as int] == p[s.hi as int]);
        }
        assert(first_segment(l) == s);
        assert(l.subrange(s.next as int, k) =~= rest.subrange(0, kr));
        assert(rest.subrange(kr + 1, rest.len() as int) =~= p.subrange(k + 1, p.len() as int));
    }
}

/// A `#` that stands for every element is followed by a dot, not by a pipe.
pub proof fn lemma_array_all_dot(p: Seq<u8>)
    requires
        first_segment(p).kind == SegKind::ArrayAll,
    ensures
        !first_segment(p).piped,
        first_segment(p).hi == 1,
        first_segment(p).next == 2,
{
    reveal(component);
}

/// The test of a query is shorter than the query.
pub proof fn lemma_query_sub_bound(p: Seq<u8>)
    requires
        0 < p.len() <= usize::MAX,
    ensures
        query_test(p).sub.len() + 2 <= first_segment(p).mid || query_test(p).sub.len() == 0,
{
    lemma_first_segment_bounds(p);
    if 2 <= query_hi(p) <= p.len() {
        lemma_test_range_bounds(p.subrange(2, query_hi(p)));
    } else {
        lemma_test_range_bounds(Seq::<u8>::empty());
    }
}

/// What the first segment hands to the evaluator is the same for a path and
/// for the path before its first pipe.
pub proof fn lemma_same_inputs(p: Seq<u8>)
    requires
        p.len() <= usize::MAX,
        has_pipe(p),
    ensures
        modifier_name(before_pipe(p)) == modifier_name(p),
        modifier_arg(before_pipe(p)) == modifier_arg(p),
        query_test(before_pipe(p)) == query_test(p),
        list_test(before_pipe(p)) == list_test(p),
{
    lemma_before_pipe(p);
    lemma_first_segment_bounds(p);
    let l = before_pipe(p);
    let s = first_segment(p);
    let k = pipe_at(p);
    if 1 <= s.mid {
        assert(l.subrange(1, s.mid as int) =~= p.subrange(1, s.mid as int));
    }
    if s.mid < s.hi {
        assert(l.subrange(s.mid + 1, s.hi as int) =~= p.subrange(s.mid + 1, s.hi as int));
    }
    if 3 <= s.mid {
        assert(l[s.mid - 1] == p[s.mid - 1]);
    }
    assert(query_hi(l) == query_hi(p));
    if 2 <= query_hi(p) <= p.len() {
        assert(l.subrange(2, query_hi(p)) =~= p.subrange(2, query_hi(p)));
    }
}

/// The paths that a list segment works with, for a path and for the path
/// before its first pipe.
pub proof fn lemma_list_paths(p: Seq<u8>)
    requires
        p.len() <= usize::MAX,
        has_pipe(p),
        first_segment(p).kind == SegKind::ArrayAll || first_segment(p).kind == SegKind::QueryAll,
    ensures
        each_path(before_pipe(p)) == each_path(p),
        tail_path(before_pipe(p)).len() == 0,
        tail_path(p) == after_pipe(p),
        tail_path(p).len() < p.len(),
        each_path(p).len() + sub_len(list_test(p)) < before_pipe(p).len(),
        before_pipe(p).len() < p.len(),
{
    lemma_before_pipe(p);
    lemma_same_inputs(p);
    lemma_first_segment_bounds(p);
    lemma_query_sub_bound(p);
    let l = before_pipe(p);
    let s = first_segment(p);
    lemma_first_segment_bounds(l);
    if s.kind == SegKind::ArrayAll {
        lemma_array_all_dot(p);
        lemma_array_all_dot(l);
    } else {
        reveal(component);
    }
    if !s.piped {
        let rest = rest_of(p);
        lemma_before_pipe(rest);
        let rl = before_pipe(rest);
        assert(rl.subrange(0, rl.len() as int) =~= rl);
    }
}

/// Going on with no path and then with a path is going on with the path.
pub proof fn lemma_follow_done(b: Seq<u8>, x: Outcome, rest: Seq<u8>, f: bool, g: bool)
    ensures
        follow(b, follow(b, x, Seq::empty(), f), rest, g) == follow(b, x, rest, g),
{
    lemma_follow_unfold(b, x, Seq::empty(), f);
    lemma_follow_unfold(b, follow(b, x, Seq::empty(), f), rest, g);
    lemma_follow_unfold(b, x, rest, g);
}

/// Going on behind a dot with a path that has a pipe is going on with the
/// part before the pipe and then, afresh, with the part behind it.
pub proof fn lemma_pipe_follow(b: Seq<u8>, x: Outcome, rest: Seq<u8>)
    requires
        rest.len() <= usize::MAX,
        has_pipe(rest),
    ensures
        follow(b, x, rest, false) == follow(
            b,
            follow(b, x, before_pipe(rest), false),
            after_pipe(rest),
            true,
        ),
    decreases rest.len(), 2nat,
{
    lemma_before_pipe(rest);
    let before = before_pipe(rest);
    let after = after_pipe(rest);
    lemma_follow_unfold(b, x, rest, false);
    lemma_follow_unfold(b, x, before, false);
    let inner = follow(b, x, before, false);
    lemma_follow_unfold(b, inner, after, true);
    if x.kind != Kind::NotPresent {
        match x.at {
            Some(i) => {
                lemma_pipe_eval(b, i, i + x.text.len(), rest);
            },
            None => {
                let n = x.text.len() as int;
                lemma_pipe_eval(x.text, 0, n, rest);
                let e = eval(x.text, 0, n, before);
                lemma_follow_unfold(x.text, e, after, true);
            },
        }
    }
}

/// The pipe law for the evaluator: what a path with a pipe finds is what the
/// part behind the pipe finds, starting afresh, in what the part before the
/// pipe finds.
pub proof fn lemma_pipe_eval(b: Seq<u8>, lo: int, hi: int, p: Seq<u8>)
    requires
        p.len() <= usize::MAX,
        has_pipe(p),
    ensures
        eval(b, lo, hi, p) == follow(b, eval(b, lo, hi, before_pipe(p)), after_pipe(p), true),
    decreases p.len(), 1nat,
{
    lemma_before_pipe(p);
    lemma_same_inputs(p);
    lemma_first_segment_bounds(p);
    let l = before_pipe(p);
    let r = after_pipe(p);
    let s = first_segment(p);
    lemma_first_segment_bounds(l);
    lemma_eval_unfold(b, lo, hi, p);
    lemma_eval_unfold(b, lo, hi, l);
    let v = crate::scan::skip_ws(b, lo);
    let comp = p.subrange(0, s.hi as int);
    let array = s.kind != SegKind::Modifier && s.kind != SegKind::ArrayForm && s.kind
        != SegKind::ObjectForm && kind_at(b, v) == Kind::Array;
    if array {
        lemma_pipe_in_array(b, v + 1, p);
    } else {
        let x: Outcome = match s.kind {
            SegKind::Modifier => crate::modifiers::modified(
                b,
                lo,
                hi,
                modifier_name(p),
                modifier_arg(p),
            ),
            SegKind::ArrayForm | SegKind::ObjectForm => crate::eval::gathered(b, lo, hi, comp),
            _ => match kind_at(b, v) {
                Kind::Object => match crate::found::field_of(b, v + 1, s.kind, comp) {
                    Some(e) => crate::found::element_value(b, e),
                    None => absent(),
                },
                _ => absent(),
            },
        };
        lemma_follow_unfold(b, absent(), r, true);
        lemma_follow_unfold(b, absent(), rest_of(p), s.piped);
        lemma_follow_unfold(b, absent(), rest_of(l), false);
        if s.piped {
            assert(rest_of(l) =~= Seq::<u8>::empty());
            lemma_follow_done(b, x, r, false, true);
        } else {
            lemma_pipe_follow(b, x, rest_of(p));
        }
    }
}

/// The pipe law for a path that is read in an array.
pub proof fn lemma_pipe_in_array(b: Seq<u8>, start: int, p: Seq<u8>)
    requires
        p.len() <= usize::MAX,
        has_pipe(p),
    ensures
        in_array(b, start, p) == follow(
            b,
            in_array(b, start, before_pipe(p)),
            after_pipe(p),
            true,
        ),
    decreases p.len(), 0nat,
{
    lemma_before_pipe(p);
    lemma_same_inputs(p);
    lemma_first_segment_bounds(p);
    lemma_query_sub_bound(p);
    let l = before_pipe(p);
    let r = after_pipe(p);
    let s = first_segment(p);
    lemma_first_segment_bounds(l);
    lemma_query_sub_bound(l);
    lemma_in_array_unfold(b, start, p);
    lemma_in_array_unfold(b, start, l);
    let ms = crate::scan::members(b, start, false);
    let comp = p.subrange(0, s.hi as int);
    lemma_follow_unfold(b, absent(), r, true);
    if s.kind == SegKind::ArrayAll || s.kind == SegKind::QueryAll {
        lemma_list_paths(p);
        let made = crate::found::made(
            crate::found::array_text(
                crate::eval::collect_upto(b, start, list_test(p), each_path(p), ms.len() as int),
            ),
        );
        assert(tail_path(l) =~= Seq::<u8>::empty());
        lemma_follow_done(b, made, r, true, true);
    } else {
        let x: Outcome = match s.kind {
            SegKind::Index => {
                let n = crate::text::digits_value(comp);
                if n < ms.len() {
                    crate::found::element_value(b, ms[n as int])
                } else {
                    absent()
                }
            },
            SegKind::ArrayLen => crate::found::made(crate::text::decimal(ms.len())),
            SegKind::Query => match crate::eval::first_hit(b, start, query_test(p), 0) {
                Some(k) => if 0 <= k < ms.len() {
                    crate::found::element_value(b, ms[k])
                } else {
                    absent()
                },
                None => absent(),
            },
            _ => absent(),
        };
        lemma_follow_unfold(b, absent(), rest_of(p), s.piped);
        lemma_follow_unfold(b, absent(), rest_of(l), false);
        if s.piped {
            assert(rest_of(l) =~= Seq::<u8>::empty());
            lemma_follow_done(b, x, r, false, true);
        } else {
            lemma_pipe_follow(b, x, rest_of(p));
        }
    }
}

/// Pipe equivalence: where a path has a pipe between two segments, the part
/// before the pipe finds something, and more path stands behind the pipe, the
/// whole path finds what the part behind the pipe finds in the text of what
/// the part before the pipe finds.
pub proof fn lemma_pipe_equivalence(json: Seq<u8>, path: Seq<u8>)
    requires
        json.len() <= usize::MAX,
        path.len() <= usize::MAX,
        !is_lines(path),
        has_pipe(path),
        after_pipe(path).len() > 0,
        !is_lines(after_pipe(path)),
        get_spec(json, before_pipe(path)).kind != Kind::NotPresent,
    ensures
        get_spec(json, path).kind == get_spec(
            get_spec(json, before_pipe(path)).text,
            after_pipe(path),
        ).kind,
        get_spec(json, path).text == get_spec(
            get_spec(json, before_pipe(path)).text,
            after_pipe(path),
        ).text,
{
    lemma_before_pipe(path);
    lemma_first_segment_bounds(path);
    let l = before_pipe(path);
    assert(!is_lines(l)) by {
        reveal(component);
        if l.len() >= 2 {
            assert(l[0] == path[0]);
            assert(l[1] == path[1]);
        }
    }
    lemma_pipe_eval(json, 0, json.len() as int, path);
    lemma_follow_unfold(json, eval(json, 0, json.len() as int, l), after_pipe(path), true);
}

} // verus!
