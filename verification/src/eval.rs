//! The evaluator: what a path finds in a JSON text.
//!
//! Evaluation holds a current value, a range of the buffer, and takes the
//! segments of the path from left to right. A segment behind a dot goes on in
//! the same buffer; a segment behind a pipe starts afresh with the text of the
//! current value as its buffer.

use vstd::prelude::*;
use crate::found::{
    absent,
    array_text,
    comma_joined,
    detached,
    element_value,
    field_of,
    find_field,
    found_at,
    found_element,
    found_made,
    lemma_comma_joined_push,
    made,
    moved,
    none_found,
    object_text,
    push_item,
    value_at,
    Found,
    Outcome,
};
use crate::modifiers::{apply_modifier, modified};
use crate::path::{
    after_pipe,
    before_pipe,
    find_pipe,
    first_segment,
    is_group_close,
    parse_path,
    parse_segment,
    rest_of,
    segments,
    SegKind,
};
use crate::query::{
    compare,
    find_top,
    holds,
    parse_test,
    test_of,
    top_stop,
    trim_end,
    trim_hi,
    trim_lo,
    trim_start,
    Stop,
    Test,
};
use crate::scan::{
    collect_members,
    word_null,
    element_in,
    kind_at,
    kind_of,
    members,
    skip_whitespace,
    skip_ws,
    Element,
    Kind,
};
use crate::text::{append, append_all, copy_range, decimal, digits_value, push_decimal, read_digits};

verus! {

/// The argument of the modifier that `path` starts with; empty where it has
/// none.
pub open spec fn modifier_arg(path: Seq<u8>) -> Seq<u8> {
    let s = first_segment(path);
    if s.mid < s.hi <= path.len() {
        path.subrange(s.mid + 1, s.hi as int)
    } else {
        Seq::empty()
    }
}

/// The name of the modifier that `path` starts with.
pub open spec fn modifier_name(path: Seq<u8>) -> Seq<u8> {
    let s = first_segment(path);
    if 1 <= s.mid <= path.len() {
        path.subrange(1, s.mid as int)
    } else {
        Seq::empty()
    }
}

/// Where the test of the query that `path` starts with ends: before the
/// closing bracket where there is one.
pub open spec fn query_hi(path: Seq<u8>) -> int {
    let s = first_segment(path);
    if 3 <= s.mid <= path.len() && is_group_close(path[s.mid - 1]) {
        s.mid - 1
    } else {
        s.mid as int
    }
}

/// The test of the query that `path` starts with.
pub open spec fn query_test(path: Seq<u8>) -> Test {
    if 2 <= query_hi(path) <= path.len() {
        test_of(path.subrange(2, query_hi(path)))
    } else {
        test_of(Seq::empty())
    }
}

/// The test that the list segment at the start of `path` puts its elements
/// to, if it is a query.
pub open spec fn list_test(path: Seq<u8>) -> Option<Test> {
    if first_segment(path).kind == SegKind::ArrayAll {
        None
    } else {
        Some(query_test(path))
    }
}

/// The length of the path that a test resolves in each element.
pub open spec fn sub_len(t: Option<Test>) -> nat {
    match t {
        Some(t) => t.sub.len(),
        None => 0,
    }
}

/// True if the list segment that `path` starts with hands each element to
/// more path: `#.` always does, `#(...)#` does when a dot and more path follow.
pub open spec fn maps_elements(path: Seq<u8>) -> bool {
    let s = first_segment(path);
    s.kind == SegKind::ArrayAll || (s.kind == SegKind::QueryAll && !s.piped && rest_of(
        path,
    ).len() > 0)
}

/// The path that a list segment applies to each element: the rest of the path
/// up to the next pipe, or nothing where the elements are taken as they are.
pub open spec fn each_path(path: Seq<u8>) -> Seq<u8> {
    if maps_elements(path) {
        before_pipe(rest_of(path))
    } else {
        Seq::empty()
    }
}

/// The path that goes on with the array that a list segment has made.
pub open spec fn tail_path(path: Seq<u8>) -> Seq<u8> {
    if maps_elements(path) {
        after_pipe(rest_of(path))
    } else {
        rest_of(path)
    }
}

/// The key `"_"`, which stands where no name can be had.
pub open spec fn underscore_key() -> Seq<u8> {
    seq![0x22u8, 0x5fu8, 0x22u8]
}

/// True if a name can stand between quotes as it is.
pub open spec fn is_plain(name: Seq<u8>) -> bool {
    forall|i: int| 0 <= i < name.len() ==> (#[trigger] name[i]) >= 0x20 && name[i] != 0x22 && name[i] != 0x5c
}

/// The name between quotes, or `"_"` where it cannot stand between quotes.
pub open spec fn quoted(name: Seq<u8>) -> Seq<u8> {
    if name.len() > 0 && is_plain(name) {
        seq![0x22u8] + name + seq![0x22u8]
    } else {
        underscore_key()
    }
}

/// Where the name of an object-form part ends: at its first colon, if no
/// other path syntax stands before it. Zero where the part has no name.
pub open spec fn name_len(part: Seq<u8>) -> int {
    let k = top_stop(part, 0, 0, false, Stop::NameEnd);
    if 0 < k < part.len() && part[k] == 0x3a {
        k
    } else {
        0
    }
}

/// The path of an object-form part, without its name.
pub open spec fn part_path(part: Seq<u8>) -> Seq<u8> {
    let k = name_len(part);
    if 0 < k < part.len() {
        part.subrange(k + 1, part.len() as int)
    } else {
        part
    }
}

/// The key under which an object-form part stands: its name where it has one
/// (as it is when it is quoted already), else the name of the last segment of
/// its path where that is a key or a modifier, else `_`.
pub open spec fn part_key(part: Seq<u8>) -> Seq<u8> {
    let k = name_len(part);
    if 0 < k < part.len() {
        if part[0] == 0x22 {
            part.subrange(0, k)
        } else {
            quoted(part.subrange(0, k))
        }
    } else {
        let segs = segments(part);
        if segs.len() == 0 {
            underscore_key()
        } else {
            let l = segs.last();
            if l.lo <= l.mid <= l.hi <= part.len() {
                match l.kind {
                    SegKind::Key | SegKind::Index => quoted(part.subrange(l.lo as int, l.hi as int)),
                    SegKind::Modifier => quoted(part.subrange(l.lo as int, l.mid as int)),
                    _ => underscore_key(),
                }
            } else {
                underscore_key()
            }
        }
    }
}

/// Where the list of parts of the bracketed component `comp` ends: before
/// the closing bracket where there is one.
pub open spec fn parts_hi(comp: Seq<u8>) -> int {
    if comp.len() >= 2 && is_group_close(comp[comp.len() - 1]) {
        comp.len() - 1
    } else {
        comp.len() as int
    }
}

/// Where the part that starts at `p` ends: at the next comma outside brackets
/// and quotes, or where the list ends.
pub open spec fn part_end(comp: Seq<u8>, p: int) -> int {
    let c = top_stop(comp, p, 0, false, Stop::Comma);
    if p <= c < parts_hi(comp) {
        c
    } else {
        parts_hi(comp)
    }
}

/// The part that starts at `p`, without the whitespace around it.
pub open spec fn part_at(comp: Seq<u8>, p: int) -> Seq<u8> {
    let c = part_end(comp, p);
    let a = trim_lo(comp, p, c);
    comp.subrange(a, trim_hi(comp, a, c))
}

/// What `path` finds when the current value is the range `lo..hi` of `b`.
///
/// An empty path finds the value itself. Otherwise the first segment decides:
/// a modifier is applied to the range; a bracketed list of paths gathers what
/// each of them finds; a key, an index or a wildcard looks a member of an
/// object up; and everything else is handed to `in_array`. The rest of the
/// path then goes on with what was found.
#[verifier::opaque]
pub open spec fn eval(b: Seq<u8>, lo: int, hi: int, path: Seq<u8>) -> Outcome
    decreases path.len(), 4nat, 0int,
{
    let v = skip_ws(b, lo);
    if path.len() == 0 {
        value_at(b, v)
    } else {
        let s = first_segment(path);
        let rest = rest_of(path);
        if !(s.hi <= path.len() && rest.len() < path.len()) {
            absent()
        } else {
            match s.kind {
                SegKind::Modifier => follow(
                    b,
                    modified(b, lo, hi, modifier_name(path), modifier_arg(path)),
                    rest,
                    s.piped,
                ),
                SegKind::ArrayForm | SegKind::ObjectForm => follow(
                    b,
                    gathered(b, lo, hi, path.subrange(0, s.hi as int)),
                    rest,
                    s.piped,
                ),
                _ => match kind_at(b, v) {
                    Kind::Object => match field_of(b, v + 1, s.kind, path.subrange(0, s.hi as int)) {
                        Some(e) => follow(b, element_value(b, e), rest, s.piped),
                        None => absent(),
                    },
                    Kind::Array => in_array(b, v + 1, path),
                    _ => absent(),
                },
            }
        }
    }
}

/// What the rest of a path finds once `o` has been found. Nothing where `o` is
/// nothing; `o` where no path is left. Behind a pipe, and where `o` is a text
/// of its own, the text of `o` is the new buffer; behind a dot the search goes
/// on in the same buffer.
#[verifier::opaque]
pub open spec fn follow(b: Seq<u8>, o: Outcome, rest: Seq<u8>, piped: bool) -> Outcome
    decreases rest.len(), 5nat, 0int,
{
    if o.kind == Kind::NotPresent {
        absent()
    } else if rest.len() == 0 {
        o
    } else {
        match o.at {
            Some(i) => if piped {
                moved(eval(o.text, 0, o.text.len() as int, rest), i)
            } else {
                eval(b, i, i + o.text.len(), rest)
            },
            None => detached(eval(o.text, 0, o.text.len() as int, rest)),
        }
    }
}

/// Whether the element `e` passes the test `t`: the path of the test is
/// resolved in the element, and what it finds is compared.
#[verifier::opaque]
pub open spec fn hit(b: Seq<u8>, e: Element, t: Test) -> bool
    decreases t.sub.len() + 1, 1nat, 0int,
{
    let r = eval(b, e.val_lo as int, e.val_hi as int, t.sub);
    holds(r.kind, r.text, t.op, t.lit)
}

/// The position of the first element at or after `k` that passes the test
/// `t`.
#[verifier::opaque]
pub open spec fn first_hit(b: Seq<u8>, start: int, t: Test, k: int) -> Option<int>
    decreases t.sub.len() + 1, 2nat, members(b, start, false).len() - k,
{
    let ms = members(b, start, false);
    if k < 0 || k >= ms.len() {
        None
    } else if hit(b, ms[k], t) {
        Some(k)
    } else {
        first_hit(b, start, t, k + 1)
    }
}

/// What the first `k` elements add to the array that a list segment makes:
/// for each element that passes the test `t`, if there is one, what the path
/// `each` finds in it, if it finds anything.
#[verifier::opaque]
pub open spec fn collect_upto(b: Seq<u8>, start: int, t: Option<Test>, each: Seq<u8>, k: int) -> Seq<Seq<u8>>
    decreases each.len() + sub_len(t) + 1, 2nat, k,
{
    let ms = members(b, start, false);
    if k <= 0 || k > ms.len() {
        Seq::empty()
    } else {
        let e = ms[k - 1];
        let head = collect_upto(b, start, t, each, k - 1);
        if t is Some && !hit(b, e, t->0) {
            head
        } else {
            let r = eval(b, e.val_lo as int, e.val_hi as int, each);
            if r.kind != Kind::NotPresent {
                head.push(r.text)
            } else {
                head
            }
        }
    }
}

/// What `path` finds in the array whose elements the walk from `start` steps
/// through.
///
/// An index finds the element at that position. `#` before more path behind a
/// dot makes an array of what that path finds in each element, up to the next
/// pipe; `#` alone is the number of elements. A query finds the first element
/// that passes its test; with `#` behind it, it makes an array of all that
/// pass. Any other segment finds nothing.
#[verifier::opaque]
pub open spec fn in_array(b: Seq<u8>, start: int, path: Seq<u8>) -> Outcome
    decreases path.len(), 3nat, 0int,
{
    let ms = members(b, start, false);
    let s = first_segment(path);
    let rest = rest_of(path);
    if path.len() == 0 || !(s.hi <= path.len() && rest.len() < path.len()) {
        absent()
    } else {
        match s.kind {
            SegKind::Index => {
                let n = digits_value(path.subrange(0, s.hi as int));
                if n < ms.len() {
                    follow(b, element_value(b, ms[n as int]), rest, s.piped)
                } else {
                    absent()
                }
            },
            SegKind::ArrayLen => follow(b, made(decimal(ms.len())), rest, s.piped),
            SegKind::Query => if query_test(path).sub.len() >= path.len() {
                absent()
            } else {
                match first_hit(b, start, query_test(path), 0) {
                    Some(k) => if 0 <= k < ms.len() {
                        follow(b, element_value(b, ms[k]), rest, s.piped)
                    } else {
                        absent()
                    },
                    None => absent(),
                }
            },
            SegKind::ArrayAll | SegKind::QueryAll => if tail_path(path).len() < path.len()
                && each_path(path).len() + sub_len(list_test(path)) < path.len() {
                follow(
                    b,
                    made(
                        array_text(
                            collect_upto(
                                b,
                                start,
                                list_test(path),
                                each_path(path),
                                ms.len() as int,
                            ),
                        ),
                    ),
                    tail_path(path),
                    true,
                )
            } else {
                absent()
            },
            _ => absent(),
        }
    }
}

/// What one part of the bracketed component `comp` adds to the list: in array
/// form what the part finds, or `null`; in object form the key of the part, a
/// colon, and what the part finds, or nothing where it finds nothing.
#[verifier::opaque]
pub open spec fn part_items(b: Seq<u8>, lo: int, hi: int, comp: Seq<u8>, part: Seq<u8>) -> Seq<Seq<u8>>
    decreases comp.len(), 0nat, 0int,
{
    if comp.len() == 0 || part.len() >= comp.len() {
        Seq::empty()
    } else if comp[0] == 0x5b {
        let r = eval(b, lo, hi, part);
        seq![if r.kind != Kind::NotPresent { r.text } else { word_null() }]
    } else if part_path(part).len() < comp.len() {
        let r = eval(b, lo, hi, part_path(part));
        if r.kind != Kind::NotPresent {
            seq![part_key(part) + seq![0x3au8] + r.text]
        } else {
            Seq::empty()
        }
    } else {
        Seq::empty()
    }
}

/// What the parts of the bracketed component `comp` from position `p` on add
/// to the list.
#[verifier::opaque]
pub open spec fn gather_from(b: Seq<u8>, lo: int, hi: int, comp: Seq<u8>, p: int) -> Seq<Seq<u8>>
    decreases comp.len(), 0nat, comp.len() - p,
{
    if p < 1 || p >= parts_hi(comp) {
        Seq::empty()
    } else {
        let c = part_end(comp, p);
        part_items(b, lo, hi, comp, part_at(comp, p)) + (if p <= c < comp.len() {
            gather_from(b, lo, hi, comp, c + 1)
        } else {
            Seq::empty()
        })
    }
}

/// The array or object that the bracketed component `comp` makes of the
/// current value.
#[verifier::opaque]
pub open spec fn gathered(b: Seq<u8>, lo: int, hi: int, comp: Seq<u8>) -> Outcome
    decreases comp.len(), 1nat, 0int,
{
    if comp.len() == 0 {
        absent()
    } else if comp[0] == 0x5b {
        made(array_text(gather_from(b, lo, hi, comp, 1)))
    } else {
        made(object_text(gather_from(b, lo, hi, comp, 1)))
    }
}

/// True if a path starts with `..`, which takes the buffer as a run of
/// values, one after the other, in place of one value.
pub open spec fn is_lines(path: Seq<u8>) -> bool {
    path.len() >= 2 && path[0] == 0x2e && path[1] == 0x2e
}

/// What `path` finds in the text `b`.
pub open spec fn get_spec(b: Seq<u8>, path: Seq<u8>) -> Outcome {
    if is_lines(path) {
        in_array(b, 0, path.subrange(2, path.len() as int))
    } else {
        eval(b, 0, b.len() as int, path)
    }
}

/// The defining equation of `eval`, one step unfolded.
pub proof fn lemma_eval_unfold(b: Seq<u8>, lo: int, hi: int, path: Seq<u8>)
    ensures
        eval(b, lo, hi, path) == ({
        let v = skip_ws(b, lo);
        if path.len() == 0 {
            value_at(b, v)
        } else {
            let s = first_segment(path);
            let rest = rest_of(path);
            if !(s.hi <= path.len() && rest.len() < path.len()) {
                absent()
            } else {
                match s.kind {
                    SegKind::Modifier => follow(
                        b,
                        modified(b, lo, hi, modifier_name(path), modifier_arg(path)),
                        rest,
                        s.piped,
                    ),
                    SegKind::ArrayForm | SegKind::ObjectForm => follow(
                        b,
                        gathered(b, lo, hi, path.subrange(0, s.hi as int)),
                        rest,
                        s.piped,
                    ),
                    _ => match kind_at(b, v) {
                        Kind::Object => match field_of(b, v + 1, s.kind, path.subrange(0, s.hi as int)) {
                            Some(e) => follow(b, element_value(b, e), rest, s.piped),
                            None => absent(),
                        },
                        Kind::Array => in_array(b, v + 1, path),
                        _ => absent(),
                    },
                }
            }
        }
    }),
{
    reveal(eval);
    reveal(follow);
    reveal(gathered);
    reveal(in_array);
}

/// The defining equation of `follow`, one step unfolded.
pub proof fn lemma_follow_unfold(b: Seq<u8>, o: Outcome, rest: Seq<u8>, piped: bool)
    ensures
        follow(b, o, rest, piped) == ({
        if o.kind == Kind::NotPresent {
            absent()
        } else if rest.len() == 0 {
            o
        } else {
            match o.at {
                Some(i) => if piped {
                    moved(eval(o.text, 0, o.text.len() as int, rest), i)
                } else {
                    eval(b, i, i + o.text.len(), rest)
                },
                None => detached(eval(o.text, 0, o.text.len() as int, rest)),
            }
        }
    }),
{
    reveal(follow);
    reveal(eval);
}

/// The defining equation of `hit`, one step unfolded.
pub proof fn lemma_hit_unfold(b: Seq<u8>, e: Element, t: Test)
    ensures
        hit(b, e, t) == ({
        let r = eval(b, e.val_lo as int, e.val_hi as int, t.sub);
        holds(r.kind, r.text, t.op, t.lit)
    }),
{
    reveal(hit);
    reveal(eval);
}

/// The defining equation of `first_hit`, one step unfolded.
pub proof fn lemma_first_hit_unfold(b: Seq<u8>, start: int, t: Test, k: int)
    ensures
        first_hit(b, start, t, k) == ({
        let ms = members(b, start, false);
        if k < 0 || k >= ms.len() {
            None
        } else if hit(b, ms[k], t) {
            Some(k)
        } else {
            first_hit(b, start, t, k + 1)
        }
    }),
{
    reveal(first_hit);
    reveal(hit);
}

/// The defining equation of `collect_upto`, one step unfolded.
pub proof fn lemma_collect_upto_unfold(b: Seq<u8>, start: int, t: Option<Test>, each: Seq<u8>, k: int)
    ensures
        collect_upto(b, start, t, each, k) == ({
        let ms = members(b, start, false);
        if k <= 0 || k > ms.len() {
            Seq::empty()
        } else {
            let e = ms[k - 1];
            let head = collect_upto(b, start, t, each, k - 1);
            if t is Some && !hit(b, e, t->0) {
                head
            } else {
                let r = eval(b, e.val_lo as int, e.val_hi as int, each);
                if r.kind != Kind::NotPresent {
                    head.push(r.text)
                } else {
                    head
                }
            }
        }
    }),
{
    reveal(collect_upto);
    reveal(hit);
    reveal(eval);
}

/// The defining equation of `in_array`, one step unfolded.
pub proof fn lemma_in_array_unfold(b: Seq<u8>, start: int, path: Seq<u8>)
    ensures
        in_array(b, start, path) == ({
        let ms = members(b, start, false);
        let s = first_segment(path);
        let rest = rest_of(path);
        if path.len() == 0 || !(s.hi <= path.len() && rest.len() < path.len()) {
            absent()
        } else {
            match s.kind {
                SegKind::Index => {
                    let n = digits_value(path.subrange(0, s.hi as int));
                    if n < ms.len() {
                        follow(b, element_value(b, ms[n as int]), rest, s.piped)
                    } else {
                        absent()
                    }
                },
                SegKind::ArrayLen => follow(b, made(decimal(ms.len())), rest, s.piped),
                SegKind::Query => if query_test(path).sub.len() >= path.len() {
                    absent()
                } else {
                    match first_hit(b, start, query_test(path), 0) {
                        Some(k) => if 0 <= k < ms.len() {
                            follow(b, element_value(b, ms[k]), rest, s.piped)
                        } else {
                            absent()
                        },
                        None => absent(),
                    }
                },
                SegKind::ArrayAll | SegKind::QueryAll => if tail_path(path).len() < path.len()
                    && each_path(path).len() + sub_len(list_test(path)) < path.len() {
                    follow(
                        b,
                        made(
                            array_text(
                                collect_upto(
                                    b,
                                    start,
                                    list_test(path),
                                    each_path(path),
                                    ms.len() as int,
                                ),
                            ),
                        ),
                        tail_path(path),
                        true,
                    )
                } else {
                    absent()
                },
                _ => absent(),
            }
        }
    }),
{
    reveal(in_array);
    reveal(follow);
    reveal(first_hit);
    reveal(collect_upto);
}

/// The defining equation of `part_items`, one step unfolded.
pub proof fn lemma_part_items_unfold(b: Seq<u8>, lo: int, hi: int, comp: Seq<u8>, part: Seq<u8>)
    ensures
        part_items(b, lo, hi, comp, part) == ({
        if comp.len() == 0 || part.len() >= comp.len() {
            Seq::empty()
        } else if comp[0] == 0x5b {
            let r = eval(b, lo, hi, part);
            seq![if r.kind != Kind::NotPresent { r.text } else { word_null() }]
        } else if part_path(part).len() < comp.len() {
            let r = eval(b, lo, hi, part_path(part));
            if r.kind != Kind::NotPresent {
                seq![part_key(part) + seq![0x3au8] + r.text]
            } else {
                Seq::empty()
            }
        } else {
            Seq::empty()
        }
    }),
{
    reveal(part_items);
    reveal(eval);
}

/// The defining equation of `gather_from`, one step unfolded.
pub proof fn lemma_gather_from_unfold(b: Seq<u8>, lo: int, hi: int, comp: Seq<u8>, p: int)
    ensures
        gather_from(b, lo, hi, comp, p) == ({
        if p < 1 || p >= parts_hi(comp) {
            Seq::empty()
        } else {
            let c = part_end(comp, p);
            part_items(b, lo, hi, comp, part_at(comp, p)) + (if p <= c < comp.len() {
                gather_from(b, lo, hi, comp, c + 1)
            } else {
                Seq::empty()
            })
        }
    }),
{
    reveal(gather_from);
    reveal(part_items);
}

/// The defining equation of `gathered`, one step unfolded.
pub proof fn lemma_gathered_unfold(b: Seq<u8>, lo: int, hi: int, comp: Seq<u8>)
    ensures
        gathered(b, lo, hi, comp) == ({
        if comp.len() == 0 {
            absent()
        } else if comp[0] == 0x5b {
            made(array_text(gather_from(b, lo, hi, comp, 1)))
        } else {
            made(object_text(gather_from(b, lo, hi, comp, 1)))
        }
    }),
{
    reveal(gathered);
    reveal(gather_from);
}

/// Appends the text of what was found to a list that is being written out.
fn push_found(out: &mut Vec<u8>, first: bool, b: &[u8], r: &Found)
    requires
        r.fits(b@.len() as int),
    ensures
        final(out)@ == old(out)@ + (if first {
            Seq::<u8>::empty()
        } else {
            seq![0x2cu8]
        }) + r.outcome(b@).text,
{
    match &r.owned {
        Some(v) => {
            let n = v.len();
            proof {
                assert(v@.subrange(0, n as int) =~= v@);
            }
            push_item(out, first, v.as_slice(), 0, n);
        },
        None => {
            push_item(out, first, b, r.lo, r.hi);
        },
    }
}

/// Goes on with the rest of a path from what was found.
pub fn follow_on(b: &[u8], o: Found, rest: &[u8], piped: bool) -> (r: Found)
    requires
        o.fits(b@.len() as int),
    ensures
        r.outcome(b@) == follow(b@, o.outcome(b@), rest@, piped),
        r.fits(b@.len() as int),
    decreases rest@.len(), 5nat, 0int,
{
    proof {
        lemma_follow_unfold(b@, o.outcome(b@), rest@, piped);
    }
    if o.kind == Kind::NotPresent {
        return none_found();
    }
    if rest.len() == 0 {
        return o;
    }
    match o.owned {
        Some(v) => {
            let n = v.len();
            let r = eval_at(v.as_slice(), 0, n, rest);
            match r.owned {
                Some(w) => Found { kind: r.kind, lo: 0, hi: 0, owned: Some(w) },
                None => {
                    let text = copy_range(v.as_slice(), r.lo, r.hi);
                    Found { kind: r.kind, lo: 0, hi: 0, owned: Some(text) }
                },
            }
        },
        None => {
            if piped {
                let sub = vstd::slice::slice_subrange(b, o.lo, o.hi);
                let n = sub.len();
                let r = eval_at(sub, 0, n, rest);
                match r.owned {
                    Some(w) => Found { kind: r.kind, lo: 0, hi: 0, owned: Some(w) },
                    None => {
                        proof {
                            assert(sub@.subrange(r.lo as int, r.hi as int) =~= b@.subrange(
                                o.lo + r.lo,
                                o.lo + r.hi,
                            ));
                        }
                        Found { kind: r.kind, lo: o.lo + r.lo, hi: o.lo + r.hi, owned: None }
                    },
                }
            } else {
                eval_at(b, o.lo, o.hi, rest)
            }
        },
    }
}

/// Evaluates a path with the range `lo..hi` of `b` as the current value.
pub fn eval_at(b: &[u8], lo: usize, hi: usize, path: &[u8]) -> (r: Found)
    requires
        lo <= hi <= b@.len(),
    ensures
        r.outcome(b@) == eval(b@, lo as int, hi as int, path@),
        r.fits(b@.len() as int),
    decreases path@.len(), 4nat, 0int,
{
    proof {
        lemma_eval_unfold(b@, lo as int, hi as int, path@);
    }
    let n = b.len();
    let m = path.len();
    let v = skip_whitespace(b, lo);
    if m == 0 {
        return found_at(b, v);
    }
    let s = parse_segment(path);
    let rest = vstd::slice::slice_subrange(path, s.next, m);
    match s.kind {
        SegKind::Modifier => {
            let name = vstd::slice::slice_subrange(path, 1, s.mid);
            let arg = if s.mid < s.hi {
                vstd::slice::slice_subrange(path, s.mid + 1, s.hi)
            } else {
                vstd::slice::slice_subrange(path, 0, 0)
            };
            proof {
                assert(path@.subrange(0, 0) =~= Seq::<u8>::empty());
            }
            let o = apply_modifier(b, lo, hi, name, arg);
            follow_on(b, o, rest, s.piped)
        },
        SegKind::ArrayForm | SegKind::ObjectForm => {
            let comp = vstd::slice::slice_subrange(path, 0, s.hi);
            let o = gather(b, lo, hi, comp);
            follow_on(b, o, rest, s.piped)
        },
        _ => {
            let k = kind_of(b, v);
            match k {
                Kind::Object => {
                    let comp = vstd::slice::slice_subrange(path, 0, s.hi);
                    match find_field(b, v + 1, s.kind, comp) {
                        Some(e) => {
                            let o = found_element(b, &e);
                            follow_on(b, o, rest, s.piped)
                        },
                        None => none_found(),
                    }
                },
                Kind::Array => array_step(b, v + 1, path),
                _ => none_found(),
            }
        },
    }
}

/// The parts of the query that `path` starts with, as slices of the path.
fn read_query<'a>(path: &'a [u8]) -> (r: (&'a [u8], crate::query::Op, &'a [u8]))
    requires
        path@.len() > 0,
        first_segment(path@).kind == SegKind::Query || first_segment(path@).kind
            == SegKind::QueryAll,
    ensures
        r.0@ == query_test(path@).sub,
        r.1 == query_test(path@).op,
        r.2@ == query_test(path@).lit,
        r.0@.len() + 2 <= first_segment(path@).mid <= path@.len(),
{
    let m = path.len();
    let s = parse_segment(path);
    let qhi: usize = if s.mid >= 3 && (path[s.mid - 1] == 0x5d || path[s.mid - 1] == 0x7d
        || path[s.mid - 1] == 0x29) {
        s.mid - 1
    } else {
        s.mid
    };
    let q = vstd::slice::slice_subrange(path, 2, qhi);
    let t = parse_test(q);
    (
        vstd::slice::slice_subrange(q, t.sub_lo, t.sub_hi),
        t.op,
        vstd::slice::slice_subrange(q, t.lit_lo, t.lit_hi),
    )
}

/// Tests an element against a query: `sub` is the path to resolve in the
/// element, `lit` the text to compare what it finds with.
pub fn test_hit(b: &[u8], e: &Element, sub: &[u8], op: crate::query::Op, lit: &[u8]) -> (r: bool)
    requires
        element_in(*e, b@.len() as int),
    ensures
        r == hit(b@, *e, Test { sub: sub@, op, lit: lit@ }),
    decreases sub@.len() + 1, 1nat, 0int,
{
    proof {
        lemma_hit_unfold(b@, *e, Test { sub: sub@, op, lit: lit@ });
    }
    let r = eval_at(b, e.val_lo, e.val_hi, sub);
    match r.owned {
        Some(v) => compare(r.kind, v.as_slice(), op, lit),
        None => compare(r.kind, vstd::slice::slice_subrange(b, r.lo, r.hi), op, lit),
    }
}

/// Finds the first element that passes a query.
fn find_hit(b: &[u8], start: usize, ms: &Vec<Element>, sub: &[u8], op: crate::query::Op, lit: &[u8]) -> (r: Option<usize>)
    requires
        ms@ == members(b@, start as int, false),
        forall|j: int| 0 <= j < ms@.len() ==> element_in(#[trigger] ms@[j], b@.len() as int),
    ensures
        match r {
            Some(k) => first_hit(b@, start as int, Test { sub: sub@, op, lit: lit@ }, 0) == Some(
                k as int,
            ) && k < ms@.len(),
            None => first_hit(b@, start as int, Test { sub: sub@, op, lit: lit@ }, 0) is None,
        },
    decreases sub@.len() + 1, 2nat, 1int + ms@.len(),
{
    let ghost t = Test { sub: sub@, op, lit: lit@ };
    let mut k: usize = 0;
    while k < ms.len()
        invariant
            k <= ms@.len(),
            t == (Test { sub: sub@, op, lit: lit@ }),
            ms@ == members(b@, start as int, false),
            forall|j: int| 0 <= j < ms@.len() ==> element_in(#[trigger] ms@[j], b@.len() as int),
            first_hit(b@, start as int, t, 0) == first_hit(b@, start as int, t, k as int),
        decreases ms@.len() - k,
    {
        proof {
            lemma_first_hit_unfold(b@, start as int, t, k as int);
        }
        if test_hit(b, &ms[k], sub, op, lit) {
            return Some(k);
        }
        k += 1;
    }
    proof {
        lemma_first_hit_unfold(b@, start as int, t, k as int);
    }
    None
}

/// Writes the array that a list segment makes: `query` is the test that the
/// elements are put to, if any, and `each` the path that is resolved in each.
fn collect_all(b: &[u8], start: usize, ms: &Vec<Element>, query: Option<(&[u8], crate::query::Op, &[u8])>, each: &[u8]) -> (r: Vec<u8>)
    requires
        ms@ == members(b@, start as int, false),
        forall|j: int| 0 <= j < ms@.len() ==> element_in(#[trigger] ms@[j], b@.len() as int),
    ensures
        r@ == array_text(
            collect_upto(b@, start as int, test_view(query), each@, ms@.len() as int),
        ),
    decreases each@.len() + sub_len(test_view(query)) + 1, 2nat, 1int + ms@.len(),
{
    let ghost t = test_view(query);
    let mut out: Vec<u8> = Vec::new();
    out.push(0x5b);
    let mut first = true;
    let mut k: usize = 0;
    let ghost mut items: Seq<Seq<u8>> = Seq::empty();
    proof {
        lemma_collect_upto_unfold(b@, start as int, t, each@, 0);
        assert(out@ =~= seq![0x5bu8] + comma_joined(items));
    }
    while k < ms.len()
        invariant
            k <= ms@.len(),
            t == test_view(query),
            ms@ == members(b@, start as int, false),
            forall|j: int| 0 <= j < ms@.len() ==> element_in(#[trigger] ms@[j], b@.len() as int),
            items == collect_upto(b@, start as int, t, each@, k as int),
            first == (items.len() == 0),
            out@ == seq![0x5bu8] + comma_joined(items),
        decreases ms@.len() - k,
    {
        proof {
            lemma_collect_upto_unfold(b@, start as int, t, each@, k + 1);
        }
        let e = ms[k];
        let pass = match query {
            None => true,
            Some((sub, op, lit)) => test_hit(b, &e, sub, op, lit),
        };
        if pass {
            let r = eval_at(b, e.val_lo, e.val_hi, each);
            if r.kind != Kind::NotPresent {
                let ghost t = r.outcome(b@).text;
                push_found(&mut out, first, b, &r);
                proof {
                    lemma_comma_joined_push(items, t);
                    assert(out@ =~= seq![0x5bu8] + comma_joined(items.push(t)));
                    items = items.push(t);
                }
                first = false;
            }
        }
        k += 1;
    }
    out.push(0x5d);
    proof {
        assert(out@ =~= array_text(items));
    }
    out
}

/// The test that the slices of a query stand for.
pub open spec fn test_view(query: Option<(&[u8], crate::query::Op, &[u8])>) -> Option<Test> {
    match query {
        Some((sub, op, lit)) => Some(Test { sub: sub@, op, lit: lit@ }),
        None => None,
    }
}

/// `array_step` for a path that starts with an index.
fn array_index(b: &[u8], start: usize, path: &[u8]) -> (r: Found)
    requires
        start <= b@.len(),
        path@.len() > 0,
        first_segment(path@).kind == SegKind::Index,
    ensures
        r.outcome(b@) == in_array(b@, start as int, path@),
        r.fits(b@.len() as int),
    decreases path@.len(), 3nat, 0int,
{
    proof {
        lemma_in_array_unfold(b@, start as int, path@);
    }
    let m = path.len();
    let ms = collect_members(b, start, false);
    let s = parse_segment(path);
    let rest = vstd::slice::slice_subrange(path, s.next, m);
    let count = ms.len();
    match read_digits(path, 0, s.hi) {
        Some(i) => {
            if i < count {
                let o = found_element(b, &ms[i]);
                follow_on(b, o, rest, s.piped)
            } else {
                none_found()
            }
        },
        None => none_found(),
    }
}

/// `array_step` for a path that starts with `#` as a count.
fn array_len(b: &[u8], start: usize, path: &[u8]) -> (r: Found)
    requires
        start <= b@.len(),
        path@.len() > 0,
        first_segment(path@).kind == SegKind::ArrayLen,
    ensures
        r.outcome(b@) == in_array(b@, start as int, path@),
        r.fits(b@.len() as int),
    decreases path@.len(), 3nat, 0int,
{
    proof {
        lemma_in_array_unfold(b@, start as int, path@);
    }
    let m = path.len();
    let ms = collect_members(b, start, false);
    let s = parse_segment(path);
    let rest = vstd::slice::slice_subrange(path, s.next, m);
    let mut text: Vec<u8> = Vec::new();
    push_decimal(&mut text, ms.len());
    proof {
        assert(text@ =~= decimal(ms@.len()));
    }
    let o = found_made(text);
    follow_on(b, o, rest, s.piped)
}

/// `array_step` for a path that starts with a query for the first match.
fn array_query(b: &[u8], start: usize, path: &[u8]) -> (r: Found)
    requires
        start <= b@.len(),
        path@.len() > 0,
        first_segment(path@).kind == SegKind::Query,
    ensures
        r.outcome(b@) == in_array(b@, start as int, path@),
        r.fits(b@.len() as int),
    decreases path@.len(), 3nat, 0int,
{
    proof {
        lemma_in_array_unfold(b@, start as int, path@);
    }
    let m = path.len();
    let ms = collect_members(b, start, false);
    let s = parse_segment(path);
    let rest = vstd::slice::slice_subrange(path, s.next, m);
    let (sub, op, lit) = read_query(path);
    match find_hit(b, start, &ms, sub, op, lit) {
        Some(k) => {
            let o = found_element(b, &ms[k]);
            follow_on(b, o, rest, s.piped)
        },
        None => none_found(),
    }
}

/// `array_step` for a path that starts with a segment that makes a list.
fn array_list(b: &[u8], start: usize, path: &[u8]) -> (r: Found)
    requires
        start <= b@.len(),
        path@.len() > 0,
        first_segment(path@).kind == SegKind::ArrayAll || first_segment(path@).kind
            == SegKind::QueryAll,
    ensures
        r.outcome(b@) == in_array(b@, start as int, path@),
        r.fits(b@.len() as int),
    decreases path@.len(), 3nat, 0int,
{
    proof {
        lemma_in_array_unfold(b@, start as int, path@);
    }
    let m = path.len();
    let ms = collect_members(b, start, false);
    let s = parse_segment(path);
    let rest = vstd::slice::slice_subrange(path, s.next, m);
    let query = match s.kind {
        SegKind::ArrayAll => None,
        _ => Some(read_query(path)),
    };
    let maps = s.kind == SegKind::ArrayAll || (!s.piped && rest.len() > 0);
    let cut = find_pipe(rest);
    let each = if maps {
        vstd::slice::slice_subrange(rest, 0, cut)
    } else {
        vstd::slice::slice_subrange(rest, 0, 0)
    };
    let tail = if maps {
        if cut < rest.len() {
            vstd::slice::slice_subrange(rest, cut + 1, rest.len())
        } else {
            vstd::slice::slice_subrange(rest, 0, 0)
        }
    } else {
        rest
    };
    proof {
        assert(rest@.subrange(0, 0) =~= Seq::<u8>::empty());
        assert(each@ == each_path(path@));
        assert(tail@ == tail_path(path@));
        assert(test_view(query) == list_test(path@));
    }
    let out = collect_all(b, start, &ms, query, each);
    let o = found_made(out);
    follow_on(b, o, tail, true)
}

/// Evaluates a path in the array whose elements the walk from `start` steps
/// through.
pub fn array_step(b: &[u8], start: usize, path: &[u8]) -> (r: Found)
    requires
        start <= b@.len(),
    ensures
        r.outcome(b@) == in_array(b@, start as int, path@),
        r.fits(b@.len() as int),
    decreases path@.len(), 3nat, 1int,
{
    let m = path.len();
    if m == 0 {
        proof {
            lemma_in_array_unfold(b@, start as int, path@);
        }
        return none_found();
    }
    let s = parse_segment(path);
    match s.kind {
        SegKind::Index => array_index(b, start, path),
        SegKind::ArrayLen => array_len(b, start, path),
        SegKind::Query => array_query(b, start, path),
        SegKind::ArrayAll => array_list(b, start, path),
        SegKind::QueryAll => array_list(b, start, path),
        _ => {
            proof {
                lemma_in_array_unfold(b@, start as int, path@);
            }
            none_found()
        },
    }
}

fn plain_name(name: &[u8]) -> (r: bool)
    ensures
        r == is_plain(name@),
{
    let mut i: usize = 0;
    while i < name.len()
        invariant
            i <= name@.len(),
            forall|j: int|
                0 <= j < i ==> (#[trigger] name@[j]) >= 0x20 && name@[j] != 0x22 && name@[j]
                    != 0x5c,
        decreases name@.len() - i,
    {
        if name[i] < 0x20 || name[i] == 0x22 || name[i] == 0x5c {
            return false;
        }
        i += 1;
    }
    true
}

fn push_quoted(out: &mut Vec<u8>, name: &[u8])
    ensures
        final(out)@ == old(out)@ + quoted(name@),
{
    if name.len() > 0 && plain_name(name) {
        out.push(0x22);
        append_all(out, name);
        out.push(0x22);
        proof {
            assert(out@ =~= old(out)@ + quoted(name@));
        }
    } else {
        out.push(0x22);
        out.push(0x5f);
        out.push(0x22);
        proof {
            assert(out@ =~= old(out)@ + underscore_key());
        }
    }
}

/// Appends the key under which an object-form part stands.
fn push_part_key(out: &mut Vec<u8>, part: &[u8])
    ensures
        final(out)@ == old(out)@ + part_key(part@),
{
    let n = part.len();
    let k0 = find_top(part, 0, Stop::NameEnd);
    let k: usize = if 0 < k0 && k0 < n && part[k0] == 0x3a { k0 } else { 0 };
    if 0 < k && k < n {
        if part[0] == 0x22 {
            append(out, part, 0, k);
        } else {
            push_quoted(out, vstd::slice::slice_subrange(part, 0, k));
        }
    } else {
        let segs = parse_path(part);
        let none = vstd::slice::slice_subrange(part, 0, 0);
        proof {
            assert(none@.len() == 0);
        }
        if segs.len() == 0 {
            push_quoted(out, none);
        } else {
            let l = segs[segs.len() - 1];
            if l.lo <= l.mid && l.mid <= l.hi && l.hi <= n {
                match l.kind {
                    SegKind::Key | SegKind::Index => {
                        push_quoted(out, vstd::slice::slice_subrange(part, l.lo, l.hi));
                    },
                    SegKind::Modifier => {
                        push_quoted(out, vstd::slice::slice_subrange(part, l.lo, l.mid));
                    },
                    _ => {
                        push_quoted(out, none);
                    },
                }
            } else {
                push_quoted(out, none);
            }
        }
    }
}

/// A list of items as it is written behind other items: a comma before each
/// item, but for the first item of a list that was empty so far.
pub open spec fn separated(first: bool, items: Seq<Seq<u8>>) -> Seq<u8>
    decreases items.len(),
{
    if items.len() == 0 {
        Seq::empty()
    } else {
        (if first {
            Seq::<u8>::empty()
        } else {
            seq![0x2cu8]
        }) + items[0] + separated(false, items.subrange(1, items.len() as int))
    }
}

/// Writing two lists one after the other writes their concatenation.
pub proof fn lemma_separated_concat(first: bool, x: Seq<Seq<u8>>, y: Seq<Seq<u8>>)
    ensures
        separated(first, x + y) == separated(first, x) + separated(first && x.len() == 0, y),
    decreases x.len(),
{
    if x.len() == 0 {
        assert(x + y =~= y);
        assert(separated(first, x) + separated(first, y) =~= separated(first, y));
    } else {
        let xs = x.subrange(1, x.len() as int);
        assert((x + y).subrange(1, (x + y).len() as int) =~= xs + y);
        assert((x + y)[0] == x[0]);
        lemma_separated_concat(false, xs, y);
        let sep = if first {
            Seq::<u8>::empty()
        } else {
            seq![0x2cu8]
        };
        assert(sep + x[0] + (separated(false, xs) + separated(false, y)) =~= (sep + x[0]
            + separated(false, xs)) + separated(false, y));
    }
}

/// A list of at most one item is written as that item, behind a comma unless it
/// is the first.
pub proof fn lemma_separated_one(first: bool, x: Seq<Seq<u8>>)
    requires
        x.len() <= 1,
    ensures
        separated(first, x) == if x.len() == 0 {
            Seq::<u8>::empty()
        } else {
            (if first {
                Seq::<u8>::empty()
            } else {
                seq![0x2cu8]
            }) + x[0]
        },
{
    if x.len() == 1 {
        let rest = x.subrange(1, 1);
        assert(rest.len() == 0);
        assert(separated(false, rest) =~= Seq::<u8>::empty());
        let sep = if first {
            Seq::<u8>::empty()
        } else {
            seq![0x2cu8]
        };
        assert(sep + x[0] + Seq::<u8>::empty() =~= sep + x[0]);
    }
}

/// A list written from its start is the list with commas between its items.
pub proof fn lemma_separated_is_joined(items: Seq<Seq<u8>>)
    ensures
        separated(true, items) == comma_joined(items),
    decreases items.len(),
{
    if items.len() == 0 {
    } else if items.len() == 1 {
        lemma_separated_one(true, items);
        assert(Seq::<u8>::empty() + items[0] =~= items[0]);
    } else {
        let front = items.drop_last();
        lemma_separated_is_joined(front);
        lemma_separated_concat(true, front, seq![items.last()]);
        assert(front + seq![items.last()] =~= items);
        let one = seq![items.last()];
        lemma_separated_one(false, one);
        assert(comma_joined(front) + (seq![0x2cu8] + items.last()) =~= comma_joined(front)
            + seq![0x2cu8] + items.last());
    }
}

/// Evaluates one part of a bracketed component and appends what it adds to
/// the list that is being written out. Says whether it added anything.
fn gather_part(out: &mut Vec<u8>, first: bool, b: &[u8], lo: usize, hi: usize, comp: &[u8], part: &[u8]) -> (added: bool)
    requires
        lo <= hi <= b@.len(),
        comp@.len() > 0,
    ensures
        final(out)@ == old(out)@ + separated(first, part_items(b@, lo as int, hi as int, comp@, part@)),
        added == (part_items(b@, lo as int, hi as int, comp@, part@).len() > 0),
    decreases comp@.len(), 0nat, 0int,
{
    let n = comp.len();
    let ghost items = part_items(b@, lo as int, hi as int, comp@, part@);
    proof {
        lemma_part_items_unfold(b@, lo as int, hi as int, comp@, part@);
        lemma_separated_one(first, items);
    }
    if part.len() >= n {
        proof {
            assert(out@ =~= old(out)@ + Seq::<u8>::empty());
        }
        false
    } else if comp[0] == 0x5b {
        let r = eval_at(b, lo, hi, part);
        if r.kind != Kind::NotPresent {
            push_found(out, first, b, &r);
        } else {
            let null: [u8; 4] = [0x6eu8, 0x75u8, 0x6cu8, 0x6cu8];
            proof {
                assert(null@ =~= word_null());
                assert(null@.subrange(0, 4) =~= null@);
            }
            push_item(out, first, &null, 0, 4);
        }
        true
    } else {
        let k0 = find_top(part, 0, Stop::NameEnd);
        let k: usize = if 0 < k0 && k0 < part.len() && part[k0] == 0x3a { k0 } else { 0 };
        let sub = if 0 < k && k < part.len() {
            vstd::slice::slice_subrange(part, k + 1, part.len())
        } else {
            part
        };
        if sub.len() < n {
            let r = eval_at(b, lo, hi, sub);
            if r.kind != Kind::NotPresent {
                let mut item: Vec<u8> = Vec::new();
                push_part_key(&mut item, part);
                item.push(0x3a);
                match &r.owned {
                    Some(v) => {
                        append_all(&mut item, v.as_slice());
                    },
                    None => {
                        append(&mut item, b, r.lo, r.hi);
                    },
                }
                let len = item.len();
                proof {
                    assert(item@ =~= part_key(part@) + seq![0x3au8] + r.outcome(b@).text);
                    assert(item@.subrange(0, len as int) =~= item@);
                }
                push_item(out, first, item.as_slice(), 0, len);
                return true;
            }
        }
        proof {
            assert(out@ =~= old(out)@ + Seq::<u8>::empty());
        }
        false
    }
}

/// Appends what the parts of `comp` from position `p` on add to the list that
/// is being written out.
fn gather_into(out: &mut Vec<u8>, first: bool, b: &[u8], lo: usize, hi: usize, comp: &[u8], p: usize)
    requires
        lo <= hi <= b@.len(),
        comp@.len() > 0,
    ensures
        final(out)@ == old(out)@ + separated(
            first,
            gather_from(b@, lo as int, hi as int, comp@, p as int),
        ),
    decreases comp@.len(), 0nat, comp@.len() - p,
{
    proof {
        lemma_gather_from_unfold(b@, lo as int, hi as int, comp@, p as int);
    }
    let n = comp.len();
    let end: usize = if n >= 2 && (comp[n - 1] == 0x5d || comp[n - 1] == 0x7d || comp[n - 1]
        == 0x29) {
        n - 1
    } else {
        n
    };
    if p < 1 || p >= end {
        proof {
            assert(out@ =~= old(out)@ + separated(first, Seq::<Seq<u8>>::empty()));
        }
        return ;
    }
    let c0 = find_top(comp, p, Stop::Comma);
    let c: usize = if c0 < end { c0 } else { end };
    let a = trim_start(comp, p, c);
    let z = trim_end(comp, a, c);
    let part = vstd::slice::slice_subrange(comp, a, z);
    let ghost head = part_items(b@, lo as int, hi as int, comp@, part@);
    let ghost tail = if c < n {
        gather_from(b@, lo as int, hi as int, comp@, c + 1)
    } else {
        Seq::<Seq<u8>>::empty()
    };
    let added = gather_part(out, first, b, lo, hi, comp, part);
    let ghost mid = out@;
    proof {
        lemma_separated_concat(first, head, tail);
    }
    if c < n {
        gather_into(out, first && !added, b, lo, hi, comp, c + 1);
        proof {
            assert(out@ =~= old(out)@ + (separated(first, head) + separated(
                first && head.len() == 0,
                tail,
            )));
        }
    } else {
        proof {
            assert(out@ =~= old(out)@ + (separated(first, head) + separated(
                first && head.len() == 0,
                tail,
            )));
        }
    }
}

/// Builds the array or object that a bracketed component asks for.
pub fn gather(b: &[u8], lo: usize, hi: usize, comp: &[u8]) -> (r: Found)
    requires
        lo <= hi <= b@.len(),
    ensures
        r.outcome(b@) == gathered(b@, lo as int, hi as int, comp@),
        r.fits(b@.len() as int),
    decreases comp@.len(), 1nat, 0int,
{
    proof {
        lemma_gathered_unfold(b@, lo as int, hi as int, comp@);
    }
    if comp.len() == 0 {
        return none_found();
    }
    let array = comp[0] == 0x5b;
    let mut out: Vec<u8> = Vec::new();
    out.push(if array { 0x5b } else { 0x7b });
    let ghost items = gather_from(b@, lo as int, hi as int, comp@, 1);
    gather_into(&mut out, true, b, lo, hi, comp, 1);
    out.push(if array { 0x5d } else { 0x7d });
    proof {
        lemma_separated_is_joined(items);
        if array {
            assert(out@ =~= array_text(items));
        } else {
            assert(out@ =~= object_text(items));
        }
    }
    found_made(out)
}

/// Evaluates a path against a JSON text.
pub fn get_found(b: &[u8], path: &[u8]) -> (r: Found)
    ensures
        r.outcome(b@) == get_spec(b@, path@),
        r.fits(b@.len() as int),
{
    let m = path.len();
    if m >= 2 && path[0] == 0x2e && path[1] == 0x2e {
        array_step(b, 0, vstd::slice::slice_subrange(path, 2, m))
    } else {
        eval_at(b, 0, b.len(), path)
    }
}

} // verus!
