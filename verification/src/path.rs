//! The path language: splitting a path into segments.
//!
//! A path is a chain of components separated by `.` or `|`. Splitting is purely
//! lexical; whether a segment makes sense for the value it meets is decided
//! when the path is evaluated.

use vstd::prelude::*;
use crate::scan::{lemma_value_end_bounds, skip_value, value_end};
use crate::text::{all_digits, digits_only};

verus! {

/// What a path component asks for.
#[derive(Clone, Copy, Debug, PartialEq, Eq, Structural)]
pub enum SegKind {
    /// An object field by name.
    Key,
    /// A component made of digits: an array position, or a field whose name is
    /// that number.
    Index,
    /// A field by wildcard pattern.
    Wildcard,
    /// `#` before a dot: the rest applies to every element.
    ArrayAll,
    /// `#` at the end or before a pipe: the number of elements.
    ArrayLen,
    /// `#(...)`: the first element that passes the test.
    Query,
    /// `#(...)#`: every element that passes the test.
    QueryAll,
    /// `[...]`: several paths, gathered in an array.
    ArrayForm,
    /// `{...}`: several paths, gathered in an object.
    ObjectForm,
    /// `@name` or `@name:argument`.
    Modifier,
}

/// One component of a path, by positions in the path text.
///
/// `lo..hi` is the component. `mid` splits it where it has two parts: for a
/// modifier it is the end of the name, for a query the end of the bracketed
/// test; otherwise it equals `hi`. `next` is where the rest of the path starts,
/// and `piped` says that the separator before the rest is `|`.
#[derive(Clone, Copy, Debug, PartialEq, Eq, Structural)]
pub struct Segment {
    pub kind: SegKind,
    pub lo: usize,
    pub mid: usize,
    pub hi: usize,
    pub next: usize,
    pub piped: bool,
}

/// The two separators of a path: dot and pipe.
pub open spec fn is_sep(c: u8) -> bool {
    c == 0x2e || c == 0x7c
}

/// The first unescaped separator at or after `i`, or the end of the path.
pub open spec fn key_end(p: Seq<u8>, i: int) -> int
    decreases p.len() - i,
{
    if i < 0 || i >= p.len() {
        p.len() as int
    } else if is_sep(p[i]) {
        i
    } else if p[i] == 0x5c {
        if i + 1 < p.len() {
            key_end(p, i + 2)
        } else {
            p.len() as int
        }
    } else {
        key_end(p, i + 1)
    }
}

/// True if an unescaped `*` or `?` stands in `p[i..hi]`.
pub open spec fn wild_in(p: Seq<u8>, i: int, hi: int) -> bool
    decreases hi - i,
{
    if i < 0 || i >= hi || i >= p.len() {
        false
    } else if p[i] == 0x5c {
        if i + 1 < hi {
            wild_in(p, i + 2, hi)
        } else {
            false
        }
    } else if p[i] == 0x2a || p[i] == 0x3f {
        true
    } else {
        wild_in(p, i + 1, hi)
    }
}

/// The first separator at or after `i`, escaped or not, or the end of the path.
pub open spec fn plain_end(p: Seq<u8>, i: int) -> int
    decreases p.len() - i,
{
    if i < 0 || i >= p.len() {
        p.len() as int
    } else if is_sep(p[i]) {
        i
    } else {
        plain_end(p, i + 1)
    }
}

/// The end of a modifier's name: the first `:` or separator at or after `i`.
pub open spec fn name_end(p: Seq<u8>, i: int) -> int
    decreases p.len() - i,
{
    if i < 0 || i >= p.len() {
        p.len() as int
    } else if is_sep(p[i]) || p[i] == 0x3a {
        i
    } else {
        name_end(p, i + 1)
    }
}

/// Bytes that open a group in a path.
pub open spec fn is_group_open(c: u8) -> bool {
    c == 0x5b || c == 0x7b || c == 0x28
}

/// Bytes that close a group in a path.
pub open spec fn is_group_close(c: u8) -> bool {
    c == 0x5d || c == 0x7d || c == 0x29
}

/// With `i` inside a bracketed group of a path at nesting `depth`, the position
/// just after the bracket that closes the outermost level. Round, square and
/// curly brackets nest; brackets inside quotes do not count; a backslash
/// protects the byte after it. An unclosed group ends with the path.
pub open spec fn nest_end(p: Seq<u8>, i: int, depth: nat, in_str: bool) -> int
    decreases p.len() - i,
{
    if i < 0 || i >= p.len() {
        p.len() as int
    } else if p[i] == 0x5c {
        if i + 1 < p.len() {
            nest_end(p, i + 2, depth, in_str)
        } else {
            p.len() as int
        }
    } else if p[i] == 0x22 {
        nest_end(p, i + 1, depth, !in_str)
    } else if in_str {
        nest_end(p, i + 1, depth, true)
    } else if is_group_open(p[i]) {
        nest_end(p, i + 1, depth + 1, false)
    } else if is_group_close(p[i]) {
        if depth <= 1 {
            i + 1
        } else {
            nest_end(p, i + 1, (depth - 1) as nat, false)
        }
    } else {
        nest_end(p, i + 1, depth, false)
    }
}

/// Where the argument of a modifier ends; `a` is the position after the colon.
/// An argument that starts as a JSON string, array or object runs to the end
/// of that value, any other to the next separator.
pub open spec fn arg_end(p: Seq<u8>, a: int) -> int {
    if 0 <= a < p.len() && (p[a] == 0x22 || p[a] == 0x5b || p[a] == 0x7b) {
        value_end(p, a)
    } else {
        plain_end(p, a)
    }
}

/// The kind of the component `p[0..hi]` when it starts with none of `@ [ { #`.
pub open spec fn key_kind(p: Seq<u8>, hi: int) -> SegKind {
    if wild_in(p, 0, hi) {
        SegKind::Wildcard
    } else if hi > 0 && all_digits(p.subrange(0, hi)) {
        SegKind::Index
    } else {
        SegKind::Key
    }
}

/// The component without what follows it: its kind, `mid` and `hi`.
#[verifier::opaque]
pub open spec fn component(p: Seq<u8>) -> (SegKind, int, int) {
    if p.len() == 0 {
        (SegKind::Key, 0, 0)
    } else if p[0] == 0x40 {
        let ne = name_end(p, 1);
        if ne < p.len() && p[ne] == 0x3a {
            (SegKind::Modifier, ne, arg_end(p, ne + 1))
        } else {
            (SegKind::Modifier, ne, ne)
        }
    } else if p[0] == 0x5b {
        let e = nest_end(p, 1, 1, false);
        (SegKind::ArrayForm, e, e)
    } else if p[0] == 0x7b {
        let e = nest_end(p, 1, 1, false);
        (SegKind::ObjectForm, e, e)
    } else if p[0] == 0x23 {
        if p.len() > 1 && p[1] == 0x28 {
            let e = nest_end(p, 2, 1, false);
            if e < p.len() && p[e] == 0x23 {
                (SegKind::QueryAll, e, e + 1)
            } else {
                (SegKind::Query, e, e)
            }
        } else if p.len() > 1 && p[1] == 0x2e {
            (SegKind::ArrayAll, 1, 1)
        } else {
            (SegKind::ArrayLen, 1, 1)
        }
    } else {
        let e = key_end(p, 0);
        (key_kind(p, e), e, e)
    }
}

/// The first segment of a path.
pub open spec fn first_segment(p: Seq<u8>) -> Segment {
    let (kind, mid, hi) = component(p);
    let sep = 0 <= hi < p.len() && is_sep(p[hi]);
    Segment {
        kind,
        lo: 0,
        mid: mid as usize,
        hi: hi as usize,
        next: (if sep { hi + 1 } else { hi }) as usize,
        piped: sep && p[hi] == 0x7c,
    }
}

/// The same segment, moved `by` positions to the right.
pub open spec fn shifted(s: Segment, by: int) -> Segment {
    Segment {
        kind: s.kind,
        lo: (s.lo + by) as usize,
        mid: (s.mid + by) as usize,
        hi: (s.hi + by) as usize,
        next: (s.next + by) as usize,
        piped: s.piped,
    }
}

/// The rest of the path behind its first segment.
pub open spec fn rest_of(p: Seq<u8>) -> Seq<u8> {
    let s = first_segment(p);
    if 1 <= s.next <= p.len() {
        p.subrange(s.next as int, p.len() as int)
    } else {
        Seq::empty()
    }
}

/// All segments of the path from position `off` on, in order.
pub open spec fn segments_from(p: Seq<u8>, off: int) -> Seq<Segment>
    decreases p.len() - off,
{
    if off < 0 || off >= p.len() {
        Seq::empty()
    } else {
        let s = first_segment(p.subrange(off, p.len() as int));
        if 1 <= s.next <= p.len() - off {
            seq![shifted(s, off)] + segments_from(p, off + s.next)
        } else {
            seq![shifted(s, off)]
        }
    }
}

/// All segments of a path.
pub open spec fn segments(p: Seq<u8>) -> Seq<Segment> {
    segments_from(p, 0)
}

/// The position of the first pipe that separates two segments of `p`, or the
/// length of `p` where there is none.
pub open spec fn pipe_at(p: Seq<u8>) -> int
    decreases p.len(),
{
    if p.len() == 0 {
        0
    } else {
        let s = first_segment(p);
        if s.piped {
            s.hi as int
        } else if 1 <= s.next <= p.len() {
            s.next + pipe_at(p.subrange(s.next as int, p.len() as int))
        } else {
            p.len() as int
        }
    }
}

/// The part of a path before its first pipe.
pub open spec fn before_pipe(p: Seq<u8>) -> Seq<u8> {
    let k = pipe_at(p);
    if 0 <= k <= p.len() {
        p.subrange(0, k)
    } else {
        p
    }
}

/// The part of a path behind its first pipe; empty where there is none.
pub open spec fn after_pipe(p: Seq<u8>) -> Seq<u8> {
    let k = pipe_at(p);
    if 0 <= k < p.len() {
        p.subrange(k + 1, p.len() as int)
    } else {
        Seq::empty()
    }
}

/// A key ends inside the path, at a separator or at the end.
pub proof fn lemma_key_end_bounds(p: Seq<u8>, i: int)
    requires
        0 <= i <= p.len(),
    ensures
        i <= key_end(p, i) <= p.len(),
        key_end(p, i) < p.len() ==> is_sep(p[key_end(p, i)]),
    decreases p.len() - i,
{
    if i < p.len() && !is_sep(p[i]) {
        if p[i] == 0x5c {
            if i + 1 < p.len() {
                lemma_key_end_bounds(p, i + 2);
            }
        } else {
            lemma_key_end_bounds(p, i + 1);
        }
    }
}

/// The next separator is not before the cursor nor behind the end.
pub proof fn lemma_plain_end_bounds(p: Seq<u8>, i: int)
    requires
        0 <= i <= p.len(),
    ensures
        i <= plain_end(p, i) <= p.len(),
    decreases p.len() - i,
{
    if i < p.len() && !is_sep(p[i]) {
        lemma_plain_end_bounds(p, i + 1);
    }
}

/// A name ends inside the path.
pub proof fn lemma_name_end_bounds(p: Seq<u8>, i: int)
    requires
        0 <= i <= p.len(),
    ensures
        i <= name_end(p, i) <= p.len(),
    decreases p.len() - i,
{
    if i < p.len() && !(is_sep(p[i]) || p[i] == 0x3a) {
        lemma_name_end_bounds(p, i + 1);
    }
}

/// A group ends inside the path.
pub proof fn lemma_nest_end_bounds(p: Seq<u8>, i: int, depth: nat, in_str: bool)
    requires
        0 <= i <= p.len(),
    ensures
        i <= nest_end(p, i, depth, in_str) <= p.len(),
    decreases p.len() - i,
{
    if i < p.len() {
        if p[i] == 0x5c {
            if i + 1 < p.len() {
                lemma_nest_end_bounds(p, i + 2, depth, in_str);
            }
        } else if p[i] == 0x22 {
            lemma_nest_end_bounds(p, i + 1, depth, !in_str);
        } else if in_str {
            lemma_nest_end_bounds(p, i + 1, depth, true);
        } else if is_group_open(p[i]) {
            lemma_nest_end_bounds(p, i + 1, depth + 1, false);
        } else if is_group_close(p[i]) {
            if depth > 1 {
                lemma_nest_end_bounds(p, i + 1, (depth - 1) as nat, false);
            }
        } else {
            lemma_nest_end_bounds(p, i + 1, depth, false);
        }
    }
}

/// The first segment of a path that is not empty lies inside the path, and the
/// rest starts after at least one byte.
pub proof fn lemma_first_segment_bounds(p: Seq<u8>)
    requires
        0 < p.len() <= usize::MAX,
    ensures
        first_segment(p).lo == 0,
        first_segment(p).mid <= first_segment(p).hi <= first_segment(p).next <= p.len(),
        1 <= first_segment(p).next,
        first_segment(p).hi == component(p).2,
        first_segment(p).mid == component(p).1,
{
    reveal(component);
    let (kind, mid, hi) = component(p);
    if p[0] == 0x40 {
        lemma_name_end_bounds(p, 1);
        let ne = name_end(p, 1);
        if ne < p.len() && p[ne] == 0x3a {
            if ne + 1 < p.len() && (p[ne + 1] == 0x22 || p[ne + 1] == 0x5b || p[ne + 1] == 0x7b) {
                lemma_value_end_bounds(p, ne + 1);
            } else {
                lemma_plain_end_bounds(p, ne + 1);
            }
        }
    } else if p[0] == 0x5b || p[0] == 0x7b {
        lemma_nest_end_bounds(p, 1, 1, false);
    } else if p[0] == 0x23 {
        if p.len() > 1 && p[1] == 0x28 {
            lemma_nest_end_bounds(p, 2, 1, false);
        }
    } else {
        lemma_key_end_bounds(p, 0);
    }
}

/// Tests whether a byte is a separator of a path.
pub fn sep(c: u8) -> (r: bool)
    ensures
        r == is_sep(c),
{
    c == 0x2e || c == 0x7c
}

/// Finds the end of a key component.
pub fn scan_key(p: &[u8], start: usize) -> (r: usize)
    requires
        start <= p@.len(),
    ensures
        r == key_end(p@, start as int),
        start <= r <= p@.len(),
{
    let n = p.len();
    let mut i: usize = start;
    let mut done = false;
    while !done
        invariant
            n == p@.len(),
            start <= i <= n,
            !done ==> key_end(p@, start as int) == key_end(p@, i as int),
            done ==> key_end(p@, start as int) == i,
        decreases n - i + (if done { 0int } else { 1int }),
    {
        if i >= n {
            done = true;
        } else if sep(p[i]) {
            done = true;
        } else if p[i] == 0x5c {
            if n - i > 1 {
                i += 2;
            } else {
                i = n;
                done = true;
            }
        } else {
            i += 1;
        }
    }
    i
}

/// Looks for an unescaped `*` or `?` in `p[start..hi]`.
pub fn has_wildcard(p: &[u8], start: usize, hi: usize) -> (r: bool)
    requires
        start <= hi <= p@.len(),
    ensures
        r == wild_in(p@, start as int, hi as int),
{
    let mut i: usize = start;
    while i < hi
        invariant
            start <= i,
            hi <= p@.len(),
            wild_in(p@, start as int, hi as int) == wild_in(p@, i as int, hi as int),
        decreases hi - i,
    {
        if p[i] == 0x5c {
            if hi - i > 1 {
                i += 2;
            } else {
                return false;
            }
        } else if p[i] == 0x2a || p[i] == 0x3f {
            return true;
        } else {
            i += 1;
        }
    }
    false
}

/// Finds the next separator, escaped or not.
pub fn scan_plain(p: &[u8], start: usize) -> (r: usize)
    requires
        start <= p@.len(),
    ensures
        r == plain_end(p@, start as int),
        start <= r <= p@.len(),
{
    let mut i: usize = start;
    while i < p.len() && !sep(p[i])
        invariant
            start <= i <= p@.len(),
            plain_end(p@, start as int) == plain_end(p@, i as int),
        decreases p@.len() - i,
    {
        i += 1;
    }
    i
}

/// Finds the end of a modifier's name.
pub fn scan_name(p: &[u8], start: usize) -> (r: usize)
    requires
        start <= p@.len(),
    ensures
        r == name_end(p@, start as int),
        start <= r <= p@.len(),
{
    let mut i: usize = start;
    while i < p.len() && !(sep(p[i]) || p[i] == 0x3a)
        invariant
            start <= i <= p@.len(),
            name_end(p@, start as int) == name_end(p@, i as int),
        decreases p@.len() - i,
    {
        i += 1;
    }
    i
}

/// Finds the end of a bracketed group whose opening bracket stands before
/// `start`.
pub fn scan_group(p: &[u8], start: usize) -> (r: usize)
    requires
        1 <= start <= p@.len(),
    ensures
        r == nest_end(p@, start as int, 1, false),
        start <= r <= p@.len(),
{
    let n = p.len();
    let mut i: usize = start;
    let mut depth: usize = 1;
    let mut in_str = false;
    let mut done = false;
    while !done
        invariant
            n == p@.len(),
            1 <= start <= i <= n,
            1 <= depth <= 1 + (i - start),
            !done ==> nest_end(p@, start as int, 1, false) == nest_end(
                p@,
                i as int,
                depth as nat,
                in_str,
            ),
            done ==> nest_end(p@, start as int, 1, false) == i,
        decreases n - i + (if done { 0int } else { 1int }),
    {
        if i >= n {
            done = true;
        } else {
            let c = p[i];
            if c == 0x5c {
                if n - i > 1 {
                    i += 2;
                } else {
                    i = n;
                    done = true;
                }
            } else if c == 0x22 {
                in_str = !in_str;
                i += 1;
            } else if in_str {
                i += 1;
            } else if c == 0x5b || c == 0x7b || c == 0x28 {
                depth += 1;
                i += 1;
            } else if c == 0x5d || c == 0x7d || c == 0x29 {
                i += 1;
                if depth <= 1 {
                    done = true;
                } else {
                    depth -= 1;
                }
            } else {
                i += 1;
            }
        }
    }
    i
}

/// Reads the first segment of a path that is not empty.
pub fn parse_segment(p: &[u8]) -> (s: Segment)
    requires
        p@.len() > 0,
    ensures
        s == first_segment(p@),
        s.lo == 0,
        s.mid <= s.hi <= s.next <= p@.len(),
        1 <= s.next,
        s.kind == SegKind::Modifier ==> 1 <= s.mid,
        s.kind == SegKind::Query || s.kind == SegKind::QueryAll ==> 2 <= s.mid,
        s.kind == SegKind::Index ==> all_digits(p@.subrange(0, s.hi as int)),
{
    let n = p.len();
    proof {
        reveal(component);
        lemma_first_segment_bounds(p@);
    }
    let c = p[0];
    let kind: SegKind;
    let mid: usize;
    let hi: usize;
    if c == 0x40 {
        kind = SegKind::Modifier;
        mid = scan_name(p, 1);
        if mid < n && p[mid] == 0x3a {
            let a: usize = mid + 1;
            if a < n && (p[a] == 0x22 || p[a] == 0x5b || p[a] == 0x7b) {
                hi = skip_value(p, a).1;
            } else {
                hi = scan_plain(p, a);
            }
        } else {
            hi = mid;
        }
    } else if c == 0x5b {
        kind = SegKind::ArrayForm;
        mid = scan_group(p, 1);
        hi = mid;
    } else if c == 0x7b {
        kind = SegKind::ObjectForm;
        mid = scan_group(p, 1);
        hi = mid;
    } else if c == 0x23 {
        if n > 1 && p[1] == 0x28 {
            mid = scan_group(p, 2);
            if mid < n && p[mid] == 0x23 {
                kind = SegKind::QueryAll;
                hi = mid + 1;
            } else {
                kind = SegKind::Query;
                hi = mid;
            }
        } else if n > 1 && p[1] == 0x2e {
            kind = SegKind::ArrayAll;
            mid = 1;
            hi = 1;
        } else {
            kind = SegKind::ArrayLen;
            mid = 1;
            hi = 1;
        }
    } else {
        hi = scan_key(p, 0);
        mid = hi;
        if has_wildcard(p, 0, hi) {
            kind = SegKind::Wildcard;
        } else if hi > 0 && digits_only(p, 0, hi) {
            kind = SegKind::Index;
        } else {
            kind = SegKind::Key;
        }
    }
    let is_sep_here = hi < n && sep(p[hi]);
    let next: usize = if is_sep_here { hi + 1 } else { hi };
    let piped = is_sep_here && p[hi] == 0x7c;
    Segment { kind, lo: 0, mid, hi, next, piped }
}

/// Splits a path into its segments.
pub fn parse_path(p: &[u8]) -> (r: Vec<Segment>)
    ensures
        r@ == segments(p@),
{
    let n = p.len();
    let mut out: Vec<Segment> = Vec::new();
    let mut off: usize = 0;
    while off < n
        invariant
            n == p@.len(),
            off <= n,
            segments(p@) == out@ + segments_from(p@, off as int),
        decreases n - off,
    {
        let tail = vstd::slice::slice_subrange(p, off, n);
        let s = parse_segment(tail);
        let moved = Segment {
            kind: s.kind,
            lo: s.lo + off,
            mid: s.mid + off,
            hi: s.hi + off,
            next: s.next + off,
            piped: s.piped,
        };
        proof {
            assert(moved == shifted(s, off as int));
            assert(out@ + (seq![moved] + segments_from(p@, off + s.next)) =~= out@.push(moved)
                + segments_from(p@, off + s.next));
        }
        out.push(moved);
        off = off + s.next;
    }
    proof {
        assert(out@ + Seq::<Segment>::empty() =~= out@);
    }
    out
}

/// Finds the first pipe that separates two segments.
pub fn find_pipe(p: &[u8]) -> (r: usize)
    ensures
        r == pipe_at(p@),
        r <= p@.len(),
{
    let n = p.len();
    let mut off: usize = 0;
    proof {
        assert(p@.subrange(0, n as int) =~= p@);
    }
    while off < n
        invariant
            n == p@.len(),
            off <= n,
            pipe_at(p@) == off + pipe_at(p@.subrange(off as int, n as int)),
        decreases n - off,
    {
        let tail = vstd::slice::slice_subrange(p, off, n);
        let s = parse_segment(tail);
        if s.piped {
            return off + s.hi;
        }
        proof {
            assert(tail@.subrange(s.next as int, tail@.len() as int) =~= p@.subrange(
                off + s.next,
                n as int,
            ));
        }
        off = off + s.next;
    }
    proof {
        assert(p@.subrange(n as int, n as int).len() == 0);
    }
    n
}

} // verus!
