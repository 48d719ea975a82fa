//! Mutation: deleting the value that a path leads to, replacing it, and
//! creating it where it is missing. Every operation reads a JSON text and
//! writes a new one; the bytes outside the touched range stay as they are.

use vstd::prelude::*;
use crate::found::{first_true, key_hits, key_matches, lemma_first_true};
use crate::path::{first_segment, parse_segment, rest_of, SegKind, Segment};
use crate::scan::{
    collect_members,
    element_in,
    kind_at,
    kind_of,
    lemma_comma_within_seps,
    lemma_member_follows,
    lemma_skip_seps_bounds,
    members,
    skip_separators,
    skip_seps,
    skip_whitespace,
    skip_ws,
    Element,
    Kind,
};
use crate::text::{
    all_digits,
    append,
    append_all,
    digits_value,
    path_unescape,
    read_digits,
    unescape_path,
};
use crate::valid::{check_value, is_valid, strict_value_end, valid_bytes};

verus! {

/// Why a mutation did not take place.
#[derive(Clone, Copy, Debug, PartialEq, Eq, Structural)]
pub enum MutateError {
    /// The path leads to no value.
    PathNotFound,
    /// The path is empty or uses more than keys and indexes separated by dots.
    PathInvalid,
    /// The text to change is not valid JSON.
    JsonInvalid,
    /// The path asks for a member of a value that is no object or array, or
    /// for a key in an array.
    TypeMismatch,
}

/// Where a path leads: member `k` of the container whose walk starts at
/// `start`.
pub struct Slot {
    pub start: int,
    pub object: bool,
    pub k: int,
}

/// How far a path leads.
pub enum Walk {
    /// To a member.
    At(Slot),
    /// Into the container whose walk starts at `start`, which has no member
    /// for the segment that starts at `off` in the path.
    Missing { start: int, object: bool, off: int },
    /// Nowhere.
    Fail(MutateError),
}

/// A segment that mutation follows: a key or an index, not behind a pipe.
pub open spec fn step_ok(s: Segment) -> bool {
    (s.kind == SegKind::Key || s.kind == SegKind::Index) && !s.piped
}

/// The position among the members of a container of the one that the
/// component `comp` names: in an object the first member with that key, in an
/// array the element at that index.
pub open spec fn member_index(b: Seq<u8>, start: int, object: bool, kind: SegKind, comp: Seq<u8>) -> Option<int> {
    let ms = members(b, start, object);
    if object {
        let k = first_true(key_hits(b, ms, kind, comp), 0);
        if 0 <= k < ms.len() {
            Some(k)
        } else {
            None
        }
    } else {
        let n = digits_value(comp);
        if n < ms.len() {
            Some(n as int)
        } else {
            None
        }
    }
}

/// How far `path` leads from the value at `lo`.
#[verifier::opaque]
pub open spec fn walk(b: Seq<u8>, lo: int, path: Seq<u8>) -> Walk
    decreases path.len(),
{
    if path.len() == 0 {
        Walk::Fail(MutateError::PathInvalid)
    } else {
        let s = first_segment(path);
        let rest = rest_of(path);
        let v = skip_ws(b, lo);
        let k = kind_at(b, v);
        if !step_ok(s) || !(s.hi <= path.len() && rest.len() < path.len()) {
            Walk::Fail(MutateError::PathInvalid)
        } else if k != Kind::Object && k != Kind::Array {
            Walk::Fail(MutateError::TypeMismatch)
        } else if k == Kind::Array && s.kind != SegKind::Index {
            Walk::Fail(MutateError::TypeMismatch)
        } else {
            match member_index(b, v + 1, k == Kind::Object, s.kind, path.subrange(0, s.hi as int)) {
                None => Walk::Missing { start: v + 1, object: k == Kind::Object, off: 0 },
                Some(i) => if rest.len() == 0 {
                    Walk::At(Slot { start: v + 1, object: k == Kind::Object, k: i })
                } else {
                    match walk(b, members(b, v + 1, k == Kind::Object)[i].val_lo as int, rest) {
                        Walk::Missing { start, object, off } => Walk::Missing {
                            start,
                            object,
                            off: off + s.next,
                        },
                        w => w,
                    }
                },
            }
        }
    }
}

/// The member that a path leads to, or why it leads to none.
pub open spec fn locate(b: Seq<u8>, path: Seq<u8>) -> Result<Slot, MutateError> {
    match walk(b, 0, path) {
        Walk::At(slot) => Ok(slot),
        Walk::Missing { .. } => Err(MutateError::PathNotFound),
        Walk::Fail(e) => Err(e),
    }
}

/// The position behind the comma that follows `p`, whitespace skipped; behind
/// the whitespace where no comma follows.
pub open spec fn after_comma(b: Seq<u8>, p: int) -> int {
    let q = skip_ws(b, p);
    if 0 <= q < b.len() && b[q] == 0x2c {
        q + 1
    } else {
        q
    }
}

/// The range that leaves the text when the member at `slot` is deleted.
///
/// A sole member leaves with everything between the brackets. A member that
/// has one behind it leaves with all that stands between the separator before
/// it (the opening bracket or a comma) and the start of the next member. The
/// last member leaves with the comma before it: from the end of the member
/// before it to its own end.
pub open spec fn cut_range(b: Seq<u8>, slot: Slot) -> (int, int) {
    let ms = members(b, slot.start, slot.object);
    let k = slot.k;
    if ms.len() == 1 {
        (slot.start, skip_seps(b, ms[0].next as int))
    } else if k + 1 < ms.len() {
        (
            if k == 0 {
                slot.start
            } else {
                after_comma(b, ms[k - 1].val_hi as int)
            },
            ms[k + 1].key_lo as int,
        )
    } else {
        (ms[k - 1].val_hi as int, ms[k].val_hi as int)
    }
}

/// The text with the range `lo..hi` replaced by `v`.
pub open spec fn replaced(b: Seq<u8>, lo: int, hi: int, v: Seq<u8>) -> Seq<u8> {
    b.subrange(0, lo) + v + b.subrange(hi, b.len() as int)
}

/// The lower-case hexadecimal digit for a number below 16.
pub open spec fn hex_digit_of(n: int) -> u8 {
    if n < 10 {
        (0x30 + n) as u8
    } else {
        (0x61 + n - 10) as u8
    }
}

/// What one byte of a text becomes inside a JSON string: quote and backslash
/// get a backslash, control bytes become `\u00XX`, any other byte stays.
pub open spec fn escaped_byte(c: u8) -> Seq<u8> {
    if c == 0x22 || c == 0x5c {
        seq![0x5cu8, c]
    } else if c < 0x20 {
        seq![0x5cu8, 0x75u8, 0x30u8, 0x30u8, hex_digit_of(c as int / 16), hex_digit_of(c as int % 16)]
    } else {
        seq![c]
    }
}

/// The first `n` bytes of a text as they stand inside a JSON string.
pub open spec fn escaped_upto(v: Seq<u8>, n: int) -> Seq<u8>
    decreases n,
{
    if n <= 0 || n > v.len() {
        Seq::empty()
    } else {
        escaped_upto(v, n - 1) + escaped_byte(v[n - 1])
    }
}

/// A text as a JSON string.
pub open spec fn json_quoted(v: Seq<u8>) -> Seq<u8> {
    seq![0x22u8] + escaped_upto(v, v.len() as int) + seq![0x22u8]
}

/// The JSON text that stands for a new value: the value itself, without the
/// whitespace around it, where it is valid JSON, else the value as a JSON
/// string.
pub open spec fn replacement(v: Seq<u8>) -> Seq<u8> {
    if is_valid(v) {
        v.subrange(skip_ws(v, 0), strict_value_end(v, skip_ws(v, 0))->0)
    } else {
        json_quoted(v)
    }
}

/// `n` times `null,`.
pub open spec fn nulls(n: nat) -> Seq<u8>
    decreases n,
{
    if n == 0 {
        Seq::empty()
    } else {
        nulls((n - 1) as nat) + seq![0x6eu8, 0x75u8, 0x6cu8, 0x6cu8, 0x2cu8]
    }
}

/// The smallest JSON text in which `path` leads to `value`: an object with one
/// member for each key, an array padded with `null` for each index. `None`
/// where the path holds a segment that mutation does not follow or an index
/// beyond what the machine can count.
pub open spec fn fresh(path: Seq<u8>, value: Seq<u8>) -> Option<Seq<u8>>
    decreases path.len(),
{
    if path.len() == 0 {
        Some(replacement(value))
    } else {
        let s = first_segment(path);
        let rest = rest_of(path);
        if !step_ok(s) || !(s.hi <= path.len() && rest.len() < path.len()) {
            None
        } else {
            match fresh(rest, value) {
                None => None,
                Some(inner) => if s.kind == SegKind::Index {
                    let n = digits_value(path.subrange(0, s.hi as int));
                    if n > usize::MAX {
                        None
                    } else {
                        Some(seq![0x5bu8] + nulls(n) + inner + seq![0x5du8])
                    }
                } else {
                    Some(
                        seq![0x7bu8] + json_quoted(unescape_path(path.subrange(0, s.hi as int)))
                            + seq![0x3au8] + inner + seq![0x7du8],
                    )
                },
            }
        }
    }
}

/// The member that is put into a container of `count` members so that `path`
/// leads to `value`: in an object the key and the new text, in an array as
/// many `null` as it takes to reach the index, and the new text.
#[verifier::opaque]
pub open spec fn new_member(path: Seq<u8>, value: Seq<u8>, object: bool, count: nat) -> Option<Seq<u8>> {
    let s = first_segment(path);
    let rest = rest_of(path);
    if path.len() == 0 || !step_ok(s) || !(s.hi <= path.len() && rest.len() < path.len()) {
        None
    } else if !object && s.kind != SegKind::Index {
        None
    } else {
        match fresh(rest, value) {
            None => None,
            Some(inner) => if object {
                Some(json_quoted(unescape_path(path.subrange(0, s.hi as int))) + seq![0x3au8] + inner)
            } else {
                let n = digits_value(path.subrange(0, s.hi as int));
                if n > usize::MAX || n < count {
                    None
                } else {
                    Some(nulls((n - count) as nat) + inner)
                }
            },
        }
    }
}

/// What `delete_path` gives.
pub open spec fn delete_result(b: Seq<u8>, path: Seq<u8>) -> Result<Seq<u8>, MutateError> {
    if !is_valid(b) {
        Err(MutateError::JsonInvalid)
    } else {
        match locate(b, path) {
            Err(e) => Err(e),
            Ok(slot) => Ok(replaced(b, cut_range(b, slot).0, cut_range(b, slot).1, Seq::empty())),
        }
    }
}

/// The text with the value at `slot` replaced by the text that stands for
/// `value`.
pub open spec fn overwritten(b: Seq<u8>, slot: Slot, value: Seq<u8>) -> Seq<u8> {
    let e = members(b, slot.start, slot.object)[slot.k];
    replaced(b, e.val_lo as int, e.val_hi as int, replacement(value))
}

/// What `set_overwrite` gives.
pub open spec fn overwrite_result(b: Seq<u8>, path: Seq<u8>, value: Seq<u8>) -> Result<Seq<u8>, MutateError> {
    if !is_valid(b) {
        Err(MutateError::JsonInvalid)
    } else {
        match locate(b, path) {
            Err(e) => Err(e),
            Ok(slot) => Ok(overwritten(b, slot, value)),
        }
    }
}

/// The text with a new member put behind the last member of the container
/// whose walk starts at `start`.
pub open spec fn inserted(b: Seq<u8>, start: int, object: bool, member: Seq<u8>) -> Seq<u8> {
    let ms = members(b, start, object);
    if ms.len() == 0 {
        replaced(b, start, start, member)
    } else {
        replaced(b, ms.last().val_hi as int, ms.last().val_hi as int, seq![0x2cu8] + member)
    }
}

/// What `set` gives.
pub open spec fn set_result(b: Seq<u8>, path: Seq<u8>, value: Seq<u8>) -> Result<Seq<u8>, MutateError> {
    if !is_valid(b) {
        Err(MutateError::JsonInvalid)
    } else {
        match walk(b, 0, path) {
            Walk::Fail(e) => Err(e),
            Walk::At(slot) => Ok(overwritten(b, slot, value)),
            Walk::Missing { start, object, off } => if !(0 <= off <= path.len()) {
                Err(MutateError::PathInvalid)
            } else {
                match new_member(
                    path.subrange(off, path.len() as int),
                    value,
                    object,
                    members(b, start, object).len(),
                ) {
                    None => Err(MutateError::PathInvalid),
                    Some(m) => Ok(inserted(b, start, object, m)),
                }
            },
        }
    }
}

/// How far a path leads, in executable form.
pub enum Reached {
    At { start: usize, object: bool, k: usize, members: Vec<Element> },
    Missing { start: usize, object: bool, off: usize, members: Vec<Element> },
    Fail(MutateError),
}

impl Reached {
    /// What this stands for, and that it goes with the members of its
    /// container in `b`.
    pub open spec fn stands_for(&self, b: Seq<u8>, w: Walk) -> bool {
        match *self {
            Reached::At { start, object, k, members: ms } => w == Walk::At(
                Slot { start: start as int, object, k: k as int },
            ) && start <= b.len() && ms@ == members(b, start as int, object) && k < ms@.len(),
            Reached::Missing { start, object, off, members: ms } => w == (Walk::Missing {
                start: start as int,
                object,
                off: off as int,
            }) && start <= b.len() && ms@ == members(b, start as int, object),
            Reached::Fail(e) => w == Walk::Fail(e),
        }
    }
}

fn find_member(b: &[u8], ms: &Vec<Element>, object: bool, kind: SegKind, comp: &[u8]) -> (r: Option<usize>)
    requires
        forall|j: int| 0 <= j < ms@.len() ==> element_in(#[trigger] ms@[j], b@.len() as int),
        !object ==> kind == SegKind::Index && all_digits(comp@),
    ensures
        r matches Some(k) ==> k < ms@.len() && first_or_index(b@, ms@, object, kind, comp@)
            == Some(k as int),
        r is None ==> first_or_index(b@, ms@, object, kind, comp@) is None,
{
    let count = ms.len();
    if object {
        let ghost flags = key_hits(b@, ms@, kind, comp@);
        let mut k: usize = 0;
        while k < ms.len()
            invariant
                k <= ms@.len(),
                object,
                flags == key_hits(b@, ms@, kind, comp@),
                forall|j: int| 0 <= j < ms@.len() ==> element_in(#[trigger] ms@[j], b@.len() as int),
                forall|j: int| 0 <= j < k ==> !#[trigger] flags[j],
            decreases ms@.len() - k,
        {
            if key_matches(b, &ms[k], kind, comp) {
                proof {
                    lemma_first_true(flags, k as int);
                }
                return Some(k);
            }
            k += 1;
        }
        proof {
            lemma_first_true(flags, k as int);
            assert(first_or_index(b@, ms@, object, kind, comp@) is None);
        }
        None
    } else {
        let n = comp.len();
        proof {
            assert(comp@.subrange(0, n as int) =~= comp@);
        }
        let found = read_digits(comp, 0, n);
        proof {
            assert(comp@.subrange(0, n as int) == comp@);
        }
        match found {
            Some(i) => {
                assert(i == digits_value(comp@));
                if i < ms.len() {
                    Some(i)
                } else {
                    None
                }
            },
            None => None,
        }
    }
}

/// `member_index` on a list of members that is at hand.
pub open spec fn first_or_index(b: Seq<u8>, ms: Seq<Element>, object: bool, kind: SegKind, comp: Seq<u8>) -> Option<int> {
    if object {
        let k = first_true(key_hits(b, ms, kind, comp), 0);
        if 0 <= k < ms.len() {
            Some(k)
        } else {
            None
        }
    } else {
        let n = digits_value(comp);
        if n < ms.len() {
            Some(n as int)
        } else {
            None
        }
    }
}

/// Follows a path from the value at `lo`.
pub fn walk_path(b: &[u8], lo: usize, path: &[u8]) -> (r: Reached)
    requires
        lo <= b@.len(),
    ensures
        r.stands_for(b@, walk(b@, lo as int, path@)),
        r matches Reached::Missing { off, .. } ==> off <= path@.len(),
    decreases path@.len(),
{
    reveal(walk);
    let n = b.len();
    let m = path.len();
    if m == 0 {
        return Reached::Fail(MutateError::PathInvalid);
    }
    let s = parse_segment(path);
    let rest = vstd::slice::slice_subrange(path, s.next, m);
    let v = skip_whitespace(b, lo);
    let k = kind_of(b, v);
    let simple = match s.kind {
        SegKind::Key => true,
        SegKind::Index => true,
        _ => false,
    };
    if !simple || s.piped {
        return Reached::Fail(MutateError::PathInvalid);
    }
    let object = match k {
        Kind::Object => true,
        Kind::Array => false,
        _ => {
            return Reached::Fail(MutateError::TypeMismatch);
        },
    };
    if !object && s.kind != SegKind::Index {
        return Reached::Fail(MutateError::TypeMismatch);
    }
    let ms = collect_members(b, v + 1, object);
    let comp = vstd::slice::slice_subrange(path, 0, s.hi);
    match find_member(b, &ms, object, s.kind, comp) {
        None => Reached::Missing { start: v + 1, object, off: 0, members: ms },
        Some(i) => {
            if rest.len() == 0 {
                Reached::At { start: v + 1, object, k: i, members: ms }
            } else {
                match walk_path(b, ms[i].val_lo, rest) {
                    Reached::Missing { start, object, off, members } => Reached::Missing {
                        start,
                        object,
                        off: off + s.next,
                        members,
                    },
                    w => w,
                }
            }
        },
    }
}

/// Writes `b` with the range `lo..hi` replaced by `v`.
pub fn splice(b: &[u8], lo: usize, hi: usize, v: &[u8]) -> (r: Vec<u8>)
    requires
        lo <= hi <= b@.len(),
    ensures
        r@ == replaced(b@, lo as int, hi as int, v@),
{
    let mut out: Vec<u8> = Vec::new();
    append(&mut out, b, 0, lo);
    append_all(&mut out, v);
    append(&mut out, b, hi, b.len());
    proof {
        assert(out@ =~= replaced(b@, lo as int, hi as int, v@));
    }
    out
}

fn hex_digit_for(n: u8) -> (r: u8)
    requires
        n < 16,
    ensures
        r == hex_digit_of(n as int),
{
    if n < 10 {
        0x30 + n
    } else {
        0x61 + n - 10
    }
}

/// Appends a text as a JSON string.
pub fn push_json_quoted(out: &mut Vec<u8>, v: &[u8])
    ensures
        final(out)@ == old(out)@ + json_quoted(v@),
{
    out.push(0x22);
    let mut i: usize = 0;
    proof {
        assert(out@ =~= old(out)@ + seq![0x22u8] + escaped_upto(v@, 0));
    }
    while i < v.len()
        invariant
            i <= v@.len(),
            out@ == old(out)@ + seq![0x22u8] + escaped_upto(v@, i as int),
        decreases v@.len() - i,
    {
        let c = v[i];
        let ghost before = out@;
        if c == 0x22 || c == 0x5c {
            out.push(0x5c);
            out.push(c);
        } else if c < 0x20 {
            out.push(0x5c);
            out.push(0x75);
            out.push(0x30);
            out.push(0x30);
            out.push(hex_digit_for(c / 16));
            out.push(hex_digit_for(c % 16));
        } else {
            out.push(c);
        }
        proof {
            assert(out@ =~= before + escaped_byte(c));
            assert(out@ =~= old(out)@ + seq![0x22u8] + escaped_upto(v@, i + 1));
        }
        i += 1;
    }
    out.push(0x22);
    proof {
        assert(out@ =~= old(out)@ + json_quoted(v@));
    }
}

/// Appends the JSON text that stands for a new value.
pub fn push_replacement(out: &mut Vec<u8>, value: &[u8])
    ensures
        final(out)@ == old(out)@ + replacement(value@),
{
    let n = value.len();
    let p = skip_whitespace(value, 0);
    match check_value(value, p) {
        Some(e) => {
            if skip_whitespace(value, e) == n {
                append(out, value, p, e);
            } else {
                push_json_quoted(out, value);
            }
        },
        None => {
            push_json_quoted(out, value);
        },
    }
}

fn push_nulls(out: &mut Vec<u8>, n: usize)
    ensures
        final(out)@ == old(out)@ + nulls(n as nat),
{
    let mut k: usize = 0;
    proof {
        assert(out@ =~= old(out)@ + nulls(0));
    }
    while k < n
        invariant
            k <= n,
            out@ == old(out)@ + nulls(k as nat),
        decreases n - k,
    {
        out.push(0x6e);
        out.push(0x75);
        out.push(0x6c);
        out.push(0x6c);
        out.push(0x2c);
        k += 1;
        proof {
            assert(out@ =~= old(out)@ + nulls(k as nat));
        }
    }
}

/// Appends the smallest JSON text in which `path` leads to `value`. Gives
/// `false`, with `out` in no particular state, where there is none.
pub fn push_fresh(out: &mut Vec<u8>, path: &[u8], value: &[u8]) -> (ok: bool)
    ensures
        ok == (fresh(path@, value@) is Some),
        ok ==> final(out)@ == old(out)@ + fresh(path@, value@)->0,
    decreases path@.len(),
{
    let m = path.len();
    if m == 0 {
        push_replacement(out, value);
        return true;
    }
    let s = parse_segment(path);
    let rest = vstd::slice::slice_subrange(path, s.next, m);
    let simple = match s.kind {
        SegKind::Key => true,
        SegKind::Index => true,
        _ => false,
    };
    if !simple || s.piped {
        return false;
    }
    let ghost start = out@;
    if s.kind == SegKind::Index {
        let n: usize = match read_digits(path, 0, s.hi) {
            Some(n) => n,
            None => {
                return false;
            },
        };
        out.push(0x5b);
        push_nulls(out, n);
        let ghost mid = out@;
        if !push_fresh(out, rest, value) {
            return false;
        }
        out.push(0x5d);
        proof {
            assert(out@ =~= start + (seq![0x5bu8] + nulls(n as nat) + fresh(rest@, value@)->0
                + seq![0x5du8]));
        }
        true
    } else {
        out.push(0x7b);
        let key = path_unescape(vstd::slice::slice_subrange(path, 0, s.hi));
        push_json_quoted(out, key.as_slice());
        out.push(0x3a);
        if !push_fresh(out, rest, value) {
            return false;
        }
        out.push(0x7d);
        proof {
            assert(out@ =~= start + (seq![0x7bu8] + json_quoted(
                unescape_path(path@.subrange(0, s.hi as int)),
            ) + seq![0x3au8] + fresh(rest@, value@)->0 + seq![0x7du8]));
        }
        true
    }
}

/// Writes the member that is put into a container of `count` members so that
/// `path` leads to `value`.
pub fn make_member(path: &[u8], value: &[u8], object: bool, count: usize) -> (r: Option<Vec<u8>>)
    ensures
        match r {
            Some(m) => new_member(path@, value@, object, count as nat) == Some(m@),
            None => new_member(path@, value@, object, count as nat) is None,
        },
{
    reveal(new_member);
    let m = path.len();
    if m == 0 {
        return None;
    }
    let s = parse_segment(path);
    let rest = vstd::slice::slice_subrange(path, s.next, m);
    let simple = match s.kind {
        SegKind::Key => true,
        SegKind::Index => true,
        _ => false,
    };
    if !simple || s.piped {
        return None;
    }
    let mut out: Vec<u8> = Vec::new();
    if object {
        let key = path_unescape(vstd::slice::slice_subrange(path, 0, s.hi));
        push_json_quoted(&mut out, key.as_slice());
        out.push(0x3a);
        if !push_fresh(&mut out, rest, value) {
            return None;
        }
        proof {
            assert(out@ =~= json_quoted(unescape_path(path@.subrange(0, s.hi as int))) + seq![
                0x3au8,
            ] + fresh(rest@, value@)->0);
        }
        Some(out)
    } else {
        if s.kind != SegKind::Index {
            return None;
        }
        let n: usize = match read_digits(path, 0, s.hi) {
            Some(n) => n,
            None => {
                return None;
            },
        };
        if n < count {
            return None;
        }
        push_nulls(&mut out, n - count);
        if !push_fresh(&mut out, rest, value) {
            return None;
        }
        proof {
            assert(out@ =~= nulls((n - count) as nat) + fresh(rest@, value@)->0);
        }
        Some(out)
    }
}

/// Finds the range that leaves the text when member `k` is deleted.
fn find_cut(b: &[u8], start: usize, object: bool, k: usize, ms: &Vec<Element>) -> (r: (usize, usize))
    requires
        start <= b@.len(),
        ms@ == members(b@, start as int, object),
        k < ms@.len(),
    ensures
        r.0 == cut_range(b@, Slot { start: start as int, object, k: k as int }).0,
        r.1 == cut_range(b@, Slot { start: start as int, object, k: k as int }).1,
        r.0 <= r.1 <= b@.len(),
{
    let n = b.len();
    if ms.len() == 1 {
        proof {
            lemma_member_follows(b@, start as int, object, 0);
            lemma_skip_seps_bounds(b@, start as int);
            lemma_skip_seps_bounds(b@, ms@[0].next as int);
        }
        let hi = skip_separators(b, ms[0].next);
        (start, hi)
    } else if k + 1 < ms.len() {
        proof {
            lemma_member_follows(b@, start as int, object, k as int);
            lemma_member_follows(b@, start as int, object, k + 1);
            lemma_skip_seps_bounds(b@, ms@[k as int].next as int);
        }
        if k == 0 {
            proof {
                lemma_skip_seps_bounds(b@, start as int);
            }
            (start, ms[1].key_lo)
        } else {
            proof {
                lemma_member_follows(b@, start as int, object, k - 1);
                lemma_comma_within_seps(b@, ms@[k - 1].val_hi as int);
            }
            let q = skip_whitespace(b, ms[k - 1].val_hi);
            let lo: usize = if q < n && b[q] == 0x2c { q + 1 } else { q };
            (lo, ms[k + 1].key_lo)
        }
    } else {
        proof {
            lemma_member_follows(b@, start as int, object, k as int);
            lemma_member_follows(b@, start as int, object, k - 1);
            lemma_skip_seps_bounds(b@, ms@[k - 1].next as int);
        }
        (ms[k - 1].val_hi, ms[k].val_hi)
    }
}

/// Deletes the value that `path` leads to, with the separator that goes with
/// it.
pub fn delete_bytes(json: &[u8], path: &[u8]) -> (r: Result<Vec<u8>, MutateError>)
    ensures
        match r {
            Ok(s) => delete_result(json@, path@) == Ok::<Seq<u8>, MutateError>(s@),
            Err(e) => delete_result(json@, path@) == Err::<Seq<u8>, MutateError>(e),
        },
{
    if !valid_bytes(json) {
        return Err(MutateError::JsonInvalid);
    }
    match walk_path(json, 0, path) {
        Reached::Fail(e) => Err(e),
        Reached::Missing { .. } => Err(MutateError::PathNotFound),
        Reached::At { start, object, k, members: ms } => {
            let (lo, hi) = find_cut(json, start, object, k, &ms);
            let none: [u8; 0] = [];
            proof {
                assert(none@ =~= Seq::<u8>::empty());
            }
            Ok(splice(json, lo, hi, &none))
        },
    }
}

/// Writes `json` with the value of member `k` replaced by the text that
/// stands for `value`.
fn overwrite_member(json: &[u8], start: usize, object: bool, k: usize, ms: &Vec<Element>, value: &[u8]) -> (r: Vec<u8>)
    requires
        start <= json@.len(),
        ms@ == members(json@, start as int, object),
        k < ms@.len(),
    ensures
        r@ == overwritten(json@, Slot { start: start as int, object, k: k as int }, value@),
{
    let n = json.len();
    proof {
        lemma_member_follows(json@, start as int, object, k as int);
    }
    let e = ms[k];
    let mut text: Vec<u8> = Vec::new();
    push_replacement(&mut text, value);
    proof {
        assert(text@ =~= replacement(value@));
    }
    splice(json, e.val_lo, e.val_hi, text.as_slice())
}

/// Replaces the value that `path` leads to by the text that stands for
/// `value`.
pub fn set_overwrite_bytes(json: &[u8], path: &[u8], value: &[u8]) -> (r: Result<
    Vec<u8>,
    MutateError,
>)
    ensures
        match r {
            Ok(s) => overwrite_result(json@, path@, value@) == Ok::<Seq<u8>, MutateError>(s@),
            Err(e) => overwrite_result(json@, path@, value@) == Err::<Seq<u8>, MutateError>(e),
        },
        r matches Ok(s) ==> is_valid(s@),
{
    if !valid_bytes(json) {
        return Err(MutateError::JsonInvalid);
    }
    let n = json.len();
    match walk_path(json, 0, path) {
        Reached::Fail(e) => Err(e),
        Reached::Missing { .. } => Err(MutateError::PathNotFound),
        Reached::At { start, object, k, members: ms } => {
            proof {
                crate::splice::lemma_replacement_strict(value@);
                crate::splice::lemma_overwrite_valid(json@, path@, replacement(value@));
            }
            Ok(overwrite_member(json, start, object, k, &ms, value))
        },
    }
}

/// Puts a new member behind the last member of a container.
fn insert_member(json: &[u8], start: usize, object: bool, ms: &Vec<Element>, member: &[u8]) -> (r: Vec<u8>)
    requires
        start <= json@.len(),
        ms@ == members(json@, start as int, object),
    ensures
        r@ == inserted(json@, start as int, object, member@),
{
    let n = json.len();
    if ms.len() == 0 {
        splice(json, start, start, member)
    } else {
        proof {
            lemma_member_follows(json@, start as int, object, ms@.len() - 1);
        }
        let at = ms[ms.len() - 1].val_hi;
        let mut text: Vec<u8> = Vec::new();
        text.push(0x2c);
        append_all(&mut text, member);
        proof {
            assert(text@ =~= seq![0x2cu8] + member@);
        }
        splice(json, at, at, text.as_slice())
    }
}

/// Replaces the value that `path` leads to by the text that stands for
/// `value`, and creates it where the path leads into a container that lacks
/// it.
pub fn set_bytes(json: &[u8], path: &[u8], value: &[u8]) -> (r: Result<Vec<u8>, MutateError>)
    ensures
        match r {
            Ok(s) => set_result(json@, path@, value@) == Ok::<Seq<u8>, MutateError>(s@),
            Err(e) => set_result(json@, path@, value@) == Err::<Seq<u8>, MutateError>(e),
        },
        r matches Ok(s) ==> is_valid(s@),
{
    if !valid_bytes(json) {
        return Err(MutateError::JsonInvalid);
    }
    let n = json.len();
    match walk_path(json, 0, path) {
        Reached::Fail(e) => Err(e),
        Reached::At { start, object, k, members: ms } => {
            proof {
                crate::splice::lemma_replacement_strict(value@);
                crate::splice::lemma_overwrite_valid(json@, path@, replacement(value@));
            }
            Ok(overwrite_member(json, start, object, k, &ms, value))
        },
        Reached::Missing { start, object, off, members: ms } => {
            let tail = vstd::slice::slice_subrange(path, off, path.len());
            match make_member(tail, value, object, ms.len()) {
                None => Err(MutateError::PathInvalid),
                Some(m) => {
                    proof {
                        crate::insert::lemma_set_valid(json@, path@, value@);
                    }
                    Ok(insert_member(json, start, object, &ms, m.as_slice()))
                },
            }
        },
    }
}

} // verus!
