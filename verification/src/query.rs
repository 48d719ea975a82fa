//! Array queries: reading the test between `#(` and `)` and deciding whether a
//! value passes it.

use vstd::prelude::*;
use crate::number::{is_nonzero, number_equal, number_less, number_nonzero, numbers_equal, numbers_less};
use crate::path::{is_group_close, is_group_open};
use crate::scan::{is_space, space, word_false, word_null, word_true, Kind};
use crate::text::{bytes_eq, bytes_less, glob, glob_match, json_unescape, lex_less, unescape_json};

verus! {

/// What a top-level search in a path text stops at.
#[derive(Clone, Copy, Debug, PartialEq, Eq, Structural)]
pub enum Stop {
    /// A comma.
    Comma,
    /// The first byte of a comparison operator.
    Operator,
    /// Any byte that cannot be part of a plain name.
    NameEnd,
}

/// The comparison of a query.
#[derive(Clone, Copy, Debug, PartialEq, Eq, Structural)]
pub enum Op {
    /// No operator: the value only has to be there.
    Exists,
    /// `=` or `==`.
    Eq,
    /// `!=`.
    Ne,
    /// `<`.
    Lt,
    /// `<=`.
    Le,
    /// `>`.
    Gt,
    /// `>=`.
    Ge,
    /// `%`.
    Like,
    /// `!%`.
    NotLike,
    /// `==~`.
    Truthy,
    /// A `!` followed by neither `=` nor `%`.
    Invalid,
}

/// A query test in parts: the path to resolve in each element, the operator,
/// and the text to compare with.
pub struct Test {
    pub sub: Seq<u8>,
    pub op: Op,
    pub lit: Seq<u8>,
}

/// A query test by positions in its text: `sub_lo..sub_hi` is the path,
/// `lit_lo..lit_hi` the text to compare with.
#[derive(Clone, Copy, Debug, PartialEq, Eq, Structural)]
pub struct TestRange {
    pub sub_lo: usize,
    pub sub_hi: usize,
    pub op: Op,
    pub lit_lo: usize,
    pub lit_hi: usize,
}

/// Whether a search for `what` stops at the byte `c`.
pub open spec fn stops_at(what: Stop, c: u8) -> bool {
    match what {
        Stop::Comma => c == 0x2c,
        Stop::Operator => c == 0x3d || c == 0x21 || c == 0x3c || c == 0x3e || c == 0x25,
        Stop::NameEnd => c == 0x3a || c == 0x2e || c == 0x7c || c == 0x40 || c == 0x23 || c == 0x2c
            || is_group_open(c) || is_group_close(c),
    }
}

/// The first position at or after `i` that holds a byte of the wanted sort
/// outside brackets and quotes and not behind a backslash, or the length of
/// the text. `depth` counts the brackets open at `i`.
pub open spec fn top_stop(p: Seq<u8>, i: int, depth: nat, in_str: bool, what: Stop) -> int
    decreases p.len() - i,
{
    if i < 0 || i >= p.len() {
        p.len() as int
    } else if p[i] == 0x5c {
        if i + 1 < p.len() {
            top_stop(p, i + 2, depth, in_str, what)
        } else {
            p.len() as int
        }
    } else if p[i] == 0x22 {
        top_stop(p, i + 1, depth, !in_str, what)
    } else if in_str {
        top_stop(p, i + 1, depth, true, what)
    } else if depth == 0 && stops_at(what, p[i]) {
        i
    } else if is_group_open(p[i]) {
        top_stop(p, i + 1, depth + 1, false, what)
    } else if is_group_close(p[i]) {
        top_stop(p, i + 1, if depth > 0 { (depth - 1) as nat } else { 0 }, false, what)
    } else {
        top_stop(p, i + 1, depth, false, what)
    }
}

/// The first position in `lo..hi` that holds no whitespace, or `hi`.
pub open spec fn trim_lo(s: Seq<u8>, lo: int, hi: int) -> int
    decreases hi - lo,
{
    if 0 <= lo < hi <= s.len() && is_space(s[lo]) {
        trim_lo(s, lo + 1, hi)
    } else {
        lo
    }
}

/// The end of `lo..hi` once whitespace before `hi` is dropped.
pub open spec fn trim_hi(s: Seq<u8>, lo: int, hi: int) -> int
    decreases hi - lo,
{
    if 0 <= lo < hi <= s.len() && is_space(s[hi - 1]) {
        trim_hi(s, lo, hi - 1)
    } else {
        hi
    }
}

/// The operator that starts at `k` and the number of bytes it takes.
pub open spec fn op_at(q: Seq<u8>, k: int) -> (Op, int) {
    let c = q[k];
    let c1: u8 = if k + 1 < q.len() { q[k + 1] } else { 0 };
    let c2: u8 = if k + 2 < q.len() { q[k + 2] } else { 0 };
    if c == 0x3d {
        if c1 == 0x3d {
            if c2 == 0x7e {
                (Op::Truthy, 3)
            } else {
                (Op::Eq, 2)
            }
        } else {
            (Op::Eq, 1)
        }
    } else if c == 0x21 {
        if c1 == 0x3d {
            (Op::Ne, 2)
        } else if c1 == 0x25 {
            (Op::NotLike, 2)
        } else {
            (Op::Invalid, 1)
        }
    } else if c == 0x3c {
        if c1 == 0x3d {
            (Op::Le, 2)
        } else {
            (Op::Lt, 1)
        }
    } else if c == 0x3e {
        if c1 == 0x3d {
            (Op::Ge, 2)
        } else {
            (Op::Gt, 1)
        }
    } else {
        (Op::Like, 1)
    }
}

/// The parts of a query text, by position: the path runs up to the first
/// operator outside brackets and quotes, the text to compare with follows the
/// operator, and both are taken without the whitespace around them.
#[verifier::opaque]
pub open spec fn test_range(t: Seq<u8>) -> TestRange {
    let n = t.len() as int;
    let k = top_stop(t, 0, 0, false, Stop::Operator);
    if k >= n {
        TestRange {
            sub_lo: trim_lo(t, 0, n) as usize,
            sub_hi: trim_hi(t, trim_lo(t, 0, n), n) as usize,
            op: Op::Exists,
            lit_lo: n as usize,
            lit_hi: n as usize,
        }
    } else {
        let (op, len) = op_at(t, k);
        let sub_lo = trim_lo(t, 0, k);
        let lit_lo = trim_lo(t, k + len, n);
        TestRange {
            sub_lo: sub_lo as usize,
            sub_hi: trim_hi(t, sub_lo, k) as usize,
            op,
            lit_lo: lit_lo as usize,
            lit_hi: trim_hi(t, lit_lo, n) as usize,
        }
    }
}

/// The parts of a query text.
pub open spec fn test_of(t: Seq<u8>) -> Test {
    let r = test_range(t);
    if r.sub_lo <= r.sub_hi <= t.len() && r.lit_lo <= r.lit_hi <= t.len() {
        Test {
            sub: t.subrange(r.sub_lo as int, r.sub_hi as int),
            op: r.op,
            lit: t.subrange(r.lit_lo as int, r.lit_hi as int),
        }
    } else {
        Test { sub: Seq::empty(), op: r.op, lit: Seq::empty() }
    }
}

/// The text that a query compares strings with: a quoted text stands for what
/// it writes as a JSON string, any other for itself.
pub open spec fn lit_text(lit: Seq<u8>) -> Seq<u8> {
    if lit.len() > 0 && lit[0] == 0x22 {
        unescape_json(lit)
    } else {
        lit
    }
}

/// Equality of a value and the text of a query: strings by what they write,
/// numbers by their value, literals by their name. Values of any other kind
/// and values compared with text of another kind are not equal to it.
pub open spec fn same(kind: Kind, raw: Seq<u8>, lit: Seq<u8>) -> bool {
    match kind {
        Kind::String => unescape_json(raw) == lit_text(lit),
        Kind::Number => number_equal(raw, lit),
        Kind::True => lit == word_true(),
        Kind::False => lit == word_false(),
        Kind::Null => lit == word_null(),
        _ => false,
    }
}

/// The value comes before the text of a query: numbers by value, strings in
/// byte order of what they write.
pub open spec fn before(kind: Kind, raw: Seq<u8>, lit: Seq<u8>) -> bool {
    match kind {
        Kind::String => lex_less(unescape_json(raw), lit_text(lit)),
        Kind::Number => number_less(raw, lit),
        _ => false,
    }
}

/// The value comes after the text of a query.
pub open spec fn after(kind: Kind, raw: Seq<u8>, lit: Seq<u8>) -> bool {
    match kind {
        Kind::String => lex_less(lit_text(lit), unescape_json(raw)),
        Kind::Number => number_less(lit, raw),
        _ => false,
    }
}

/// The text `1`.
pub open spec fn text_one() -> Seq<u8> {
    seq![0x31u8]
}

/// The truth value that the coercing test gives a value: `true`, a number
/// other than zero, and the strings `"true"` and `"1"` count as true;
/// everything else, a missing value too, as false.
pub open spec fn truthy(kind: Kind, raw: Seq<u8>) -> bool {
    match kind {
        Kind::True => true,
        Kind::Number => number_nonzero(raw),
        Kind::String => unescape_json(raw) == word_true() || unescape_json(raw) == text_one(),
        _ => false,
    }
}

/// Whether a value of kind `kind` with raw text `raw` passes the comparison
/// `op` with `lit`. A missing value passes the coercing test only, and that
/// only against `false`.
pub open spec fn holds(kind: Kind, raw: Seq<u8>, op: Op, lit: Seq<u8>) -> bool {
    match op {
        Op::Truthy => (lit == word_true() && truthy(kind, raw)) || (lit == word_false() && !truthy(
            kind,
            raw,
        )),
        Op::Invalid => false,
        _ => kind != Kind::NotPresent && match op {
            Op::Exists => true,
            Op::Eq => same(kind, raw, lit),
            Op::Ne => !same(kind, raw, lit),
            Op::Lt => before(kind, raw, lit),
            Op::Le => before(kind, raw, lit) || same(kind, raw, lit),
            Op::Gt => after(kind, raw, lit),
            Op::Ge => after(kind, raw, lit) || same(kind, raw, lit),
            Op::Like => kind == Kind::String && glob(lit_text(lit), unescape_json(raw)),
            Op::NotLike => kind == Kind::String && !glob(lit_text(lit), unescape_json(raw)),
            _ => false,
        },
    }
}

/// A search ends inside the text, at a byte of the wanted sort or at the end.
pub proof fn lemma_top_stop_bounds(p: Seq<u8>, i: int, depth: nat, in_str: bool, what: Stop)
    requires
        0 <= i <= p.len(),
    ensures
        i <= top_stop(p, i, depth, in_str, what) <= p.len(),
        top_stop(p, i, depth, in_str, what) < p.len() ==> stops_at(
            what,
            p[top_stop(p, i, depth, in_str, what)],
        ),
    decreases p.len() - i,
{
    if i < p.len() {
        if p[i] == 0x5c {
            if i + 1 < p.len() {
                lemma_top_stop_bounds(p, i + 2, depth, in_str, what);
            }
        } else if p[i] == 0x22 {
            lemma_top_stop_bounds(p, i + 1, depth, !in_str, what);
        } else if in_str {
            lemma_top_stop_bounds(p, i + 1, depth, true, what);
        } else if depth == 0 && stops_at(what, p[i]) {
        } else if is_group_open(p[i]) {
            lemma_top_stop_bounds(p, i + 1, depth + 1, false, what);
        } else if is_group_close(p[i]) {
            lemma_top_stop_bounds(
                p,
                i + 1,
                if depth > 0 { (depth - 1) as nat } else { 0 },
                false,
                what,
            );
        } else {
            lemma_top_stop_bounds(p, i + 1, depth, false, what);
        }
    }
}

/// Trimming leaves a range inside the range that was trimmed.
pub proof fn lemma_trim_bounds(s: Seq<u8>, lo: int, hi: int)
    requires
        0 <= lo <= hi <= s.len(),
    ensures
        lo <= trim_lo(s, lo, hi) <= hi,
        lo <= trim_hi(s, lo, hi) <= hi,
    decreases hi - lo,
{
    if lo < hi {
        if is_space(s[lo]) {
            lemma_trim_bounds(s, lo + 1, hi);
        }
        if is_space(s[hi - 1]) {
            lemma_trim_bounds(s, lo, hi - 1);
        }
    }
}

/// The parts of a query lie inside the query text.
pub proof fn lemma_test_range_bounds(t: Seq<u8>)
    requires
        t.len() <= usize::MAX,
    ensures
        test_range(t).sub_lo <= test_range(t).sub_hi <= t.len(),
        test_range(t).lit_lo <= test_range(t).lit_hi <= t.len(),
{
    reveal(test_range);
    let n = t.len() as int;
    lemma_top_stop_bounds(t, 0, 0, false, Stop::Operator);
    let k = top_stop(t, 0, 0, false, Stop::Operator);
    if k >= n {
        lemma_trim_bounds(t, 0, n);
        lemma_trim_bounds(t, trim_lo(t, 0, n), n);
    } else {
        let (op, len) = op_at(t, k);
        lemma_trim_bounds(t, 0, k);
        lemma_trim_bounds(t, trim_lo(t, 0, k), k);
        if k + len <= n {
            lemma_trim_bounds(t, k + len, n);
            lemma_trim_bounds(t, trim_lo(t, k + len, n), n);
        }
    }
}

fn stop_here(what: Stop, c: u8) -> (r: bool)
    ensures
        r == stops_at(what, c),
{
    match what {
        Stop::Comma => c == 0x2c,
        Stop::Operator => c == 0x3d || c == 0x21 || c == 0x3c || c == 0x3e || c == 0x25,
        Stop::NameEnd => c == 0x3a || c == 0x2e || c == 0x7c || c == 0x40 || c == 0x23 || c == 0x2c
            || c == 0x5b || c == 0x7b || c == 0x28 || c == 0x5d || c == 0x7d || c == 0x29,
    }
}

/// Searches `p` from `start` for a byte of the wanted sort outside brackets
/// and quotes.
pub fn find_top(p: &[u8], start: usize, what: Stop) -> (r: usize)
    requires
        start <= p@.len(),
    ensures
        r == top_stop(p@, start as int, 0, false, what),
        start <= r <= p@.len(),
        r < p@.len() ==> stops_at(what, p@[r as int]),
{
    let n = p.len();
    let mut i: usize = start;
    let mut depth: usize = 0;
    let mut in_str = false;
    let mut done = false;
    proof {
        lemma_top_stop_bounds(p@, start as int, 0, false, what);
    }
    while !done
        invariant
            n == p@.len(),
            start <= i <= n,
            depth <= i - start,
            !done ==> top_stop(p@, start as int, 0, false, what) == top_stop(
                p@,
                i as int,
                depth as nat,
                in_str,
                what,
            ),
            done ==> top_stop(p@, start as int, 0, false, what) == i,
        decreases n - i + (if done { 0int } else { 1int }),
    {
        if i >= n {
            done = true;
        } else {
            let c = p[i];
            if c == 0x5c {
                if n - i > 1 {
                    i += 2;
                } else {
                    i = n;
                    done = true;
                }
            } else if c == 0x22 {
                in_str = !in_str;
                i += 1;
            } else if in_str {
                i += 1;
            } else if depth == 0 && stop_here(what, c) {
                done = true;
            } else if c == 0x5b || c == 0x7b || c == 0x28 {
                depth += 1;
                i += 1;
            } else if c == 0x5d || c == 0x7d || c == 0x29 {
                if depth > 0 {
                    depth -= 1;
                }
                i += 1;
            } else {
                i += 1;
            }
        }
    }
    i
}

/// Drops whitespace at the start of `s[lo..hi]`.
pub fn trim_start(s: &[u8], lo: usize, hi: usize) -> (r: usize)
    requires
        lo <= hi <= s@.len(),
    ensures
        r == trim_lo(s@, lo as int, hi as int),
        lo <= r <= hi,
{
    let mut i: usize = lo;
    while i < hi && space(s[i])
        invariant
            lo <= i <= hi <= s@.len(),
            trim_lo(s@, lo as int, hi as int) == trim_lo(s@, i as int, hi as int),
        decreases hi - i,
    {
        i += 1;
    }
    i
}

/// Drops whitespace at the end of `s[lo..hi]`.
pub fn trim_end(s: &[u8], lo: usize, hi: usize) -> (r: usize)
    requires
        lo <= hi <= s@.len(),
    ensures
        r == trim_hi(s@, lo as int, hi as int),
        lo <= r <= hi,
{
    let mut j: usize = hi;
    while lo < j && space(s[j - 1])
        invariant
            lo <= j <= hi <= s@.len(),
            trim_hi(s@, lo as int, hi as int) == trim_hi(s@, lo as int, j as int),
        decreases j - lo,
    {
        j -= 1;
    }
    j
}

/// Reads the operator at `k`.
fn read_op(q: &[u8], k: usize) -> (r: (Op, usize))
    requires
        k < q@.len(),
    ensures
        r.0 == op_at(q@, k as int).0,
        r.1 == op_at(q@, k as int).1,
        1 <= r.1 <= 3,
{
    let n = q.len();
    let c = q[k];
    let c1: u8 = if n - k > 1 { q[k + 1] } else { 0 };
    let c2: u8 = if n - k > 2 { q[k + 2] } else { 0 };
    if c == 0x3d {
        if c1 == 0x3d {
            if c2 == 0x7e {
                (Op::Truthy, 3)
            } else {
                (Op::Eq, 2)
            }
        } else {
            (Op::Eq, 1)
        }
    } else if c == 0x21 {
        if c1 == 0x3d {
            (Op::Ne, 2)
        } else if c1 == 0x25 {
            (Op::NotLike, 2)
        } else {
            (Op::Invalid, 1)
        }
    } else if c == 0x3c {
        if c1 == 0x3d {
            (Op::Le, 2)
        } else {
            (Op::Lt, 1)
        }
    } else if c == 0x3e {
        if c1 == 0x3d {
            (Op::Ge, 2)
        } else {
            (Op::Gt, 1)
        }
    } else {
        (Op::Like, 1)
    }
}

/// Splits a query text into path, operator and text.
pub fn parse_test(t: &[u8]) -> (r: TestRange)
    ensures
        r == test_range(t@),
        r.sub_lo <= r.sub_hi <= t@.len(),
        r.lit_lo <= r.lit_hi <= t@.len(),
{
    let n = t.len();
    proof {
        reveal(test_range);
        lemma_test_range_bounds(t@);
    }
    let k = find_top(t, 0, Stop::Operator);
    if k >= n {
        let sub_lo = trim_start(t, 0, n);
        let sub_hi = trim_end(t, sub_lo, n);
        TestRange { sub_lo, sub_hi, op: Op::Exists, lit_lo: n, lit_hi: n }
    } else {
        let (op, len) = read_op(t, k);
        let sub_lo = trim_start(t, 0, k);
        let sub_hi = trim_end(t, sub_lo, k);
        if n - k < len {
            proof {
                assert(trim_lo(t@, k + len, n as int) == k + len);
                assert(trim_hi(t@, k + len, n as int) == n);
            }
            return TestRange { sub_lo, sub_hi, op, lit_lo: k + len, lit_hi: n };
        }
        let lit_lo = trim_start(t, k + len, n);
        let lit_hi = trim_end(t, lit_lo, n);
        TestRange { sub_lo, sub_hi, op, lit_lo, lit_hi }
    }
}

/// The text that a query compares strings with.
fn literal_text(lit: &[u8]) -> (r: Vec<u8>)
    ensures
        r@ == lit_text(lit@),
{
    if lit.len() > 0 && lit[0] == 0x22 {
        json_unescape(lit)
    } else {
        let n = lit.len();
        proof {
            assert(lit@.subrange(0, n as int) =~= lit@);
        }
        crate::text::copy_range(lit, 0, n)
    }
}

fn is_same(kind: Kind, raw: &[u8], lit: &[u8]) -> (r: bool)
    ensures
        r == same(kind, raw@, lit@),
{
    match kind {
        Kind::String => {
            let a = json_unescape(raw);
            let b = literal_text(lit);
            bytes_eq(a.as_slice(), b.as_slice())
        },
        Kind::Number => numbers_equal(raw, lit),
        Kind::True => bytes_eq(lit, &[0x74u8, 0x72u8, 0x75u8, 0x65u8]),
        Kind::False => bytes_eq(lit, &[0x66u8, 0x61u8, 0x6cu8, 0x73u8, 0x65u8]),
        Kind::Null => bytes_eq(lit, &[0x6eu8, 0x75u8, 0x6cu8, 0x6cu8]),
        _ => false,
    }
}

fn is_before(kind: Kind, raw: &[u8], lit: &[u8]) -> (r: bool)
    ensures
        r == before(kind, raw@, lit@),
{
    match kind {
        Kind::String => {
            let a = json_unescape(raw);
            let b = literal_text(lit);
            bytes_less(a.as_slice(), b.as_slice())
        },
        Kind::Number => numbers_less(raw, lit),
        _ => false,
    }
}

fn is_after(kind: Kind, raw: &[u8], lit: &[u8]) -> (r: bool)
    ensures
        r == after(kind, raw@, lit@),
{
    match kind {
        Kind::String => {
            let a = json_unescape(raw);
            let b = literal_text(lit);
            bytes_less(b.as_slice(), a.as_slice())
        },
        Kind::Number => numbers_less(lit, raw),
        _ => false,
    }
}

fn is_like(raw: &[u8], lit: &[u8]) -> (r: bool)
    ensures
        r == glob(lit_text(lit@), unescape_json(raw@)),
{
    let a = json_unescape(raw);
    let b = literal_text(lit);
    glob_match(b.as_slice(), a.as_slice())
}

/// The truth value that the coercing test gives a value.
pub fn is_truthy(kind: Kind, raw: &[u8]) -> (r: bool)
    ensures
        r == truthy(kind, raw@),
{
    match kind {
        Kind::True => true,
        Kind::Number => is_nonzero(raw),
        Kind::String => {
            let a = json_unescape(raw);
            let word: [u8; 4] = [0x74u8, 0x72u8, 0x75u8, 0x65u8];
            let one: [u8; 1] = [0x31u8];
            proof {
                assert(word@ =~= word_true());
                assert(one@ =~= text_one());
            }
            bytes_eq(a.as_slice(), &word) || bytes_eq(a.as_slice(), &one)
        },
        _ => false,
    }
}

/// Decides whether a value passes a comparison.
pub fn compare(kind: Kind, raw: &[u8], op: Op, lit: &[u8]) -> (r: bool)
    ensures
        r == holds(kind, raw@, op, lit@),
{
    match op {
        Op::Truthy => {
            let t = is_truthy(kind, raw);
            if bytes_eq(lit, &[0x74u8, 0x72u8, 0x75u8, 0x65u8]) {
                t
            } else if bytes_eq(lit, &[0x66u8, 0x61u8, 0x6cu8, 0x73u8, 0x65u8]) {
                !t
            } else {
                false
            }
        },
        Op::Invalid => false,
        _ => {
            if kind == Kind::NotPresent {
                return false;
            }
            match op {
                Op::Exists => true,
                Op::Eq => is_same(kind, raw, lit),
                Op::Ne => !is_same(kind, raw, lit),
                Op::Lt => is_before(kind, raw, lit),
                Op::Le => is_before(kind, raw, lit) || is_same(kind, raw, lit),
                Op::Gt => is_after(kind, raw, lit),
                Op::Ge => is_after(kind, raw, lit) || is_same(kind, raw, lit),
                Op::Like => kind == Kind::String && is_like(raw, lit),
                Op::NotLike => kind == Kind::String && !is_like(raw, lit),
                _ => false,
            }
        },
    }
}

} // verus!
