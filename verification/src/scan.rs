//! Forward scanner over raw JSON bytes.
//!
//! Every function here works on a byte buffer and a cursor and never builds a
//! tree. The scanner is lenient: on malformed input it stops where the input
//! stops making sense and reports the range it has seen so far.

use vstd::prelude::*;

verus! {

/// The kind of a JSON value, decided by its first byte.
#[derive(Clone, Copy, Debug, PartialEq, Eq, Structural)]
pub enum Kind {
    Null,
    False,
    True,
    Number,
    String,
    Array,
    Object,
    NotPresent,
}

/// One step of an array or object walk: the raw key (quotes included, empty in
/// arrays), the raw value, and the cursor from which the walk goes on.
#[derive(Clone, Copy, Debug, PartialEq, Eq, Structural)]
pub struct Element {
    pub key_lo: usize,
    pub key_hi: usize,
    pub val_lo: usize,
    pub val_hi: usize,
    pub next: usize,
}

/// Space, tab, line feed, carriage return.
pub open spec fn is_space(c: u8) -> bool {
    c == 0x20 || c == 0x09 || c == 0x0a || c == 0x0d
}

/// A decimal digit.
pub open spec fn is_digit(c: u8) -> bool {
    0x30 <= c <= 0x39
}

/// Bytes that open a container.
pub open spec fn is_open(c: u8) -> bool {
    c == 0x5b || c == 0x7b
}

/// Bytes that close a container.
pub open spec fn is_close(c: u8) -> bool {
    c == 0x5d || c == 0x7d
}

/// The first position at or after `p` that holds no whitespace.
pub open spec fn skip_ws(b: Seq<u8>, p: int) -> int
    decreases b.len() - p,
{
    if 0 <= p < b.len() && is_space(b[p]) {
        skip_ws(b, p + 1)
    } else {
        p
    }
}

/// The first position at or after `p` that holds neither whitespace nor a comma.
pub open spec fn skip_seps(b: Seq<u8>, p: int) -> int
    decreases b.len() - p,
{
    if 0 <= p < b.len() && (is_space(b[p]) || b[p] == 0x2c) {
        skip_seps(b, p + 1)
    } else {
        p
    }
}

/// The first position at or after `p` that holds no decimal digit.
pub open spec fn digits_end(b: Seq<u8>, p: int) -> int
    decreases b.len() - p,
{
    if 0 <= p < b.len() && is_digit(b[p]) {
        digits_end(b, p + 1)
    } else {
        p
    }
}

/// With `i` inside a string body, the position just after the closing quote.
/// A backslash protects the byte after it. An unterminated string ends with
/// the buffer.
pub open spec fn string_end(b: Seq<u8>, i: int) -> int
    decreases b.len() - i,
{
    if i < 0 || i >= b.len() {
        b.len() as int
    } else if b[i] == 0x22 {
        i + 1
    } else if b[i] == 0x5c {
        if i + 1 < b.len() {
            string_end(b, i + 2)
        } else {
            b.len() as int
        }
    } else {
        string_end(b, i + 1)
    }
}

/// With `i` inside a container at nesting `depth` (at least 1), the position
/// just after the bracket that closes the outermost level. Brackets inside
/// strings do not count. An unterminated container ends with the buffer.
pub open spec fn squash_end(b: Seq<u8>, i: int, depth: nat, in_str: bool) -> int
    decreases b.len() - i,
{
    if i < 0 || i >= b.len() {
        b.len() as int
    } else if in_str {
        if b[i] == 0x22 {
            squash_end(b, i + 1, depth, false)
        } else if b[i] == 0x5c {
            if i + 1 < b.len() {
                squash_end(b, i + 2, depth, true)
            } else {
                b.len() as int
            }
        } else {
            squash_end(b, i + 1, depth, true)
        }
    } else if b[i] == 0x22 {
        squash_end(b, i + 1, depth, true)
    } else if is_open(b[i]) {
        squash_end(b, i + 1, depth + 1, false)
    } else if is_close(b[i]) {
        if depth <= 1 {
            i + 1
        } else {
            squash_end(b, i + 1, (depth - 1) as nat, false)
        }
    } else {
        squash_end(b, i + 1, depth, false)
    }
}

/// The end of the number that starts at `p`: an optional minus, digits, an
/// optional fraction and an optional exponent, each taken as far as it goes.
pub open spec fn number_end(b: Seq<u8>, p: int) -> int {
    let a = if 0 <= p < b.len() && b[p] == 0x2d { p + 1 } else { p };
    let c = digits_end(b, a);
    let d = if 0 <= c < b.len() && b[c] == 0x2e { digits_end(b, c + 1) } else { c };
    if 0 <= d < b.len() && (b[d] == 0x65 || b[d] == 0x45) {
        if d + 1 < b.len() && (b[d + 1] == 0x2b || b[d + 1] == 0x2d) {
            digits_end(b, d + 2)
        } else {
            digits_end(b, d + 1)
        }
    } else {
        d
    }
}

/// True if the bytes of `word` stand in `b` at `p`.
pub open spec fn has_word(b: Seq<u8>, p: int, word: Seq<u8>) -> bool {
    0 <= p && p + word.len() <= b.len() && b.subrange(p, p + word.len()) == word
}

/// The word `true`.
pub open spec fn word_true() -> Seq<u8> {
    seq![0x74u8, 0x72u8, 0x75u8, 0x65u8]
}

/// The word `false`.
pub open spec fn word_false() -> Seq<u8> {
    seq![0x66u8, 0x61u8, 0x6cu8, 0x73u8, 0x65u8]
}

/// The word `null`.
pub open spec fn word_null() -> Seq<u8> {
    seq![0x6eu8, 0x75u8, 0x6cu8, 0x6cu8]
}

/// The kind of the value whose first byte is at `p`.
pub open spec fn kind_at(b: Seq<u8>, p: int) -> Kind {
    if p < 0 || p >= b.len() {
        Kind::NotPresent
    } else if b[p] == 0x22 {
        Kind::String
    } else if b[p] == 0x7b {
        Kind::Object
    } else if b[p] == 0x5b {
        Kind::Array
    } else if b[p] == 0x2d || is_digit(b[p]) {
        Kind::Number
    } else if has_word(b, p, word_true()) {
        Kind::True
    } else if has_word(b, p, word_false()) {
        Kind::False
    } else if has_word(b, p, word_null()) {
        Kind::Null
    } else {
        Kind::NotPresent
    }
}

/// The end of the value whose first byte is at `p`. Where no value starts at
/// `p` the range is empty.
pub open spec fn value_end(b: Seq<u8>, p: int) -> int {
    match kind_at(b, p) {
        Kind::String => string_end(b, p + 1),
        Kind::Object | Kind::Array => squash_end(b, p + 1, 1, false),
        Kind::Number => number_end(b, p),
        Kind::True | Kind::Null => p + 4,
        Kind::False => p + 5,
        Kind::NotPresent => p,
    }
}

/// One step of a walk through the members of a container, from cursor `p`.
/// Whitespace and commas before the member are skipped, so a dangling comma
/// does no harm. The walk ends (`None`) at a closing bracket, at the end of the
/// buffer, or where no member can be read.
pub open spec fn next_element(b: Seq<u8>, p: int, in_object: bool) -> Option<Element> {
    let q = skip_seps(b, p);
    if q < 0 || q >= b.len() || is_close(b[q]) {
        None
    } else if in_object {
        let ke = string_end(b, q + 1);
        let c = skip_ws(b, ke);
        let v = skip_ws(b, c + 1);
        let ve = value_end(b, v);
        if b[q] == 0x22 && c < b.len() && b[c] == 0x3a && v < b.len() && ve > v {
            Some(
                Element {
                    key_lo: q as usize,
                    key_hi: ke as usize,
                    val_lo: v as usize,
                    val_hi: ve as usize,
                    next: ve as usize,
                },
            )
        } else {
            None
        }
    } else {
        let ve = value_end(b, q);
        if ve > q {
            Some(
                Element {
                    key_lo: q as usize,
                    key_hi: q as usize,
                    val_lo: q as usize,
                    val_hi: ve as usize,
                    next: ve as usize,
                },
            )
        } else {
            None
        }
    }
}

/// All members that a walk from cursor `p` steps through, in order.
pub open spec fn members(b: Seq<u8>, p: int, in_object: bool) -> Seq<Element>
    decreases b.len() - p,
{
    match next_element(b, p, in_object) {
        Some(e) => if p < e.next <= b.len() {
            seq![e] + members(b, e.next as int, in_object)
        } else {
            Seq::empty()
        },
        None => Seq::empty(),
    }
}

/// An element lies inside a buffer of length `n`, key before value.
pub open spec fn element_in(e: Element, n: int) -> bool {
    e.key_lo <= e.key_hi <= e.val_lo < e.val_hi == e.next <= n
}

/// Whitespace ends inside the buffer, before a byte that is no whitespace.
pub proof fn lemma_skip_ws_bounds(b: Seq<u8>, p: int)
    requires
        0 <= p <= b.len(),
    ensures
        p <= skip_ws(b, p) <= b.len(),
        skip_ws(b, p) < b.len() ==> !is_space(b[skip_ws(b, p)]),
    decreases b.len() - p,
{
    if p < b.len() && is_space(b[p]) {
        lemma_skip_ws_bounds(b, p + 1);
    }
}

/// Separators end inside the buffer.
pub proof fn lemma_skip_seps_bounds(b: Seq<u8>, p: int)
    requires
        0 <= p <= b.len(),
    ensures
        p <= skip_seps(b, p) <= b.len(),
    decreases b.len() - p,
{
    if p < b.len() && (is_space(b[p]) || b[p] == 0x2c) {
        lemma_skip_seps_bounds(b, p + 1);
    }
}

/// A run of digits ends inside the buffer.
pub proof fn lemma_digits_end_bounds(b: Seq<u8>, p: int)
    requires
        0 <= p <= b.len(),
    ensures
        p <= digits_end(b, p) <= b.len(),
    decreases b.len() - p,
{
    if p < b.len() && is_digit(b[p]) {
        lemma_digits_end_bounds(b, p + 1);
    }
}

/// A string ends inside the buffer, behind at least one byte.
pub proof fn lemma_string_end_bounds(b: Seq<u8>, i: int)
    requires
        0 <= i <= b.len(),
    ensures
        i <= string_end(b, i) <= b.len(),
        i < b.len() ==> i < string_end(b, i),
    decreases b.len() - i,
{
    if i < b.len() && b[i] != 0x22 {
        if b[i] == 0x5c {
            if i + 1 < b.len() {
                lemma_string_end_bounds(b, i + 2);
            }
        } else {
            lemma_string_end_bounds(b, i + 1);
        }
    }
}

/// A container ends inside the buffer.
pub proof fn lemma_squash_end_bounds(b: Seq<u8>, i: int, depth: nat, in_str: bool)
    requires
        0 <= i <= b.len(),
    ensures
        i <= squash_end(b, i, depth, in_str) <= b.len(),
    decreases b.len() - i,
{
    if i < b.len() {
        if in_str {
            if b[i] == 0x22 {
                lemma_squash_end_bounds(b, i + 1, depth, false);
            } else if b[i] == 0x5c {
                if i + 1 < b.len() {
                    lemma_squash_end_bounds(b, i + 2, depth, true);
                }
            } else {
                lemma_squash_end_bounds(b, i + 1, depth, true);
            }
        } else if b[i] == 0x22 {
            lemma_squash_end_bounds(b, i + 1, depth, true);
        } else if is_open(b[i]) {
            lemma_squash_end_bounds(b, i + 1, depth + 1, false);
        } else if is_close(b[i]) {
            if depth > 1 {
                lemma_squash_end_bounds(b, i + 1, (depth - 1) as nat, false);
            }
        } else {
            lemma_squash_end_bounds(b, i + 1, depth, false);
        }
    }
}

/// A number is not empty and ends inside the buffer.
pub proof fn lemma_number_end_bounds(b: Seq<u8>, p: int)
    requires
        0 <= p < b.len(),
        b[p] == 0x2d || is_digit(b[p]),
    ensures
        p < number_end(b, p) <= b.len(),
{
    let a = if b[p] == 0x2d { p + 1 } else { p };
    lemma_digits_end_bounds(b, a);
    let c = digits_end(b, a);
    if is_digit(b[p]) {
        lemma_digits_end_bounds(b, p + 1);
    }
    if c < b.len() && b[c] == 0x2e {
        lemma_digits_end_bounds(b, c + 1);
    }
    let d = if c < b.len() && b[c] == 0x2e { digits_end(b, c + 1) } else { c };
    if d < b.len() && (b[d] == 0x65 || b[d] == 0x45) {
        if d + 1 < b.len() && (b[d + 1] == 0x2b || b[d + 1] == 0x2d) {
            lemma_digits_end_bounds(b, d + 2);
        } else {
            lemma_digits_end_bounds(b, d + 1);
        }
    }
}

/// A value never ends before it starts nor after the buffer, and a value of a
/// known kind is not empty.
pub proof fn lemma_value_end_bounds(b: Seq<u8>, p: int)
    requires
        0 <= p <= b.len(),
    ensures
        p <= value_end(b, p) <= b.len(),
        kind_at(b, p) != Kind::NotPresent ==> p < value_end(b, p),
        kind_at(b, p) == Kind::NotPresent ==> value_end(b, p) == p,
{
    match kind_at(b, p) {
        Kind::String => {
            lemma_string_end_bounds(b, p + 1);
        },
        Kind::Object | Kind::Array => {
            lemma_squash_end_bounds(b, p + 1, 1, false);
        },
        Kind::Number => {
            lemma_number_end_bounds(b, p);
        },
        _ => {},
    }
}

/// What a step of the walk hands out lies inside the buffer and after the cursor.
pub proof fn lemma_next_element_bounds(b: Seq<u8>, p: int, in_object: bool)
    requires
        0 <= p <= b.len(),
        b.len() <= usize::MAX,
    ensures
        next_element(b, p, in_object) matches Some(e) ==> p <= e.key_lo && element_in(
            e,
            b.len() as int,
        ),
{
    lemma_skip_seps_bounds(b, p);
    let q = skip_seps(b, p);
    if q < b.len() && !is_close(b[q]) {
        if in_object {
            lemma_string_end_bounds(b, q + 1);
            let ke = string_end(b, q + 1);
            lemma_skip_ws_bounds(b, ke);
            let c = skip_ws(b, ke);
            if c < b.len() {
                lemma_skip_ws_bounds(b, c + 1);
                let v = skip_ws(b, c + 1);
                lemma_value_end_bounds(b, v);
            }
        } else {
            lemma_value_end_bounds(b, q);
        }
    }
}

/// Every member of a walk lies inside the buffer, and the members follow one
/// another without overlap.
pub proof fn lemma_members_bounds(b: Seq<u8>, p: int, in_object: bool)
    requires
        0 <= p <= b.len(),
        b.len() <= usize::MAX,
    ensures
        forall|k: int|
            0 <= k < members(b, p, in_object).len() ==> p <= (#[trigger] members(
                b,
                p,
                in_object,
            )[k]).key_lo && element_in(members(b, p, in_object)[k], b.len() as int),
        members(b, p, in_object).len() <= b.len() - p,
    decreases b.len() - p,
{
    lemma_next_element_bounds(b, p, in_object);
    match next_element(b, p, in_object) {
        Some(e) => {
            lemma_members_bounds(b, e.next as int, in_object);
            let rest = members(b, e.next as int, in_object);
            assert forall|k: int| 0 <= k < members(b, p, in_object).len() implies p <= (
            #[trigger] members(b, p, in_object)[k]).key_lo && element_in(
                members(b, p, in_object)[k],
                b.len() as int,
            ) by {
                if k > 0 {
                    assert(members(b, p, in_object)[k] == rest[k - 1]);
                }
            }
        },
        None => {},
    }
}

/// Member `k` of a walk lies inside the buffer and starts where the
/// separators behind the member before it end; the first member starts where
/// the separators behind the cursor end.
pub proof fn lemma_member_follows(b: Seq<u8>, p: int, in_object: bool, k: int)
    requires
        0 <= p <= b.len(),
        b.len() <= usize::MAX,
        0 <= k < members(b, p, in_object).len(),
    ensures
        element_in(members(b, p, in_object)[k], b.len() as int),
        k == 0 ==> members(b, p, in_object)[0].key_lo == skip_seps(b, p),
        k > 0 ==> members(b, p, in_object)[k].key_lo == skip_seps(
            b,
            members(b, p, in_object)[k - 1].next as int,
        ),
    decreases k,
{
    lemma_next_element_bounds(b, p, in_object);
    match next_element(b, p, in_object) {
        Some(e) => {
            let ms = members(b, p, in_object);
            let rest = members(b, e.next as int, in_object);
            assert(ms[0] == e);
            if k > 0 {
                assert(ms[k] == rest[k - 1]);
                lemma_member_follows(b, e.next as int, in_object, k - 1);
                if k > 1 {
                    assert(ms[k - 1] == rest[k - 2]);
                }
            }
        },
        None => {},
    }
}

/// What a step of the walk hands out, in terms of the scanner: the member
/// starts where the separators behind the cursor end, its value is the value
/// that stands at `val_lo`, and in an object its key is the string that stands
/// at `key_lo`, followed by a colon.
pub proof fn lemma_next_element_facts(b: Seq<u8>, p: int, in_object: bool)
    requires
        0 <= p <= b.len(),
        b.len() <= usize::MAX,
    ensures
        next_element(b, p, in_object) matches Some(e) ==> {
            &&& e.key_lo == skip_seps(b, p)
            &&& e.val_hi == value_end(b, e.val_lo as int)
            &&& e.val_lo < e.val_hi
            &&& e.next == e.val_hi
            &&& !is_close(b[e.key_lo as int])
            &&& !in_object ==> e.key_hi == e.key_lo && e.val_lo == e.key_lo
            &&& in_object ==> b[e.key_lo as int] == 0x22 && e.key_hi == string_end(b, e.key_lo + 1)
                && skip_ws(b, e.key_hi as int) < b.len() && b[skip_ws(b, e.key_hi as int)]
                == 0x3a && e.val_lo == skip_ws(b, skip_ws(b, e.key_hi as int) + 1)
        },
{
    lemma_next_element_bounds(b, p, in_object);
    lemma_skip_seps_bounds(b, p);
    let q = skip_seps(b, p);
    if q < b.len() && !is_close(b[q]) {
        if in_object {
            lemma_string_end_bounds(b, q + 1);
            let ke = string_end(b, q + 1);
            lemma_skip_ws_bounds(b, ke);
            let c = skip_ws(b, ke);
            if c < b.len() {
                lemma_skip_ws_bounds(b, c + 1);
                let v = skip_ws(b, c + 1);
                lemma_value_end_bounds(b, v);
            }
        } else {
            lemma_value_end_bounds(b, q);
        }
    }
}

/// Behind a value, the position after an optional comma is not beyond the end
/// of the separators.
pub proof fn lemma_comma_within_seps(b: Seq<u8>, p: int)
    requires
        0 <= p <= b.len(),
    ensures
        p <= skip_ws(b, p) <= skip_seps(b, p) <= b.len(),
        skip_ws(b, p) < b.len() && b[skip_ws(b, p)] == 0x2c ==> skip_ws(b, p) + 1 <= skip_seps(
            b,
            p,
        ),
    decreases b.len() - p,
{
    lemma_skip_ws_bounds(b, p);
    lemma_skip_seps_bounds(b, p);
    if p < b.len() {
        if is_space(b[p]) {
            lemma_comma_within_seps(b, p + 1);
        } else if b[p] == 0x2c {
            lemma_skip_seps_bounds(b, p + 1);
        }
    }
}

/// Tests for whitespace.
pub fn space(c: u8) -> (r: bool)
    ensures
        r == is_space(c),
{
    c == 0x20 || c == 0x09 || c == 0x0a || c == 0x0d
}

/// Tests for a decimal digit.
pub fn digit(c: u8) -> (r: bool)
    ensures
        r == is_digit(c),
{
    0x30 <= c && c <= 0x39
}

/// Advances past spaces, tabs, carriage returns and line feeds.
pub fn skip_whitespace(b: &[u8], p: usize) -> (r: usize)
    requires
        p <= b@.len(),
    ensures
        r == skip_ws(b@, p as int),
        p <= r <= b@.len(),
{
    let mut i: usize = p;
    while i < b.len() && space(b[i])
        invariant
            p <= i <= b@.len(),
            skip_ws(b@, p as int) == skip_ws(b@, i as int),
        decreases b@.len() - i,
    {
        i += 1;
    }
    i
}

/// Advances past whitespace and commas.
pub fn skip_separators(b: &[u8], p: usize) -> (r: usize)
    requires
        p <= b@.len(),
    ensures
        r == skip_seps(b@, p as int),
        p <= r <= b@.len(),
{
    let mut i: usize = p;
    while i < b.len() && (space(b[i]) || b[i] == 0x2c)
        invariant
            p <= i <= b@.len(),
            skip_seps(b@, p as int) == skip_seps(b@, i as int),
        decreases b@.len() - i,
    {
        i += 1;
    }
    i
}

/// Advances past decimal digits.
pub fn skip_digits(b: &[u8], p: usize) -> (r: usize)
    requires
        p <= b@.len(),
    ensures
        r == digits_end(b@, p as int),
        p <= r <= b@.len(),
{
    let mut i: usize = p;
    while i < b.len() && digit(b[i])
        invariant
            p <= i <= b@.len(),
            digits_end(b@, p as int) == digits_end(b@, i as int),
        decreases b@.len() - i,
    {
        i += 1;
    }
    i
}

/// Skips the rest of a string whose opening quote stands just before `p`.
pub fn skip_string(b: &[u8], p: usize) -> (r: usize)
    requires
        p <= b@.len(),
    ensures
        r == string_end(b@, p as int),
        p <= r <= b@.len(),
{
    let n = b.len();
    let mut i: usize = p;
    let mut done = false;
    while !done
        invariant
            n == b@.len(),
            p <= i <= n,
            !done ==> string_end(b@, p as int) == string_end(b@, i as int),
            done ==> string_end(b@, p as int) == i,
        decreases n - i + (if done { 0int } else { 1int }),
    {
        if i >= n {
            done = true;
        } else if b[i] == 0x22 {
            i += 1;
            done = true;
        } else if b[i] == 0x5c {
            if n - i > 1 {
                i += 2;
            } else {
                i = n;
                done = true;
            }
        } else {
            i += 1;
        }
    }
    i
}

/// Skips the rest of a container whose opening bracket stands just before `p`.
pub fn skip_container(b: &[u8], p: usize) -> (r: usize)
    requires
        1 <= p <= b@.len(),
    ensures
        r == squash_end(b@, p as int, 1, false),
        p <= r <= b@.len(),
{
    let n = b.len();
    let mut i: usize = p;
    let mut depth: usize = 1;
    let mut in_str = false;
    let mut done = false;
    while !done
        invariant
            n == b@.len(),
            1 <= p <= i <= n,
            1 <= depth <= 1 + (i - p),
            !done ==> squash_end(b@, p as int, 1, false) == squash_end(
                b@,
                i as int,
                depth as nat,
                in_str,
            ),
            done ==> squash_end(b@, p as int, 1, false) == i,
        decreases n - i + (if done { 0int } else { 1int }),
    {
        if i >= n {
            done = true;
        } else {
            let c = b[i];
            if in_str {
                if c == 0x22 {
                    in_str = false;
                    i += 1;
                } else if c == 0x5c {
                    if n - i > 1 {
                        i += 2;
                    } else {
                        i = n;
                        done = true;
                    }
                } else {
                    i += 1;
                }
            } else if c == 0x22 {
                in_str = true;
                i += 1;
            } else if c == 0x5b || c == 0x7b {
                depth += 1;
                i += 1;
            } else if c == 0x5d || c == 0x7d {
                i += 1;
                if depth <= 1 {
                    done = true;
                } else {
                    depth -= 1;
                }
            } else {
                i += 1;
            }
        }
    }
    i
}

/// Skips the number that starts at `p`.
pub fn skip_number(b: &[u8], p: usize) -> (r: usize)
    requires
        p < b@.len(),
        b@[p as int] == 0x2d || is_digit(b@[p as int]),
    ensures
        r == number_end(b@, p as int),
        p < r <= b@.len(),
{
    proof {
        lemma_number_end_bounds(b@, p as int);
    }
    let n = b.len();
    let a: usize = if b[p] == 0x2d { p + 1 } else { p };
    let c = skip_digits(b, a);
    let d: usize = if c < n && b[c] == 0x2e { skip_digits(b, c + 1) } else { c };
    if d < n && (b[d] == 0x65 || b[d] == 0x45) {
        if n - d > 1 && (b[d + 1] == 0x2b || b[d + 1] == 0x2d) {
            skip_digits(b, d + 2)
        } else {
            skip_digits(b, d + 1)
        }
    } else {
        d
    }
}

/// Tests whether `word` stands in `b` at `p`.
pub fn starts_with(b: &[u8], p: usize, word: &[u8]) -> (r: bool)
    requires
        p <= b@.len(),
    ensures
        r == has_word(b@, p as int, word@),
{
    let n = b.len();
    let m = word.len();
    if n - p < m {
        return false;
    }
    let mut k: usize = 0;
    while k < m
        invariant
            n == b@.len(),
            m == word@.len(),
            p + m <= n,
            k <= m,
            forall|j: int| 0 <= j < k ==> b@[p + j] == word@[j],
        decreases m - k,
    {
        if b[p + k] != word[k] {
            proof {
                assert(b@.subrange(p as int, p + m)[k as int] == b@[p + k]);
            }
            return false;
        }
        k += 1;
    }
    proof {
        assert(b@.subrange(p as int, p + m) =~= word@);
    }
    true
}

/// The kind of the value whose first byte is at `p`.
pub fn kind_of(b: &[u8], p: usize) -> (k: Kind)
    requires
        p <= b@.len(),
    ensures
        k == kind_at(b@, p as int),
{
    if p >= b.len() {
        return Kind::NotPresent;
    }
    let c = b[p];
    if c == 0x22 {
        Kind::String
    } else if c == 0x7b {
        Kind::Object
    } else if c == 0x5b {
        Kind::Array
    } else if c == 0x2d || digit(c) {
        Kind::Number
    } else if starts_with(b, p, &[0x74u8, 0x72u8, 0x75u8, 0x65u8]) {
        Kind::True
    } else if starts_with(b, p, &[0x66u8, 0x61u8, 0x6cu8, 0x73u8, 0x65u8]) {
        Kind::False
    } else if starts_with(b, p, &[0x6eu8, 0x75u8, 0x6cu8, 0x6cu8]) {
        Kind::Null
    } else {
        Kind::NotPresent
    }
}

/// Consumes exactly one value whose first byte is at `p` and returns its kind
/// and the position just after it.
pub fn skip_value(b: &[u8], p: usize) -> (r: (Kind, usize))
    requires
        p <= b@.len(),
    ensures
        r.0 == kind_at(b@, p as int),
        r.1 == value_end(b@, p as int),
        p <= r.1 <= b@.len(),
{
    let n = b.len();
    proof {
        lemma_value_end_bounds(b@, p as int);
    }
    let k = kind_of(b, p);
    let e: usize = match k {
        Kind::String => skip_string(b, p + 1),
        Kind::Object => skip_container(b, p + 1),
        Kind::Array => skip_container(b, p + 1),
        Kind::Number => skip_number(b, p),
        Kind::True => p + 4,
        Kind::Null => p + 4,
        Kind::False => p + 5,
        Kind::NotPresent => p,
    };
    (k, e)
}

/// One step of a walk through a container: the next member after cursor `p`,
/// or `None` where the walk ends.
pub fn next_member(b: &[u8], p: usize, in_object: bool) -> (r: Option<Element>)
    requires
        p <= b@.len(),
    ensures
        r == next_element(b@, p as int, in_object),
        r matches Some(e) ==> p <= e.key_lo && element_in(e, b@.len() as int),
{
    let n = b.len();
    proof {
        lemma_next_element_bounds(b@, p as int, in_object);
    }
    let q = skip_separators(b, p);
    if q >= n || b[q] == 0x5d || b[q] == 0x7d {
        return None;
    }
    if in_object {
        if b[q] != 0x22 {
            return None;
        }
        let ke = skip_string(b, q + 1);
        let c = skip_whitespace(b, ke);
        if c >= n || b[c] != 0x3a {
            return None;
        }
        let v = skip_whitespace(b, c + 1);
        if v >= n {
            return None;
        }
        let (_, ve) = skip_value(b, v);
        if ve > v {
            Some(Element { key_lo: q, key_hi: ke, val_lo: v, val_hi: ve, next: ve })
        } else {
            None
        }
    } else {
        let (_, ve) = skip_value(b, q);
        if ve > q {
            Some(Element { key_lo: q, key_hi: q, val_lo: q, val_hi: ve, next: ve })
        } else {
            None
        }
    }
}

/// Walks a container from cursor `p` and returns all its members.
pub fn collect_members(b: &[u8], p: usize, in_object: bool) -> (r: Vec<Element>)
    requires
        p <= b@.len(),
    ensures
        r@ == members(b@, p as int, in_object),
        forall|k: int| 0 <= k < r@.len() ==> p <= (#[trigger] r@[k]).key_lo && element_in(r@[k], b@.len() as int),
{
    let n = b.len();
    proof {
        lemma_members_bounds(b@, p as int, in_object);
    }
    let mut out: Vec<Element> = Vec::new();
    let mut i: usize = p;
    let mut done = false;
    while !done
        invariant
            p <= i <= b@.len(),
            !done ==> members(b@, p as int, in_object) == out@ + members(b@, i as int, in_object),
            done ==> members(b@, p as int, in_object) == out@,
        decreases b@.len() - i + (if done { 0int } else { 1int }),
    {
        match next_member(b, i, in_object) {
            Some(e) => {
                proof {
                    assert(out@ + (seq![e] + members(b@, e.next as int, in_object)) =~= out@.push(
                        e,
                    ) + members(b@, e.next as int, in_object));
                }
                out.push(e);
                i = e.next;
            },
            None => {
                proof {
                    assert(out@ + Seq::<Element>::empty() =~= out@);
                }
                done = true;
            },
        }
    }
    out
}

} // verus!
