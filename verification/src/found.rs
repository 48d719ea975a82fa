//! What a lookup finds: a kind and a text, either a range of the buffer that
//! was searched or a text built on the way. Also the pieces that several
//! parts of the engine share: looking a member up by key and writing a list
//! of members out as an array or object.

use vstd::prelude::*;
use crate::path::SegKind;
use crate::scan::{
    collect_members,
    element_in,
    kind_at,
    kind_of,
    members,
    skip_value,
    skip_whitespace,
    skip_ws,
    value_end,
    Element,
    Kind,
};
use crate::text::{
    append,
    bytes_eq,
    glob,
    glob_match,
    json_unescape,
    path_unescape,
    unescape_json,
    unescape_path,
};

verus! {

/// What a lookup finds. `at` is the position of `text` in the buffer that was
/// searched; it is `None` when the text was built and stands nowhere in that
/// buffer.
pub struct Outcome {
    pub kind: Kind,
    pub text: Seq<u8>,
    pub at: Option<int>,
}

/// What a lookup finds, in executable form: the range `lo..hi` of the buffer
/// that was searched, or a buffer of its own.
pub struct Found {
    pub kind: Kind,
    pub lo: usize,
    pub hi: usize,
    pub owned: Option<Vec<u8>>,
}

impl Found {
    /// A range lies inside a buffer of length `n`.
    pub open spec fn fits(&self, n: int) -> bool {
        self.owned is None ==> self.lo <= self.hi <= n
    }

    /// What this stands for, with `b` the buffer that was searched.
    pub open spec fn outcome(&self, b: Seq<u8>) -> Outcome {
        match self.owned {
            Some(v) => Outcome { kind: self.kind, text: v@, at: None },
            None => Outcome {
                kind: self.kind,
                text: b.subrange(self.lo as int, self.hi as int),
                at: Some(self.lo as int),
            },
        }
    }
}

/// Nothing was found.
pub open spec fn absent() -> Outcome {
    Outcome { kind: Kind::NotPresent, text: Seq::empty(), at: None }
}

/// The value whose first byte is at `p`.
pub open spec fn value_at(b: Seq<u8>, p: int) -> Outcome {
    if kind_at(b, p) == Kind::NotPresent {
        absent()
    } else {
        Outcome { kind: kind_at(b, p), text: b.subrange(p, value_end(b, p)), at: Some(p) }
    }
}

/// A text that was built; its kind is that of the value it starts with.
pub open spec fn made(text: Seq<u8>) -> Outcome {
    let k = kind_at(text, skip_ws(text, 0));
    if k == Kind::NotPresent {
        absent()
    } else {
        Outcome { kind: k, text, at: None }
    }
}

/// The same outcome, no longer tied to a place in a buffer.
pub open spec fn detached(o: Outcome) -> Outcome {
    Outcome { kind: o.kind, text: o.text, at: None }
}

/// An outcome found inside a part of the buffer that starts at `base`, seen
/// from the whole buffer.
pub open spec fn moved(o: Outcome, base: int) -> Outcome {
    match o.at {
        Some(i) => Outcome { kind: o.kind, text: o.text, at: Some(i + base) },
        None => o,
    }
}

/// The text of a member as it is written out: the value alone in an array,
/// key, colon and value in an object.
pub open spec fn piece_text(b: Seq<u8>, e: Element) -> Seq<u8> {
    if e.key_lo < e.key_hi {
        b.subrange(e.key_lo as int, e.key_hi as int) + seq![0x3au8] + b.subrange(
            e.val_lo as int,
            e.val_hi as int,
        )
    } else {
        b.subrange(e.val_lo as int, e.val_hi as int)
    }
}

/// The key range and the value range of a member lie inside a buffer of
/// length `n`.
pub open spec fn spans_in(e: Element, n: int) -> bool {
    e.key_lo <= e.key_hi <= n && e.val_lo <= e.val_hi <= n
}

/// The texts of a list of members.
pub open spec fn piece_texts(b: Seq<u8>, es: Seq<Element>) -> Seq<Seq<u8>> {
    Seq::new(es.len(), |k: int| piece_text(b, es[k]))
}

/// The items with a comma between each two.
pub open spec fn comma_joined(items: Seq<Seq<u8>>) -> Seq<u8>
    decreases items.len(),
{
    if items.len() == 0 {
        Seq::empty()
    } else if items.len() == 1 {
        items[0]
    } else {
        comma_joined(items.drop_last()) + seq![0x2cu8] + items.last()
    }
}

/// The items as a JSON array.
pub open spec fn array_text(items: Seq<Seq<u8>>) -> Seq<u8> {
    seq![0x5bu8] + comma_joined(items) + seq![0x5du8]
}

/// The items, each a key with its value, as a JSON object.
pub open spec fn object_text(items: Seq<Seq<u8>>) -> Seq<u8> {
    seq![0x7bu8] + comma_joined(items) + seq![0x7du8]
}

/// The first position at or after `i` that holds `true`, or the length.
pub open spec fn first_true(flags: Seq<bool>, i: int) -> int
    decreases flags.len() - i,
{
    if i < 0 || i >= flags.len() {
        flags.len() as int
    } else if flags[i] {
        i
    } else {
        first_true(flags, i + 1)
    }
}

/// Whether the key of member `e` answers to the path component `comp`: by
/// name for `Key` and `Index`, by pattern for `Wildcard`. Keys are compared by
/// what they write, not by their raw text.
pub open spec fn key_answers(b: Seq<u8>, e: Element, kind: SegKind, comp: Seq<u8>) -> bool {
    let key = unescape_json(b.subrange(e.key_lo as int, e.key_hi as int));
    match kind {
        SegKind::Key | SegKind::Index => key == unescape_path(comp),
        SegKind::Wildcard => glob(comp, key),
        _ => false,
    }
}

/// For each member, whether its key answers to the component.
pub open spec fn key_hits(b: Seq<u8>, ms: Seq<Element>, kind: SegKind, comp: Seq<u8>) -> Seq<
    bool,
> {
    Seq::new(ms.len(), |k: int| key_answers(b, ms[k], kind, comp))
}

/// The first member of the object walk from `start` whose key answers to the
/// component.
pub open spec fn field_of(b: Seq<u8>, start: int, kind: SegKind, comp: Seq<u8>) -> Option<
    Element,
> {
    let ms = members(b, start, true);
    let k = first_true(key_hits(b, ms, kind, comp), 0);
    if 0 <= k < ms.len() {
        Some(ms[k])
    } else {
        None
    }
}

/// The member as a value of the buffer.
pub open spec fn element_value(b: Seq<u8>, e: Element) -> Outcome {
    Outcome {
        kind: kind_at(b, e.val_lo as int),
        text: b.subrange(e.val_lo as int, e.val_hi as int),
        at: Some(e.val_lo as int),
    }
}

/// Where no flag before `k` is set, the first set flag is at `k` if that one is
/// set, and there is none if `k` is the length.
pub proof fn lemma_first_true(flags: Seq<bool>, k: int)
    requires
        0 <= k <= flags.len(),
        forall|j: int| 0 <= j < k ==> !#[trigger] flags[j],
    ensures
        k < flags.len() && flags[k] ==> first_true(flags, 0) == k,
        k == flags.len() ==> first_true(flags, 0) == flags.len(),
        first_true(flags, 0) == first_true(flags, k),
    decreases k,
{
    if k > 0 {
        lemma_first_true(flags, k - 1);
        assert(!flags[k - 1]);
        assert(first_true(flags, k - 1) == first_true(flags, k));
    }
    if k < flags.len() && flags[k] {
        assert(first_true(flags, k) == k);
    }
}

/// Adding an item to a list adds it to the joined text, behind a comma unless
/// it is the first.
pub proof fn lemma_comma_joined_push(items: Seq<Seq<u8>>, x: Seq<u8>)
    ensures
        comma_joined(items.push(x)) == if items.len() == 0 {
            x
        } else {
            comma_joined(items) + seq![0x2cu8] + x
        },
{
    assert(items.push(x).drop_last() =~= items);
}

/// Nothing was found.
pub fn none_found() -> (r: Found)
    ensures
        forall|b: Seq<u8>| #[trigger] r.outcome(b) == absent(),
        r.owned is Some,
{
    Found { kind: Kind::NotPresent, lo: 0, hi: 0, owned: Some(Vec::new()) }
}

/// The value whose first byte is at `p`.
pub fn found_at(b: &[u8], p: usize) -> (r: Found)
    requires
        p <= b@.len(),
    ensures
        r.outcome(b@) == value_at(b@, p as int),
        r.fits(b@.len() as int),
{
    let (k, e) = skip_value(b, p);
    if k == Kind::NotPresent {
        none_found()
    } else {
        Found { kind: k, lo: p, hi: e, owned: None }
    }
}

/// Wraps a text that was built.
pub fn found_made(text: Vec<u8>) -> (r: Found)
    ensures
        forall|b: Seq<u8>| #[trigger] r.outcome(b) == made(text@),
        r.owned is Some,
{
    let v = skip_whitespace(text.as_slice(), 0);
    let k = kind_of(text.as_slice(), v);
    if k == Kind::NotPresent {
        none_found()
    } else {
        Found { kind: k, lo: 0, hi: 0, owned: Some(text) }
    }
}

/// The member as a value of the buffer.
pub fn found_element(b: &[u8], e: &Element) -> (r: Found)
    requires
        element_in(*e, b@.len() as int),
    ensures
        r.outcome(b@) == element_value(b@, *e),
        r.fits(b@.len() as int),
{
    Found { kind: kind_of(b, e.val_lo), lo: e.val_lo, hi: e.val_hi, owned: None }
}

/// Tests whether the key of a member answers to a path component.
pub fn key_matches(b: &[u8], e: &Element, kind: SegKind, comp: &[u8]) -> (r: bool)
    requires
        element_in(*e, b@.len() as int),
    ensures
        r == key_answers(b@, *e, kind, comp@),
{
    match kind {
        SegKind::Key | SegKind::Index => {
            let key = json_unescape(vstd::slice::slice_subrange(b, e.key_lo, e.key_hi));
            let name = path_unescape(comp);
            bytes_eq(key.as_slice(), name.as_slice())
        },
        SegKind::Wildcard => {
            let key = json_unescape(vstd::slice::slice_subrange(b, e.key_lo, e.key_hi));
            glob_match(comp, key.as_slice())
        },
        _ => false,
    }
}

/// Looks a member of an object up by a path component; `start` is the cursor
/// behind the opening bracket.
pub fn find_field(b: &[u8], start: usize, kind: SegKind, comp: &[u8]) -> (r: Option<Element>)
    requires
        start <= b@.len(),
    ensures
        r == field_of(b@, start as int, kind, comp@),
        r matches Some(e) ==> element_in(e, b@.len() as int),
{
    let ms = collect_members(b, start, true);
    let ghost flags = key_hits(b@, ms@, kind, comp@);
    let mut k: usize = 0;
    while k < ms.len()
        invariant
            k <= ms@.len(),
            ms@ == members(b@, start as int, true),
            flags == key_hits(b@, ms@, kind, comp@),
            forall|j: int| 0 <= j < ms@.len() ==> element_in(#[trigger] ms@[j], b@.len() as int),
            forall|j: int| 0 <= j < k ==> !#[trigger] flags[j],
        decreases ms@.len() - k,
    {
        if key_matches(b, &ms[k], kind, comp) {
            proof {
                lemma_first_true(flags, k as int);
            }
            return Some(ms[k]);
        }
        k += 1;
    }
    proof {
        lemma_first_true(flags, k as int);
    }
    None
}

/// Appends one item to a list that is being written out: a comma unless the
/// item is the first, then the item.
pub fn push_item(out: &mut Vec<u8>, first: bool, item: &[u8], lo: usize, hi: usize)
    requires
        lo <= hi <= item@.len(),
    ensures
        final(out)@ == old(out)@ + (if first {
            Seq::<u8>::empty()
        } else {
            seq![0x2cu8]
        }) + item@.subrange(lo as int, hi as int),
{
    if !first {
        out.push(0x2c);
    }
    proof {
        assert(out@ =~= old(out)@ + (if first {
            Seq::<u8>::empty()
        } else {
            seq![0x2cu8]
        }));
    }
    append(out, item, lo, hi);
}

/// Writes the text of a member into a fresh buffer.
pub fn piece_of(b: &[u8], e: &Element) -> (r: Vec<u8>)
    requires
        spans_in(*e, b@.len() as int),
    ensures
        r@ == piece_text(b@, *e),
{
    let mut out: Vec<u8> = Vec::new();
    if e.key_lo < e.key_hi {
        append(&mut out, b, e.key_lo, e.key_hi);
        out.push(0x3a);
    }
    append(&mut out, b, e.val_lo, e.val_hi);
    proof {
        assert(out@ =~= piece_text(b@, *e));
    }
    out
}

/// Writes a list of members out between the brackets `open` and `close`.
pub fn join_elements(b: &[u8], open: u8, close: u8, es: &Vec<Element>) -> (r: Vec<u8>)
    requires
        forall|k: int| 0 <= k < es@.len() ==> spans_in(#[trigger] es@[k], b@.len() as int),
    ensures
        r@ == seq![open] + comma_joined(piece_texts(b@, es@)) + seq![close],
{
    let ghost all = piece_texts(b@, es@);
    let mut out: Vec<u8> = Vec::new();
    out.push(open);
    let mut k: usize = 0;
    proof {
        assert(all.subrange(0, 0) =~= Seq::<Seq<u8>>::empty());
        assert(out@ =~= seq![open] + comma_joined(all.subrange(0, 0)));
    }
    while k < es.len()
        invariant
            k <= es@.len(),
            all == piece_texts(b@, es@),
            forall|j: int| 0 <= j < es@.len() ==> spans_in(#[trigger] es@[j], b@.len() as int),
            out@ == seq![open] + comma_joined(all.subrange(0, k as int)),
        decreases es@.len() - k,
    {
        let piece = piece_of(b, &es[k]);
        let ghost before = out@;
        let n = piece.len();
        push_item(&mut out, k == 0, piece.as_slice(), 0, n);
        proof {
            assert(piece@.subrange(0, n as int) =~= piece@);
            assert(all.subrange(0, k + 1) =~= all.subrange(0, k as int).push(all[k as int]));
            lemma_comma_joined_push(all.subrange(0, k as int), all[k as int]);
            assert(out@ =~= seq![open] + comma_joined(all.subrange(0, k + 1)));
        }
        k += 1;
    }
    proof {
        assert(all.subrange(0, es@.len() as int) =~= all);
    }
    out.push(close);
    out
}

} // verus!
