//! Sorting the members of objects by key.

use vstd::prelude::*;
use crate::format::{make_pretty, pretty, PrettyOptions, Style};
use crate::found::{comma_joined, lemma_comma_joined_push};
use crate::scan::{
    collect_members,
    element_in,
    kind_at,
    members,
    skip_value,
    skip_whitespace,
    skip_ws,
    value_end,
    Element,
    Kind,
};
use crate::text::{append, bytes_less, lex_less};

verus! {

/// The raw key of a member.
pub open spec fn key_of(b: Seq<u8>, e: Element) -> Seq<u8> {
    b.subrange(e.key_lo as int, e.key_hi as int)
}

/// Where `e` goes in the first `k` members of a list that is sorted by key:
/// behind the last of them whose key does not come after the key of `e`.
pub open spec fn insert_at(b: Seq<u8>, list: Seq<Element>, e: Element, k: int) -> int
    decreases k,
{
    if k <= 0 || k > list.len() {
        0
    } else if lex_less(key_of(b, e), key_of(b, list[k - 1])) {
        insert_at(b, list, e, k - 1)
    } else {
        k
    }
}

/// The first `k` members of a list, sorted by key in byte order. Members with
/// the same key keep their order.
pub open spec fn sorted_upto(b: Seq<u8>, ms: Seq<Element>, k: int) -> Seq<Element>
    decreases k,
{
    if k <= 0 || k > ms.len() {
        Seq::empty()
    } else {
        let s = sorted_upto(b, ms, k - 1);
        s.insert(insert_at(b, s, ms[k - 1], s.len() as int), ms[k - 1])
    }
}

/// A list of members, sorted by key.
pub open spec fn sorted_members(b: Seq<u8>, ms: Seq<Element>) -> Seq<Element> {
    sorted_upto(b, ms, ms.len() as int)
}

/// The value that starts at `p`, written with the members of every object in
/// it sorted by key and with nothing but a comma between two members.
pub open spec fn sorted_text(b: Seq<u8>, p: int) -> Seq<u8>
    decreases b.len() - p, 1nat, 0int,
{
    match kind_at(b, p) {
        Kind::Object => {
            let es = sorted_members(b, members(b, p + 1, true));
            seq![0x7bu8] + comma_joined(sorted_pieces(b, p, es, es.len() as int)) + seq![0x7du8]
        },
        Kind::Array => {
            let es = members(b, p + 1, false);
            seq![0x5bu8] + comma_joined(sorted_pieces(b, p, es, es.len() as int)) + seq![0x5du8]
        },
        Kind::NotPresent => Seq::empty(),
        _ => b.subrange(p, value_end(b, p)),
    }
}

/// The first `k` members of the list `es` of the container at `p`, each
/// written with its key, if it has one, and its value sorted.
pub open spec fn sorted_pieces(b: Seq<u8>, p: int, es: Seq<Element>, k: int) -> Seq<Seq<u8>>
    decreases b.len() - p, 0nat, k,
{
    if k <= 0 || k > es.len() {
        Seq::empty()
    } else {
        let e = es[k - 1];
        let head = (if e.key_lo < e.key_hi {
            key_of(b, e) + seq![0x3au8]
        } else {
            Seq::<u8>::empty()
        });
        sorted_pieces(b, p, es, k - 1).push(
            head + (if p < e.val_lo <= b.len() {
                sorted_text(b, e.val_lo as int)
            } else {
                Seq::<u8>::empty()
            }),
        )
    }
}

/// Every member of the list lies inside the buffer behind position `p`.
pub open spec fn all_behind(es: Seq<Element>, p: int, n: int) -> bool {
    forall|k: int| 0 <= k < es.len() ==> p < (#[trigger] es[k]).key_lo && element_in(es[k], n)
}

fn find_place(b: &[u8], list: &Vec<Element>, e: &Element) -> (r: usize)
    requires
        element_in(*e, b@.len() as int),
        forall|k: int| 0 <= k < list@.len() ==> element_in(#[trigger] list@[k], b@.len() as int),
    ensures
        r == insert_at(b@, list@, *e, list@.len() as int),
        r <= list@.len(),
{
    let mut k: usize = list.len();
    while k > 0
        invariant
            k <= list@.len(),
            element_in(*e, b@.len() as int),
            forall|j: int| 0 <= j < list@.len() ==> element_in(#[trigger] list@[j], b@.len() as int),
            insert_at(b@, list@, *e, list@.len() as int) == insert_at(b@, list@, *e, k as int),
        decreases k,
    {
        let other = &list[k - 1];
        if bytes_less(
            vstd::slice::slice_subrange(b, e.key_lo, e.key_hi),
            vstd::slice::slice_subrange(b, other.key_lo, other.key_hi),
        ) {
            k -= 1;
        } else {
            return k;
        }
    }
    0
}

/// Sorts a list of members by key.
fn sort_members(b: &[u8], ms: &Vec<Element>, Ghost(p): Ghost<int>) -> (r: Vec<Element>)
    requires
        all_behind(ms@, p, b@.len() as int),
    ensures
        r@ == sorted_members(b@, ms@),
        all_behind(r@, p, b@.len() as int),
{
    let mut out: Vec<Element> = Vec::new();
    let mut k: usize = 0;
    while k < ms.len()
        invariant
            k <= ms@.len(),
            all_behind(ms@, p, b@.len() as int),
            out@ == sorted_upto(b@, ms@, k as int),
            out@.len() == k,
            all_behind(out@, p, b@.len() as int),
        decreases ms@.len() - k,
    {
        let e = ms[k];
        let at = find_place(b, &out, &e);
        let ghost before = out@;
        out.insert(at, e);
        proof {
            assert(out@ == before.insert(at as int, e));
            assert forall|j: int| 0 <= j < out@.len() implies p < (#[trigger] out@[j]).key_lo
                && element_in(out@[j], b@.len() as int) by {
                if j < at {
                    assert(out@[j] == before[j]);
                } else if j > at {
                    assert(out@[j] == before[j - 1]);
                }
            }
        }
        k += 1;
    }
    out
}

/// Appends the value that starts at `p` with the members of every object in
/// it sorted by key.
pub fn sort_into(out: &mut Vec<u8>, b: &[u8], p: usize)
    requires
        p <= b@.len(),
    ensures
        final(out)@ == old(out)@ + sorted_text(b@, p as int),
    decreases b@.len() - p,
{
    let n = b.len();
    let (kind, end) = skip_value(b, p);
    let object = match kind {
        Kind::Object => true,
        Kind::Array => false,
        Kind::NotPresent => {
            proof {
                assert(out@ =~= old(out)@ + Seq::<u8>::empty());
            }
            return ;
        },
        _ => {
            append(out, b, p, end);
            return ;
        },
    };
    let ms = collect_members(b, p + 1, object);
    let es = if object {
        sort_members(b, &ms, Ghost(p as int))
    } else {
        ms
    };
    out.push(if object { 0x7b } else { 0x5b });
    let ghost mut items: Seq<Seq<u8>> = Seq::empty();
    let ghost open: u8 = if object { 0x7b } else { 0x5b };
    let mut k: usize = 0;
    proof {
        assert(out@ =~= old(out)@ + seq![open] + comma_joined(items));
    }
    while k < es.len()
        invariant
            p < b@.len(),
            k <= es@.len(),
            all_behind(es@, p as int, b@.len() as int),
            items == sorted_pieces(b@, p as int, es@, k as int),
            items.len() == k,
            out@ == old(out)@ + seq![open] + comma_joined(items),
        decreases es@.len() - k,
    {
        let e = es[k];
        let ghost before = out@;
        if k > 0 {
            out.push(0x2c);
        }
        if e.key_lo < e.key_hi {
            append(out, b, e.key_lo, e.key_hi);
            out.push(0x3a);
        }
        let ghost mid = out@;
        sort_into(out, b, e.val_lo);
        proof {
            let head = (if e.key_lo < e.key_hi {
                key_of(b@, e) + seq![0x3au8]
            } else {
                Seq::<u8>::empty()
            });
            let item = head + sorted_text(b@, e.val_lo as int);
            lemma_comma_joined_push(items, item);
            assert(out@ =~= old(out)@ + seq![open] + comma_joined(items.push(item)));
            items = items.push(item);
        }
        k += 1;
    }
    out.push(if object { 0x7d } else { 0x5d });
    proof {
        assert(out@ =~= old(out)@ + sorted_text(b@, p as int));
    }
}

/// The indented form of a JSON text, with the members of its objects sorted
/// by key first where the layout asks for it.
pub open spec fn pretty_with(b: Seq<u8>, st: Style) -> Seq<u8> {
    if st.sort_keys {
        pretty(sorted_text(b, skip_ws(b, 0)), st)
    } else {
        pretty(b, st)
    }
}

/// Writes the indented form of `b` into a fresh buffer, sorting the members
/// of its objects by key first where the options ask for it.
pub fn make_pretty_with(b: &[u8], opts: &PrettyOptions) -> (r: Vec<u8>)
    ensures
        r@ == pretty_with(b@, opts@),
{
    if opts.sort_keys {
        let p = skip_whitespace(b, 0);
        let mut sorted: Vec<u8> = Vec::new();
        sort_into(&mut sorted, b, p);
        proof {
            assert(sorted@ =~= sorted_text(b@, p as int));
        }
        make_pretty(sorted.as_slice(), opts)
    } else {
        make_pretty(b, opts)
    }
}

} // verus!
