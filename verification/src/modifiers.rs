//! The named transforms that a path can apply to the current value.
//!
//! A modifier reads the current value, the range `lo..hi` of the buffer, and
//! gives a value back: the same range, a text of its own, or nothing.

use vstd::prelude::*;
use crate::format::{default_style, make_ugly, pretty, ugly, PrettyOptions, Style};
use crate::found::{
    absent,
    field_of,
    find_field,
    found_at,
    found_made,
    join_elements,
    made,
    none_found,
    object_text,
    array_text,
    piece_texts,
    spans_in,
    value_at,
    Found,
    Outcome,
};
use crate::path::SegKind;
use crate::sorting::{make_pretty_with, pretty_with};
use crate::scan::{
    collect_members,
    element_in,
    kind_at,
    kind_of,
    members,
    skip_whitespace,
    skip_ws,
    Element,
    Kind,
};
use crate::text::{bytes_eq, json_unescape, unescape_json};
use crate::valid::{is_valid, valid_bytes};

verus! {

/// The name `this`.
pub open spec fn name_this() -> Seq<u8> {
    seq![0x74u8, 0x68u8, 0x69u8, 0x73u8]
}

/// The name `valid`.
pub open spec fn name_valid() -> Seq<u8> {
    seq![0x76u8, 0x61u8, 0x6cu8, 0x69u8, 0x64u8]
}

/// The name `ugly`.
pub open spec fn name_ugly() -> Seq<u8> {
    seq![0x75u8, 0x67u8, 0x6cu8, 0x79u8]
}

/// The name `pretty`.
pub open spec fn name_pretty() -> Seq<u8> {
    seq![0x70u8, 0x72u8, 0x65u8, 0x74u8, 0x74u8, 0x79u8]
}

/// The name `reverse`.
pub open spec fn name_reverse() -> Seq<u8> {
    seq![0x72u8, 0x65u8, 0x76u8, 0x65u8, 0x72u8, 0x73u8, 0x65u8]
}

/// The name `flatten`.
pub open spec fn name_flatten() -> Seq<u8> {
    seq![0x66u8, 0x6cu8, 0x61u8, 0x74u8, 0x74u8, 0x65u8, 0x6eu8]
}

/// The name `join`.
pub open spec fn name_join() -> Seq<u8> {
    seq![0x6au8, 0x6fu8, 0x69u8, 0x6eu8]
}

/// The option `deep`.
pub open spec fn option_deep() -> Seq<u8> {
    seq![0x64u8, 0x65u8, 0x65u8, 0x70u8]
}

/// The option `preserve`.
pub open spec fn option_preserve() -> Seq<u8> {
    seq![0x70u8, 0x72u8, 0x65u8, 0x73u8, 0x65u8, 0x72u8, 0x76u8, 0x65u8]
}

/// The option `indent`.
pub open spec fn option_indent() -> Seq<u8> {
    seq![0x69u8, 0x6eu8, 0x64u8, 0x65u8, 0x6eu8, 0x74u8]
}

/// The option `prefix`.
pub open spec fn option_prefix() -> Seq<u8> {
    seq![0x70u8, 0x72u8, 0x65u8, 0x66u8, 0x69u8, 0x78u8]
}

/// The option `sortKeys`.
pub open spec fn option_sort_keys() -> Seq<u8> {
    seq![0x73u8, 0x6fu8, 0x72u8, 0x74u8, 0x4bu8, 0x65u8, 0x79u8, 0x73u8]
}

/// The member `name` of the argument object, if the argument is an object and
/// has one.
pub open spec fn option_of(arg: Seq<u8>, name: Seq<u8>) -> Option<Element> {
    let v = skip_ws(arg, 0);
    if kind_at(arg, v) == Kind::Object {
        field_of(arg, v + 1, SegKind::Key, name)
    } else {
        None
    }
}

/// The argument sets the option `name` to `true`.
pub open spec fn flag_set(arg: Seq<u8>, name: Seq<u8>) -> bool {
    match option_of(arg, name) {
        Some(e) => kind_at(arg, e.val_lo as int) == Kind::True,
        None => false,
    }
}

/// The string that the argument gives the option `name`, or `default` where
/// it gives none.
pub open spec fn text_option(arg: Seq<u8>, name: Seq<u8>, default: Seq<u8>) -> Seq<u8> {
    match option_of(arg, name) {
        Some(e) => if kind_at(arg, e.val_lo as int) == Kind::String {
            unescape_json(arg.subrange(e.val_lo as int, e.val_hi as int))
        } else {
            default
        },
        None => default,
    }
}

/// The layout that the argument of `@pretty` asks for: the options `indent`
/// and `prefix` are read, each a string, and `sortKeys`, which is set by
/// `true`.
pub open spec fn style_of(arg: Seq<u8>) -> Style {
    Style {
        indent: text_option(arg, option_indent(), default_style().indent),
        prefix: text_option(arg, option_prefix(), default_style().prefix),
        sort_keys: flag_set(arg, option_sort_keys()),
    }
}

/// The same members, last first.
pub open spec fn backwards(es: Seq<Element>) -> Seq<Element> {
    Seq::new(es.len(), |k: int| es[es.len() - 1 - k])
}

/// The elements of the array walk from `start` with every element that is an
/// array replaced by its own elements: by one level, or through all levels
/// when `deep` is set.
pub open spec fn flat_items(b: Seq<u8>, start: int, deep: bool) -> Seq<Element>
    decreases b.len() - start, 1nat, 0int,
{
    flat_upto(b, start, deep, members(b, start, false).len() as int)
}

/// What the first `k` elements of the walk from `start` add to `flat_items`.
pub open spec fn flat_upto(b: Seq<u8>, start: int, deep: bool, k: int) -> Seq<Element>
    decreases b.len() - start, 0nat, k,
{
    let ms = members(b, start, false);
    if k <= 0 || k > ms.len() {
        Seq::empty()
    } else {
        let e = ms[k - 1];
        let head = flat_upto(b, start, deep, k - 1);
        if kind_at(b, e.val_lo as int) == Kind::Array {
            if !deep {
                head + members(b, e.val_lo + 1, false)
            } else if start <= e.val_lo < b.len() {
                head + flat_items(b, e.val_lo + 1, true)
            } else {
                head
            }
        } else {
            head.push(e)
        }
    }
}

/// The members of the objects among the first `k` elements of the array walk
/// from `start`, in order. Elements that are no objects add nothing.
pub open spec fn fields_upto(b: Seq<u8>, start: int, k: int) -> Seq<Element>
    decreases k,
{
    let ms = members(b, start, false);
    if k <= 0 || k > ms.len() {
        Seq::empty()
    } else {
        let e = ms[k - 1];
        let head = fields_upto(b, start, k - 1);
        if kind_at(b, e.val_lo as int) == Kind::Object {
            head + members(b, e.val_lo + 1, true)
        } else {
            head
        }
    }
}

/// The members of all objects in the array walk from `start`.
pub open spec fn all_fields(b: Seq<u8>, start: int) -> Seq<Element> {
    fields_upto(b, start, members(b, start, false).len() as int)
}

/// Two members have the same raw key.
pub open spec fn same_key(b: Seq<u8>, x: Element, y: Element) -> bool {
    b.subrange(x.key_lo as int, x.key_hi as int) == b.subrange(y.key_lo as int, y.key_hi as int)
}

/// A member before position `i` has the key of member `i`.
pub open spec fn seen_before(b: Seq<u8>, fs: Seq<Element>, i: int) -> bool {
    exists|j: int| 0 <= j < i && same_key(b, #[trigger] fs[j], fs[i])
}

/// The last position below `n` that holds the key of member `i`; `i` itself
/// where no later member has it.
pub open spec fn last_same(b: Seq<u8>, fs: Seq<Element>, i: int, n: int) -> int
    decreases n,
{
    if i < 0 || n <= i + 1 || n > fs.len() {
        i
    } else if same_key(b, fs[n - 1], fs[i]) {
        n - 1
    } else {
        last_same(b, fs, i, n - 1)
    }
}

/// Member `i` with the value of the last member that has its key.
pub open spec fn with_last_value(b: Seq<u8>, fs: Seq<Element>, i: int) -> Element {
    let l = last_same(b, fs, i, fs.len() as int);
    Element {
        key_lo: fs[i].key_lo,
        key_hi: fs[i].key_hi,
        val_lo: fs[l].val_lo,
        val_hi: fs[l].val_hi,
        next: fs[l].next,
    }
}

/// The first `k` members with duplicate keys merged: each key stands where it
/// first appears and has the value it has where it appears last.
pub open spec fn merged_upto(b: Seq<u8>, fs: Seq<Element>, k: int) -> Seq<Element>
    decreases k,
{
    if k <= 0 || k > fs.len() {
        Seq::empty()
    } else if seen_before(b, fs, k - 1) {
        merged_upto(b, fs, k - 1)
    } else {
        merged_upto(b, fs, k - 1).push(with_last_value(b, fs, k - 1))
    }
}

/// All members with duplicate keys merged.
pub open spec fn merged(b: Seq<u8>, fs: Seq<Element>) -> Seq<Element> {
    merged_upto(b, fs, fs.len() as int)
}

/// What the modifier `name` with argument `arg` makes of the current value,
/// the range `lo..hi` of `b`.
///
/// - `this` gives the value itself.
/// - `valid` gives the value itself if the range is valid JSON, else nothing.
/// - `ugly` gives the compact form of the range.
/// - `pretty` gives the indented form of the range, with the members of objects
///   sorted by key where the argument asks for it.
/// - `reverse` gives an array with its elements, or an object with its
///   members, in reverse order; any other value stays as it is.
/// - `flatten` gives an array with the elements of its inner arrays in their
///   place, through all levels with the option `deep`; any other value stays
///   as it is.
/// - `join` gives one object with the members of all objects of an array;
///   duplicate keys are merged unless the option `preserve` is set; any other
///   value stays as it is.
/// - Any other name gives nothing.
#[verifier::opaque]
pub open spec fn modified(b: Seq<u8>, lo: int, hi: int, name: Seq<u8>, arg: Seq<u8>) -> Outcome {
    let cur = b.subrange(lo, hi);
    let v = skip_ws(b, lo);
    let k = kind_at(b, v);
    if name == name_this() {
        value_at(b, v)
    } else if name == name_valid() {
        if is_valid(cur) {
            value_at(b, v)
        } else {
            absent()
        }
    } else if name == name_ugly() {
        made(ugly(cur))
    } else if name == name_pretty() {
        made(pretty_with(cur, style_of(arg)))
    } else if name == name_reverse() {
        if k == Kind::Array {
            made(array_text(piece_texts(b, backwards(members(b, v + 1, false)))))
        } else if k == Kind::Object {
            made(object_text(piece_texts(b, backwards(members(b, v + 1, true)))))
        } else {
            value_at(b, v)
        }
    } else if name == name_flatten() {
        if k == Kind::Array {
            made(array_text(piece_texts(b, flat_items(b, v + 1, flag_set(arg, option_deep())))))
        } else {
            value_at(b, v)
        }
    } else if name == name_join() {
        if k == Kind::Array {
            if flag_set(arg, option_preserve()) {
                made(object_text(piece_texts(b, all_fields(b, v + 1))))
            } else {
                made(object_text(piece_texts(b, merged(b, all_fields(b, v + 1)))))
            }
        } else {
            value_at(b, v)
        }
    } else {
        absent()
    }
}

/// All elements of a list lie inside a buffer of length `n`.
pub open spec fn all_in(es: Seq<Element>, n: int) -> bool {
    forall|k: int| 0 <= k < es.len() ==> spans_in(#[trigger] es[k], n)
}

fn option_member(arg: &[u8], name: &[u8]) -> (r: Option<Element>)
    ensures
        r == option_of(arg@, name@),
        r matches Some(e) ==> element_in(e, arg@.len() as int),
{
    let n = arg.len();
    let v = skip_whitespace(arg, 0);
    if kind_of(arg, v) == Kind::Object {
        find_field(arg, v + 1, SegKind::Key, name)
    } else {
        None
    }
}

/// Tests whether the argument sets an option to `true`.
pub fn read_flag(arg: &[u8], name: &[u8]) -> (r: bool)
    ensures
        r == flag_set(arg@, name@),
{
    match option_member(arg, name) {
        Some(e) => kind_of(arg, e.val_lo) == Kind::True,
        None => false,
    }
}

/// Reads a string option of the argument.
pub fn read_text_option(arg: &[u8], name: &[u8], default: Vec<u8>) -> (r: Vec<u8>)
    ensures
        r@ == text_option(arg@, name@, default@),
{
    match option_member(arg, name) {
        Some(e) => {
            if kind_of(arg, e.val_lo) == Kind::String {
                json_unescape(vstd::slice::slice_subrange(arg, e.val_lo, e.val_hi))
            } else {
                default
            }
        },
        None => default,
    }
}

/// Reads the layout that the argument of `@pretty` asks for.
pub fn read_style(arg: &[u8]) -> (r: PrettyOptions)
    ensures
        r@ == style_of(arg@),
{
    let d = crate::format::default_options();
    let indent_name: [u8; 6] = [0x69u8, 0x6eu8, 0x64u8, 0x65u8, 0x6eu8, 0x74u8];
    let prefix_name: [u8; 6] = [0x70u8, 0x72u8, 0x65u8, 0x66u8, 0x69u8, 0x78u8];
    proof {
        assert(indent_name@ =~= option_indent());
        assert(prefix_name@ =~= option_prefix());
    }
    let sort_name: [u8; 8] = [0x73u8, 0x6fu8, 0x72u8, 0x74u8, 0x4bu8, 0x65u8, 0x79u8, 0x73u8];
    proof {
        assert(sort_name@ =~= option_sort_keys());
    }
    let indent = read_text_option(arg, &indent_name, d.indent);
    let prefix = read_text_option(arg, &prefix_name, d.prefix);
    let sort_keys = read_flag(arg, &sort_name);
    PrettyOptions { indent, prefix, sort_keys }
}

/// The members, last first.
pub fn reverse_elements(es: &Vec<Element>) -> (r: Vec<Element>)
    ensures
        r@ == backwards(es@),
{
    let n = es.len();
    let mut out: Vec<Element> = Vec::new();
    let mut k: usize = 0;
    while k < n
        invariant
            n == es@.len(),
            k <= n,
            out@ == backwards(es@).subrange(0, k as int),
        decreases n - k,
    {
        out.push(es[n - 1 - k]);
        k += 1;
        proof {
            assert(out@ =~= backwards(es@).subrange(0, k as int));
        }
    }
    proof {
        assert(backwards(es@).subrange(0, n as int) =~= backwards(es@));
    }
    out
}

/// Appends all of `more` to `out`.
fn extend_elements(out: &mut Vec<Element>, more: &Vec<Element>)
    ensures
        final(out)@ == old(out)@ + more@,
{
    let mut k: usize = 0;
    proof {
        assert(out@ =~= old(out)@ + more@.subrange(0, 0));
    }
    while k < more.len()
        invariant
            k <= more@.len(),
            out@ == old(out)@ + more@.subrange(0, k as int),
        decreases more@.len() - k,
    {
        out.push(more[k]);
        k += 1;
        proof {
            assert(out@ =~= old(out)@ + more@.subrange(0, k as int));
        }
    }
    proof {
        assert(more@.subrange(0, more@.len() as int) =~= more@);
    }
}

/// Appends the flattened elements of the array walk from `start`.
pub fn flatten_into(b: &[u8], start: usize, deep: bool, out: &mut Vec<Element>)
    requires
        start <= b@.len(),
        all_in(old(out)@, b@.len() as int),
    ensures
        final(out)@ == old(out)@ + flat_items(b@, start as int, deep),
        all_in(final(out)@, b@.len() as int),
    decreases b@.len() - start,
{
    let ms = collect_members(b, start, false);
    let mut k: usize = 0;
    proof {
        assert(out@ =~= old(out)@ + flat_upto(b@, start as int, deep, 0));
    }
    while k < ms.len()
        invariant
            start <= b@.len(),
            k <= ms@.len(),
            ms@ == members(b@, start as int, false),
            forall|j: int|
                0 <= j < ms@.len() ==> start <= (#[trigger] ms@[j]).key_lo && element_in(
                    ms@[j],
                    b@.len() as int,
                ),
            out@ == old(out)@ + flat_upto(b@, start as int, deep, k as int),
            all_in(out@, b@.len() as int),
        decreases ms@.len() - k,
    {
        let e = ms[k];
        let ghost before = out@;
        let ghost head = flat_upto(b@, start as int, deep, k as int);
        if kind_of(b, e.val_lo) == Kind::Array {
            if !deep {
                let inner = collect_members(b, e.val_lo + 1, false);
                extend_elements(out, &inner);
                proof {
                    assert(out@ =~= old(out)@ + (head + inner@));
                }
            } else {
                flatten_into(b, e.val_lo + 1, true, out);
                proof {
                    assert(out@ =~= old(out)@ + (head + flat_items(b@, e.val_lo + 1, true)));
                }
            }
        } else {
            out.push(e);
            proof {
                assert(out@ =~= old(out)@ + head.push(e));
            }
        }
        k += 1;
    }
}

/// Gathers the members of all objects in the array walk from `start`.
pub fn gather_fields(b: &[u8], start: usize) -> (r: Vec<Element>)
    requires
        start <= b@.len(),
    ensures
        r@ == all_fields(b@, start as int),
        all_in(r@, b@.len() as int),
{
    let ms = collect_members(b, start, false);
    let mut out: Vec<Element> = Vec::new();
    let mut k: usize = 0;
    while k < ms.len()
        invariant
            k <= ms@.len(),
            ms@ == members(b@, start as int, false),
            forall|j: int| 0 <= j < ms@.len() ==> element_in(#[trigger] ms@[j], b@.len() as int),
            out@ == fields_upto(b@, start as int, k as int),
            all_in(out@, b@.len() as int),
        decreases ms@.len() - k,
    {
        let e = ms[k];
        if kind_of(b, e.val_lo) == Kind::Object {
            let inner = collect_members(b, e.val_lo + 1, true);
            extend_elements(&mut out, &inner);
        }
        k += 1;
    }
    out
}

fn keys_equal(b: &[u8], x: &Element, y: &Element) -> (r: bool)
    requires
        spans_in(*x, b@.len() as int),
        spans_in(*y, b@.len() as int),
    ensures
        r == same_key(b@, *x, *y),
{
    bytes_eq(
        vstd::slice::slice_subrange(b, x.key_lo, x.key_hi),
        vstd::slice::slice_subrange(b, y.key_lo, y.key_hi),
    )
}

fn key_seen_before(b: &[u8], fs: &Vec<Element>, i: usize) -> (r: bool)
    requires
        i < fs@.len(),
        all_in(fs@, b@.len() as int),
    ensures
        r == seen_before(b@, fs@, i as int),
{
    let mut j: usize = 0;
    while j < i
        invariant
            j <= i < fs@.len(),
            all_in(fs@, b@.len() as int),
            forall|t: int| 0 <= t < j ==> !same_key(b@, #[trigger] fs@[t], fs@[i as int]),
        decreases i - j,
    {
        if keys_equal(b, &fs[j], &fs[i]) {
            return true;
        }
        j += 1;
    }
    false
}

fn find_last_same(b: &[u8], fs: &Vec<Element>, i: usize) -> (r: usize)
    requires
        i < fs@.len(),
        all_in(fs@, b@.len() as int),
    ensures
        r == last_same(b@, fs@, i as int, fs@.len() as int),
        i <= r < fs@.len(),
{
    let mut n: usize = fs.len();
    while n > i + 1
        invariant
            i < n <= fs@.len(),
            all_in(fs@, b@.len() as int),
            last_same(b@, fs@, i as int, fs@.len() as int) == last_same(
                b@,
                fs@,
                i as int,
                n as int,
            ),
        decreases n,
    {
        if keys_equal(b, &fs[n - 1], &fs[i]) {
            return n - 1;
        }
        n -= 1;
    }
    i
}

/// Merges duplicate keys: each key stays where it first appears and takes the
/// value of its last appearance.
pub fn merge_fields(b: &[u8], fs: &Vec<Element>) -> (r: Vec<Element>)
    requires
        all_in(fs@, b@.len() as int),
    ensures
        r@ == merged(b@, fs@),
        all_in(r@, b@.len() as int),
{
    let mut out: Vec<Element> = Vec::new();
    let mut k: usize = 0;
    while k < fs.len()
        invariant
            k <= fs@.len(),
            all_in(fs@, b@.len() as int),
            out@ == merged_upto(b@, fs@, k as int),
            all_in(out@, b@.len() as int),
        decreases fs@.len() - k,
    {
        if !key_seen_before(b, fs, k) {
            let l = find_last_same(b, fs, k);
            let e = Element {
                key_lo: fs[k].key_lo,
                key_hi: fs[k].key_hi,
                val_lo: fs[l].val_lo,
                val_hi: fs[l].val_hi,
                next: fs[l].next,
            };
            out.push(e);
        }
        k += 1;
    }
    out
}

/// Applies the modifier `name` with argument `arg` to the range `lo..hi`.
pub fn apply_modifier(b: &[u8], lo: usize, hi: usize, name: &[u8], arg: &[u8]) -> (r: Found)
    requires
        lo <= hi <= b@.len(),
    ensures
        r.outcome(b@) == modified(b@, lo as int, hi as int, name@, arg@),
        r.fits(b@.len() as int),
{
    proof {
        reveal(modified);
    }
    let n = b.len();
    let cur = vstd::slice::slice_subrange(b, lo, hi);
    let v = skip_whitespace(b, lo);
    let k = kind_of(b, v);
    let w_this: [u8; 4] = [0x74u8, 0x68u8, 0x69u8, 0x73u8];
    let w_valid: [u8; 5] = [0x76u8, 0x61u8, 0x6cu8, 0x69u8, 0x64u8];
    let w_ugly: [u8; 4] = [0x75u8, 0x67u8, 0x6cu8, 0x79u8];
    let w_pretty: [u8; 6] = [0x70u8, 0x72u8, 0x65u8, 0x74u8, 0x74u8, 0x79u8];
    let w_reverse: [u8; 7] = [0x72u8, 0x65u8, 0x76u8, 0x65u8, 0x72u8, 0x73u8, 0x65u8];
    let w_flatten: [u8; 7] = [0x66u8, 0x6cu8, 0x61u8, 0x74u8, 0x74u8, 0x65u8, 0x6eu8];
    let w_join: [u8; 4] = [0x6au8, 0x6fu8, 0x69u8, 0x6eu8];
    let w_deep: [u8; 4] = [0x64u8, 0x65u8, 0x65u8, 0x70u8];
    let w_preserve: [u8; 8] = [0x70u8, 0x72u8, 0x65u8, 0x73u8, 0x65u8, 0x72u8, 0x76u8, 0x65u8];
    proof {
        assert(w_this@ =~= name_this());
        assert(w_valid@ =~= name_valid());
        assert(w_ugly@ =~= name_ugly());
        assert(w_pretty@ =~= name_pretty());
        assert(w_reverse@ =~= name_reverse());
        assert(w_flatten@ =~= name_flatten());
        assert(w_join@ =~= name_join());
        assert(w_deep@ =~= option_deep());
        assert(w_preserve@ =~= option_preserve());
    }
    if bytes_eq(name, &w_this) {
        found_at(b, v)
    } else if bytes_eq(name, &w_valid) {
        if valid_bytes(cur) {
            found_at(b, v)
        } else {
            none_found()
        }
    } else if bytes_eq(name, &w_ugly) {
        found_made(make_ugly(cur))
    } else if bytes_eq(name, &w_pretty) {
        let opts = read_style(arg);
        found_made(make_pretty_with(cur, &opts))
    } else if bytes_eq(name, &w_reverse) {
        if k == Kind::Array {
            let ms = collect_members(b, v + 1, false);
            let rev = reverse_elements(&ms);
            found_made(join_elements(b, 0x5b, 0x5d, &rev))
        } else if k == Kind::Object {
            let ms = collect_members(b, v + 1, true);
            let rev = reverse_elements(&ms);
            found_made(join_elements(b, 0x7b, 0x7d, &rev))
        } else {
            found_at(b, v)
        }
    } else if bytes_eq(name, &w_flatten) {
        if k == Kind::Array {
            let deep = read_flag(arg, &w_deep);
            let mut items: Vec<Element> = Vec::new();
            flatten_into(b, v + 1, deep, &mut items);
            proof {
                assert(items@ =~= flat_items(b@, v + 1, deep));
            }
            found_made(join_elements(b, 0x5b, 0x5d, &items))
        } else {
            found_at(b, v)
        }
    } else if bytes_eq(name, &w_join) {
        if k == Kind::Array {
            let fs = gather_fields(b, v + 1);
            if read_flag(arg, &w_preserve) {
                found_made(join_elements(b, 0x7b, 0x7d, &fs))
            } else {
                let ms = merge_fields(b, &fs);
                found_made(join_elements(b, 0x7b, 0x7d, &ms))
            }
        } else {
            found_at(b, v)
        }
    } else {
        none_found()
    }
}

} // verus!
