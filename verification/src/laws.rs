//! Laws of the engine that relate several of its operations: reversing twice,
//! and counting against listing.

use vstd::prelude::*;
use crate::eval::{
    collect_upto,
    each_path,
    eval,
    get_spec,
    in_array,
    lemma_collect_upto_unfold,
    lemma_eval_unfold,
    lemma_follow_unfold,
    lemma_in_array_unfold,
    lemma_separated_is_joined,
    list_test,
    modifier_arg,
    modifier_name,
    separated,
    tail_path,
};
use crate::found::{array_text, made, object_text, piece_texts, spans_in, value_at, Outcome};
use crate::lists::{
    lemma_member_sealed,
    lemma_member_step,
    lemma_piece_texts,
    lemma_walk_written,
    pieces_bytes,
    pieces_of,
    sealed,
    Piece,
};
use crate::modifiers::{backwards, modified, name_reverse, name_this};
use crate::path::{
    after_pipe,
    before_pipe,
    component,
    first_segment,
    name_end,
    pipe_at,
    rest_of,
    SegKind,
    Segment,
};
use crate::scan::{
    element_in,
    is_digit,
    kind_at,
    lemma_member_follows,
    lemma_members_bounds,
    lemma_next_element_facts,
    members,
    skip_ws,
    Element,
    Kind,
};
use crate::text::decimal;
use crate::value::items_of;

verus! {

/// Every member of the walk from `start` ends before the buffer ends: none is
/// cut off by the end of the text.
pub open spec fn members_closed(b: Seq<u8>, start: int, in_object: bool) -> bool {
    forall|k: int|
        0 <= k < members(b, start, in_object).len() ==> (#[trigger] members(
            b,
            start,
            in_object,
        )[k]).val_hi < b.len()
}

/// The members of a list, last first.
pub open spec fn turned(ps: Seq<Piece>) -> Seq<Piece> {
    Seq::new(ps.len(), |k: int| ps[ps.len() - 1 - k])
}

/// The items between the brackets of an array or an object.
pub open spec fn bracketed(object: bool, items: Seq<Seq<u8>>) -> Seq<u8> {
    if object {
        object_text(items)
    } else {
        array_text(items)
    }
}

/// A list of sealed members, written out between brackets, is read back as
/// these members.
pub proof fn lemma_written_list(ps: Seq<Piece>, object: bool)
    requires
        bracketed(object, pieces_bytes(ps)).len() <= usize::MAX,
        forall|k: int| 0 <= k < ps.len() ==> sealed(#[trigger] ps[k], object),
    ensures
        members_closed(bracketed(object, pieces_bytes(ps)), 1, object),
        pieces_of(
            bracketed(object, pieces_bytes(ps)),
            members(bracketed(object, pieces_bytes(ps)), 1, object),
        ) == ps,
        members(bracketed(object, pieces_bytes(ps)), 1, object).len() == ps.len(),
        kind_at(bracketed(object, pieces_bytes(ps)), 0) == if object {
            Kind::Object
        } else {
            Kind::Array
        },
        skip_ws(bracketed(object, pieces_bytes(ps)), 0) == 0,
{
    let texts = pieces_bytes(ps);
    let t = bracketed(object, texts);
    let close: u8 = if object { 0x7d } else { 0x5d };
    lemma_separated_is_joined(texts);
    assert(t.subrange(1, t.len() as int) =~= separated(true, texts) + seq![close]);
    lemma_walk_written(t, 1, true, ps, object, close);
    assert(t[0] == if object { 0x7bu8 } else { 0x5bu8 });
}

/// The pieces of a list of members that is turned round are the pieces of the
/// list, turned round.
pub proof fn lemma_pieces_backwards(b: Seq<u8>, es: Seq<Element>)
    ensures
        pieces_of(b, backwards(es)) == turned(pieces_of(b, es)),
        turned(turned(pieces_of(b, es))) == pieces_of(b, es),
{
    assert(pieces_of(b, backwards(es)) =~= turned(pieces_of(b, es)));
    assert(turned(turned(pieces_of(b, es))) =~= pieces_of(b, es));
}

/// What `@reverse` makes of a container whose members are all closed: the
/// members, last first, between brackets; and read back, they are the members
/// of the container, last first.
pub proof fn lemma_reverse_once(b: Seq<u8>, lo: int, hi: int, arg: Seq<u8>)
    requires
        b.len() <= usize::MAX,
        0 <= lo <= b.len(),
        kind_at(b, skip_ws(b, lo)) == Kind::Array || kind_at(b, skip_ws(b, lo)) == Kind::Object,
        members_closed(b, skip_ws(b, lo) + 1, kind_at(b, skip_ws(b, lo)) == Kind::Object),
        modified(b, lo, hi, name_reverse(), arg).text.len() <= usize::MAX,
    ensures
        ({
            let object = kind_at(b, skip_ws(b, lo)) == Kind::Object;
            let ms = members(b, skip_ws(b, lo) + 1, object);
            let once = modified(b, lo, hi, name_reverse(), arg);
            &&& once.kind == kind_at(b, skip_ws(b, lo))
            &&& once.text == bracketed(object, pieces_bytes(turned(pieces_of(b, ms))))
            &&& pieces_of(once.text, members(once.text, 1, object)) == turned(pieces_of(b, ms))
            &&& skip_ws(once.text, 0) == 0
            &&& kind_at(once.text, 0) == once.kind
            &&& members_closed(once.text, 1, object)
            &&& forall|k: int| 0 <= k < ms.len() ==> sealed(#[trigger] pieces_of(b, ms)[k], object)
        }),
{
    reveal(modified);
    crate::scan::lemma_skip_ws_bounds(b, lo);
    let v = skip_ws(b, lo);
    let object = kind_at(b, v) == Kind::Object;
    let ms = members(b, v + 1, object);
    let ps = pieces_of(b, ms);
    lemma_members_bounds(b, v + 1, object);
    assert forall|k: int| 0 <= k < ms.len() implies sealed(#[trigger] ps[k], object) by {
        lemma_member_sealed(b, v + 1, object, k);
    }
    let back = backwards(ms);
    assert forall|k: int| 0 <= k < back.len() implies spans_in(#[trigger] back[k], b.len() as int) by {
        assert(element_in(ms[ms.len() - 1 - k], b.len() as int));
    }
    lemma_piece_texts(b, back);
    lemma_pieces_backwards(b, ms);
    let ps1 = turned(ps);
    assert forall|k: int| 0 <= k < ps1.len() implies sealed(#[trigger] ps1[k], object) by {
        assert(sealed(ps[ps.len() - 1 - k], object));
    }
    lemma_written_list(ps1, object);
}

/// Reverse involution: reversing a container twice gives its members back,
/// text for text and in their order, written with a comma between each two.
/// The container must not be cut off by the end of the text.
pub proof fn lemma_reverse_involution(
    b: Seq<u8>,
    lo: int,
    hi: int,
    arg1: Seq<u8>,
    arg2: Seq<u8>,
)
    requires
        b.len() <= usize::MAX,
        0 <= lo <= b.len(),
        kind_at(b, skip_ws(b, lo)) == Kind::Array || kind_at(b, skip_ws(b, lo)) == Kind::Object,
        members_closed(b, skip_ws(b, lo) + 1, kind_at(b, skip_ws(b, lo)) == Kind::Object),
        modified(b, lo, hi, name_reverse(), arg1).text.len() <= usize::MAX,
        twice_reversed(b, lo, hi, arg1, arg2).text.len() <= usize::MAX,
    ensures
        ({
            let object = kind_at(b, skip_ws(b, lo)) == Kind::Object;
            let ms = members(b, skip_ws(b, lo) + 1, object);
            let twice = twice_reversed(b, lo, hi, arg1, arg2);
            &&& twice.kind == kind_at(b, skip_ws(b, lo))
            &&& twice.text == bracketed(object, piece_texts(b, ms))
            &&& pieces_of(twice.text, members(twice.text, 1, object)) == pieces_of(b, ms)
        }),
{
    let v = skip_ws(b, lo);
    let object = kind_at(b, v) == Kind::Object;
    let ms = members(b, v + 1, object);
    let ps = pieces_of(b, ms);
    lemma_reverse_once(b, lo, hi, arg1);
    let once = modified(b, lo, hi, name_reverse(), arg1);
    lemma_reverse_once(once.text, 0, once.text.len() as int, arg2);
    lemma_pieces_backwards(b, ms);
    crate::scan::lemma_skip_ws_bounds(b, lo);
    lemma_members_bounds(b, v + 1, object);
    assert forall|k: int| 0 <= k < ms.len() implies spans_in(#[trigger] ms[k], b.len() as int) by {
        assert(element_in(ms[k], b.len() as int));
    }
    lemma_piece_texts(b, ms);
    let ps1 = turned(ps);
    assert(turned(ps1) =~= ps);
    lemma_written_list(ps, object);
}

/// What `@reverse` applied twice makes of the range `lo..hi` of `b`.
pub open spec fn twice_reversed(b: Seq<u8>, lo: int, hi: int, arg1: Seq<u8>, arg2: Seq<u8>) -> Outcome {
    let once = modified(b, lo, hi, name_reverse(), arg1);
    modified(once.text, 0, once.text.len() as int, name_reverse(), arg2)
}

/// The path `#`.
pub open spec fn path_count() -> Seq<u8> {
    seq![0x23u8]
}

/// The path `@this`.
pub open spec fn path_this() -> Seq<u8> {
    seq![0x40u8, 0x74u8, 0x68u8, 0x69u8, 0x73u8]
}

/// The path `#.@this`.
pub open spec fn path_all_this() -> Seq<u8> {
    seq![0x23u8, 0x2eu8, 0x40u8, 0x74u8, 0x68u8, 0x69u8, 0x73u8]
}

/// How the path `@this` is read.
pub proof fn lemma_path_this()
    ensures
        first_segment(path_this()) == (Segment {
            kind: SegKind::Modifier,
            lo: 0,
            mid: 5,
            hi: 5,
            next: 5,
            piped: false,
        }),
        modifier_name(path_this()) == name_this(),
        modifier_arg(path_this()).len() == 0,
        rest_of(path_this()).len() == 0,
        before_pipe(path_this()) == path_this(),
        after_pipe(path_this()).len() == 0,
{
    reveal(component);
    reveal_with_fuel(name_end, 8);
    let p = path_this();
    assert(name_end(p, 1) == 5);
    assert(p.subrange(1, 5) =~= name_this());
    let rest = p.subrange(5, 5);
    assert(rest.len() == 0);
    assert(pipe_at(rest) == 0);
    assert(pipe_at(p) == 5);
    assert(p.subrange(0, 5) =~= p);
}

/// How the path `#.@this` is read.
pub proof fn lemma_path_all_this()
    ensures
        first_segment(path_all_this()).kind == SegKind::ArrayAll,
        first_segment(path_all_this()).hi == 1,
        !first_segment(path_all_this()).piped,
        rest_of(path_all_this()) == path_this(),
        each_path(path_all_this()) == path_this(),
        tail_path(path_all_this()).len() == 0,
        list_test(path_all_this()) is None,
{
    reveal(component);
    lemma_path_this();
    let p = path_all_this();
    assert(p.subrange(2, 7) =~= path_this());
}

/// How the path `#` is read.
pub proof fn lemma_path_count()
    ensures
        first_segment(path_count()).kind == SegKind::ArrayLen,
        first_segment(path_count()).hi == 1,
        rest_of(path_count()).len() == 0,
{
    reveal(component);
}

/// A value does not start with whitespace.
pub proof fn lemma_value_starts(b: Seq<u8>, p: int)
    requires
        kind_at(b, p) != Kind::NotPresent,
    ensures
        0 <= p < b.len(),
        !crate::scan::is_space(b[p]),
        skip_ws(b, p) == p,
{
    if crate::scan::has_word(b, p, crate::scan::word_true()) {
        crate::windows::lemma_word_first(b, p, crate::scan::word_true());
    }
    if crate::scan::has_word(b, p, crate::scan::word_false()) {
        crate::windows::lemma_word_first(b, p, crate::scan::word_false());
    }
    if crate::scan::has_word(b, p, crate::scan::word_null()) {
        crate::windows::lemma_word_first(b, p, crate::scan::word_null());
    }
}

/// `@this` finds the value that the current range starts with.
pub proof fn lemma_eval_this(b: Seq<u8>, lo: int, hi: int)
    ensures
        eval(b, lo, hi, path_this()) == value_at(b, skip_ws(b, lo)),
{
    lemma_path_this();
    lemma_eval_unfold(b, lo, hi, path_this());
    reveal(modified);
    let x = modified(b, lo, hi, modifier_name(path_this()), modifier_arg(path_this()));
    assert(x == value_at(b, skip_ws(b, lo)));
    lemma_follow_unfold(b, x, rest_of(path_this()), false);
}

/// The values of the first `k` members of a walk, as texts.
pub open spec fn value_texts(b: Seq<u8>, ms: Seq<Element>, k: int) -> Seq<Seq<u8>> {
    Seq::new(k as nat, |j: int| b.subrange(ms[j].val_lo as int, ms[j].val_hi as int))
}

/// With `@this` as the path for each element, a list segment gathers the
/// texts of the elements.
pub proof fn lemma_collect_this(b: Seq<u8>, start: int, k: int)
    requires
        0 <= start <= b.len() <= usize::MAX,
        0 <= k <= members(b, start, false).len(),
    ensures
        collect_upto(b, start, None, path_this(), k) == value_texts(
            b,
            members(b, start, false),
            k,
        ),
    decreases k,
{
    let ms = members(b, start, false);
    lemma_collect_upto_unfold(b, start, None, path_this(), k);
    if k > 0 {
        lemma_collect_this(b, start, k - 1);
        let e = ms[k - 1];
        lemma_member_step(b, start, false, k - 1);
        lemma_member_follows(b, start, false, k - 1);
        if k > 1 {
            lemma_member_follows(b, start, false, k - 2);
        }
        let cur = if k - 1 == 0 { start } else { ms[k - 2].next as int };
        lemma_next_element_facts(b, cur, false);
        crate::scan::lemma_value_end_bounds(b, e.val_lo as int);
        lemma_value_starts(b, e.val_lo as int);
        lemma_eval_this(b, e.val_lo as int, e.val_hi as int);
        assert(value_texts(b, ms, k) =~= value_texts(b, ms, k - 1).push(
            b.subrange(e.val_lo as int, e.val_hi as int),
        ));
    } else {
        assert(value_texts(b, ms, k) =~= Seq::<Seq<u8>>::empty());
    }
}

/// The decimal digits of a number start with a digit.
pub proof fn lemma_decimal_starts(n: nat)
    ensures
        decimal(n).len() > 0,
        is_digit(decimal(n)[0]),
    decreases n,
{
    if n >= 10 {
        lemma_decimal_starts(n / 10);
        assert(decimal(n)[0] == decimal(n / 10)[0]);
    }
}

/// Counting: in an array whose elements are not cut off by the end of the
/// text, `#` finds the number of elements, `#.@this` finds an array, and that
/// array has as many elements as `#` says.
pub proof fn lemma_counting(b: Seq<u8>, start: int)
    requires
        0 <= start <= b.len() <= usize::MAX,
        members_closed(b, start, false),
        array_text(piece_texts(b, members(b, start, false))).len() <= usize::MAX,
    ensures
        in_array(b, start, path_count()).kind == Kind::Number,
        in_array(b, start, path_count()).text == decimal(members(b, start, false).len()),
        in_array(b, start, path_all_this()).kind == Kind::Array,
        items_of(in_array(b, start, path_all_this())).len() == members(b, start, false).len(),
{
    let ms = members(b, start, false);
    let n = ms.len();
    // The count.
    lemma_path_count();
    lemma_in_array_unfold(b, start, path_count());
    lemma_decimal_starts(n);
    let count = made(decimal(n));
    assert(skip_ws(decimal(n), 0) == 0);
    assert(count.kind == Kind::Number);
    lemma_follow_unfold(b, count, rest_of(path_count()), first_segment(path_count()).piped);
    // The list.
    lemma_path_all_this();
    lemma_in_array_unfold(b, start, path_all_this());
    lemma_collect_this(b, start, n as int);
    lemma_members_bounds(b, start, false);
    assert forall|k: int| 0 <= k < ms.len() implies spans_in(#[trigger] ms[k], b.len() as int) by {
        assert(element_in(ms[k], b.len() as int));
    }
    lemma_piece_texts(b, ms);
    let ps = pieces_of(b, ms);
    assert forall|k: int| 0 <= k < ms.len() implies sealed(#[trigger] ps[k], false) by {
        lemma_member_sealed(b, start, false, k);
    }
    assert(value_texts(b, ms, n as int) =~= piece_texts(b, ms)) by {
        assert forall|k: int| 0 <= k < n implies value_texts(b, ms, n as int)[k] == piece_texts(
            b,
            ms,
        )[k] by {
            lemma_member_step(b, start, false, k);
            lemma_member_follows(b, start, false, k);
            if k > 0 {
                lemma_member_follows(b, start, false, k - 1);
            }
            let cur = if k == 0 { start } else { ms[k - 1].next as int };
            lemma_next_element_facts(b, cur, false);
        }
    }
    let t = array_text(pieces_bytes(ps));
    lemma_written_list(ps, false);
    let list = made(t);
    assert(list.kind == Kind::Array);
    lemma_follow_unfold(b, list, tail_path(path_all_this()), true);
    assert(tail_path(path_all_this()) =~= Seq::<u8>::empty());
}

/// Counting, for a text whose first value is an array that is not cut off by
/// the end of the text: the path `#` finds the number of elements that the
/// path `#.@this` lists.
pub proof fn lemma_counting_root(json: Seq<u8>)
    requires
        json.len() <= usize::MAX,
        kind_at(json, skip_ws(json, 0)) == Kind::Array,
        members_closed(json, skip_ws(json, 0) + 1, false),
        array_text(piece_texts(json, members(json, skip_ws(json, 0) + 1, false))).len()
            <= usize::MAX,
    ensures
        get_spec(json, path_count()).text == decimal(
            items_of(get_spec(json, path_all_this())).len(),
        ),
{
    let v = skip_ws(json, 0);
    crate::scan::lemma_skip_ws_bounds(json, 0);
    lemma_path_count();
    lemma_path_all_this();
    lemma_eval_unfold(json, 0, json.len() as int, path_count());
    lemma_eval_unfold(json, 0, json.len() as int, path_all_this());
    lemma_counting(json, v + 1);
}

} // verus!
