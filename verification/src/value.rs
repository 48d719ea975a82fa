//! The value that a lookup hands to the caller, and what can be read from it.

use vstd::prelude::*;
use vstd::string::StringSliceAdditionalSpecFns;
use vstd::utf8::{decode_utf8, valid_utf8};
use crate::eval::{get_found, get_spec};
use crate::found::{element_value, Outcome};
use crate::number::{clamp, decimal_of, int_value, magnitude_up_to, parse_decimal, Number};
use crate::scan::{collect_members, kind_of, members, skip_whitespace, skip_ws, Element, Kind};
use crate::strings::{lossy_decoded, lossy_string};
use crate::text::{copy_range, decimal, json_unescape, push_decimal, unescape_json};

verus! {

/// A JSON value found in a text.
///
/// The raw text of the value is `slice` where the value is a part of the text
/// that was searched, and `owned` where it was built on the way. `index` is
/// the position of `slice` in the text that was searched.
pub struct Value<'a> {
    pub kind: Kind,
    pub slice: &'a [u8],
    pub owned: Option<Vec<u8>>,
    pub index: Option<usize>,
}

/// The bytes that a value stands for as a string: what a string writes,
/// nothing for `null` and for a missing value, and the raw text of any other
/// value.
pub open spec fn string_of(o: Outcome) -> Seq<u8> {
    match o.kind {
        Kind::String => unescape_json(o.text),
        Kind::Null | Kind::NotPresent => Seq::empty(),
        _ => o.text,
    }
}

/// The text in which a value is read as a number: the raw text of a number,
/// what a string writes, `1` for `true`, and nothing for any other value.
pub open spec fn number_text(o: Outcome) -> Seq<u8> {
    match o.kind {
        Kind::Number => o.text,
        Kind::String => unescape_json(o.text),
        Kind::True => seq![0x31u8],
        _ => Seq::empty(),
    }
}

/// The whole number that a value stands for, fraction cut off; zero where the
/// value is no number.
pub open spec fn integer_of(o: Outcome) -> int {
    match decimal_of(number_text(o)) {
        Some(d) => int_value(d),
        None => 0,
    }
}

impl<'a> Value<'a> {
    /// The raw text of the value.
    pub open spec fn text(&self) -> Seq<u8> {
        match self.owned {
            Some(v) => v@,
            None => self.slice@,
        }
    }

    /// What the value stands for: its kind, its raw text, and its place in the
    /// text that was searched.
    pub open spec fn outcome(&self) -> Outcome {
        Outcome {
            kind: self.kind,
            text: self.text(),
            at: match self.index {
                Some(i) => Some(i as int),
                None => None,
            },
        }
    }

    /// True if the lookup found a value.
    pub fn is_present(&self) -> (r: bool)
        ensures
            r == (self.kind != Kind::NotPresent),
    {
        self.kind != Kind::NotPresent
    }

    /// The kind of the value.
    pub fn kind(&self) -> (r: Kind)
        ensures
            r == self.kind,
    {
        self.kind
    }

    /// The position of the value in the text that was searched, where it is a
    /// part of that text.
    pub fn index(&self) -> (r: Option<usize>)
        ensures
            r == self.index,
    {
        self.index
    }

    /// The raw text of the value, as bytes.
    pub fn raw(&self) -> (r: &[u8])
        ensures
            r@ == self.text(),
    {
        match &self.owned {
            Some(v) => v.as_slice(),
            None => self.slice,
        }
    }

    /// The raw text of the value.
    pub fn json(&self) -> (s: String)
        ensures
            s@ == lossy_decoded(self.text()),
            valid_utf8(self.text()) ==> s@ == decode_utf8(self.text()),
    {
        lossy_string(self.raw())
    }

    /// The bytes that the value stands for as a string.
    pub fn str_bytes(&self) -> (r: Vec<u8>)
        ensures
            r@ == string_of(self.outcome()),
    {
        match self.kind {
            Kind::String => json_unescape(self.raw()),
            Kind::Null | Kind::NotPresent => Vec::new(),
            _ => {
                let raw = self.raw();
                let n = raw.len();
                proof {
                    assert(raw@.subrange(0, n as int) =~= raw@);
                }
                copy_range(raw, 0, n)
            },
        }
    }

    /// The string that the value stands for.
    pub fn str(&self) -> (s: String)
        ensures
            s@ == lossy_decoded(string_of(self.outcome())),
            valid_utf8(string_of(self.outcome())) ==> s@ == decode_utf8(
                string_of(self.outcome()),
            ),
    {
        let bytes = self.str_bytes();
        lossy_string(bytes.as_slice())
    }

    /// The number that the value stands for, read as written.
    fn number(&self) -> (r: Option<Number>)
        ensures
            match r {
                Some(x) => decimal_of(number_text(self.outcome())) == Some(x@),
                None => decimal_of(number_text(self.outcome())) is None,
            },
            r matches Some(x) ==> crate::text::all_digits(x@.digits),
    {
        match self.kind {
            Kind::Number => parse_decimal(self.raw()),
            Kind::String => {
                let s = json_unescape(self.raw());
                parse_decimal(s.as_slice())
            },
            Kind::True => {
                let one: [u8; 1] = [0x31u8];
                proof {
                    assert(one@ =~= seq![0x31u8]);
                }
                parse_decimal(&one)
            },
            _ => {
                let none: [u8; 0] = [];
                proof {
                    assert(none@ =~= Seq::<u8>::empty());
                }
                parse_decimal(&none)
            },
        }
    }

    /// The value as an unsigned number: the whole part of the number it stands
    /// for, held between zero and the largest `u64`.
    pub fn u64(&self) -> (r: u64)
        ensures
            r == clamp(integer_of(self.outcome()), 0, u64::MAX as int),
    {
        match self.number() {
            Some(x) => {
                proof {
                    if x@.point >= 0 {
                        crate::number::lemma_int_prefix_grows(x@, 0, x@.point);
                    }
                }
                if x.neg {
                    0
                } else {
                    magnitude_up_to(&x, u64::MAX)
                }
            },
            None => 0,
        }
    }

    /// The value as a signed number: the whole part of the number it stands
    /// for, held between the smallest and the largest `i64`.
    pub fn i64(&self) -> (r: i64)
        ensures
            r == clamp(integer_of(self.outcome()), i64::MIN as int, i64::MAX as int),
    {
        match self.number() {
            Some(x) => {
                proof {
                    if x@.point >= 0 {
                        crate::number::lemma_int_prefix_grows(x@, 0, x@.point);
                    }
                }
                if x.neg {
                    let m = magnitude_up_to(&x, 0x8000_0000_0000_0000u64);
                    if m == 0x8000_0000_0000_0000u64 {
                        i64::MIN
                    } else {
                        -(m as i64)
                    }
                } else {
                    magnitude_up_to(&x, 0x7fff_ffff_ffff_ffffu64) as i64
                }
            },
            None => 0,
        }
    }

    /// The value as a signed number: the whole part of the number it stands
    /// for, held between the smallest and the largest `i32`.
    pub fn i32(&self) -> (r: i32)
        ensures
            r == clamp(integer_of(self.outcome()), i32::MIN as int, i32::MAX as int),
    {
        match self.number() {
            Some(x) => {
                proof {
                    if x@.point >= 0 {
                        crate::number::lemma_int_prefix_grows(x@, 0, x@.point);
                    }
                }
                if x.neg {
                    let m = magnitude_up_to(&x, 0x8000_0000u64);
                    -(m as i64) as i32
                } else {
                    magnitude_up_to(&x, 0x7fff_ffffu64) as i32
                }
            },
            None => 0,
        }
    }

    /// Looks `path` up in this value. The position of what is found counts
    /// from the start of this value's raw text.
    pub fn get<'b>(&'b self, path: &str) -> (v: Value<'b>)
        ensures
            v.outcome() == get_spec(self.text(), path.spec_bytes()),
            in_place(v, self.text()),
    {
        get_bytes(self.raw(), path.as_bytes())
    }

    /// The elements of an array, in order. A value that is no array is taken
    /// as an array of one element, a missing value as an empty one.
    pub fn array<'b>(&'b self) -> (r: Vec<Value<'b>>)
        ensures
            r@.len() == items_of(self.outcome()).len(),
            forall|k: int| 0 <= k < r@.len() ==> (#[trigger] r@[k]).outcome() == items_of(self.outcome())[k],
    {
        let raw = self.raw();
        let mut out: Vec<Value<'b>> = Vec::new();
        match self.kind {
            Kind::NotPresent => {},
            Kind::Array => {
                let v = skip_whitespace(raw, 0);
                let n = raw.len();
                if v < n {
                    let ms = collect_members(raw, v + 1, false);
                    let mut k: usize = 0;
                    while k < ms.len()
                        invariant
                            k <= ms@.len(),
                            raw@ == self.text(),
                            ms@ == members(raw@, v + 1, false),
                            forall|j: int|
                                0 <= j < ms@.len() ==> crate::scan::element_in(
                                    #[trigger] ms@[j],
                                    raw@.len() as int,
                                ),
                            out@.len() == k,
                            forall|j: int|
                                0 <= j < k ==> (#[trigger] out@[j]).outcome() == element_value(
                                    raw@,
                                    ms@[j],
                                ),
                        decreases ms@.len() - k,
                    {
                        let e = ms[k];
                        let item = Value {
                            kind: kind_of(raw, e.val_lo),
                            slice: vstd::slice::slice_subrange(raw, e.val_lo, e.val_hi),
                            owned: None,
                            index: Some(e.val_lo),
                        };
                        out.push(item);
                        k += 1;
                    }
                }
            },
            _ => {
                out.push(Value { kind: self.kind, slice: raw, owned: None, index: Some(0) });
            },
        }
        out
    }

    /// The members of an object or the elements of an array, each with its
    /// key, in order. The key of an object member is its key string; the key
    /// of an array element is its position, as a number. Any other value has
    /// no members.
    pub fn entries<'b>(&'b self) -> (r: Vec<(Value<'b>, Value<'b>)>)
        ensures
            r@.len() == entries_of(self.outcome()).len(),
            forall|k: int|
                0 <= k < r@.len() ==> (#[trigger] r@[k]).0.outcome() == entries_of(
                    self.outcome(),
                )[k].0 && r@[k].1.outcome() == entries_of(self.outcome())[k].1,
    {
        let raw = self.raw();
        let mut out: Vec<(Value<'b>, Value<'b>)> = Vec::new();
        let object = match self.kind {
            Kind::Object => true,
            Kind::Array => false,
            _ => {
                return out;
            },
        };
        let v = skip_whitespace(raw, 0);
        let n = raw.len();
        if v >= n {
            return out;
        }
        let ms = collect_members(raw, v + 1, object);
        let mut k: usize = 0;
        while k < ms.len()
            invariant
                k <= ms@.len(),
                raw@ == self.text(),
                object == (self.kind == Kind::Object),
                self.kind == Kind::Object || self.kind == Kind::Array,
                ms@ == members(raw@, v + 1, object),
                forall|j: int|
                    0 <= j < ms@.len() ==> crate::scan::element_in(
                        #[trigger] ms@[j],
                        raw@.len() as int,
                    ),
                out@.len() == k,
                forall|j: int|
                    0 <= j < k ==> (#[trigger] out@[j]).0.outcome() == entry_key(
                        raw@,
                        ms@[j],
                        object,
                        j,
                    ) && out@[j].1.outcome() == element_value(raw@, ms@[j]),
            decreases ms@.len() - k,
        {
            let e = ms[k];
            let key = if object {
                Value {
                    kind: Kind::String,
                    slice: vstd::slice::slice_subrange(raw, e.key_lo, e.key_hi),
                    owned: None,
                    index: Some(e.key_lo),
                }
            } else {
                let mut text: Vec<u8> = Vec::new();
                push_decimal(&mut text, k);
                proof {
                    assert(text@ =~= decimal(k as nat));
                }
                Value {
                    kind: Kind::Number,
                    slice: vstd::slice::slice_subrange(raw, 0, 0),
                    owned: Some(text),
                    index: None,
                }
            };
            let item = Value {
                kind: kind_of(raw, e.val_lo),
                slice: vstd::slice::slice_subrange(raw, e.val_lo, e.val_hi),
                owned: None,
                index: Some(e.val_lo),
            };
            out.push((key, item));
            k += 1;
        }
        out
    }
}

/// The key that goes with member `e` at position `k`: the key string in an
/// object, the position as a number in an array.
pub open spec fn entry_key(b: Seq<u8>, e: Element, object: bool, k: int) -> Outcome {
    if object {
        Outcome {
            kind: Kind::String,
            text: b.subrange(e.key_lo as int, e.key_hi as int),
            at: Some(e.key_lo as int),
        }
    } else {
        Outcome { kind: Kind::Number, text: decimal(k as nat), at: None }
    }
}

/// The values that `array` hands out.
pub open spec fn items_of(o: Outcome) -> Seq<Outcome> {
    match o.kind {
        Kind::NotPresent => Seq::empty(),
        Kind::Array => {
            let v = skip_ws(o.text, 0);
            if v < o.text.len() {
                let ms = members(o.text, v + 1, false);
                Seq::new(ms.len(), |k: int| element_value(o.text, ms[k]))
            } else {
                Seq::empty()
            }
        },
        _ => seq![Outcome { kind: o.kind, text: o.text, at: Some(0int) }],
    }
}

/// The keys and values that `entries` hands out.
pub open spec fn entries_of(o: Outcome) -> Seq<(Outcome, Outcome)> {
    let v = skip_ws(o.text, 0);
    if (o.kind == Kind::Object || o.kind == Kind::Array) && v < o.text.len() {
        let ms = members(o.text, v + 1, o.kind == Kind::Object);
        Seq::new(
            ms.len(),
            |k: int|
                (entry_key(o.text, ms[k], o.kind == Kind::Object, k), element_value(o.text, ms[k])),
        )
    } else {
        Seq::empty()
    }
}

/// A value that has a place in `b` has its raw text standing at that place.
pub open spec fn in_place(v: Value, b: Seq<u8>) -> bool {
    v.index matches Some(i) ==> i + v.text().len() <= b.len() && b.subrange(
        i as int,
        i + v.text().len(),
    ) == v.text()
}

/// Looks `path` up in the JSON text `json`.
///
/// What is found is a part of `json` wherever the path only selects, and then
/// its position is known and its raw text stands there; it is a text of its
/// own where a modifier, a list segment or a bracketed list built it.
pub fn get_bytes<'a>(json: &'a [u8], path: &[u8]) -> (v: Value<'a>)
    ensures
        v.outcome() == get_spec(json@, path@),
        in_place(v, json@),
{
    let f = get_found(json, path);
    match f.owned {
        Some(text) => Value {
            kind: f.kind,
            slice: vstd::slice::slice_subrange(json, 0, 0),
            owned: Some(text),
            index: None,
        },
        None => Value {
            kind: f.kind,
            slice: vstd::slice::slice_subrange(json, f.lo, f.hi),
            owned: None,
            index: Some(f.lo),
        },
    }
}

} // verus!
