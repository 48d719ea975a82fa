//! A path-addressed query and mutation engine over raw JSON text.
//!
//! A caller hands over a JSON text and a path; the engine scans the text once
//! and hands back the part that the path selects, without building a tree.

pub mod scan;
pub mod text;
pub mod path;
pub mod number;
pub mod format;
pub mod sorting;
pub mod valid;
pub mod query;
pub mod found;
pub mod modifiers;
pub mod eval;
pub mod strings;
pub mod value;
pub mod mutate;
pub mod pipes;
pub mod windows;
pub mod lists;
pub mod laws;
pub mod dots;
pub mod strict;
pub mod splice;
pub mod insert;

pub use crate::mutate::{delete_bytes, set_bytes, set_overwrite_bytes, MutateError};
pub use crate::scan::Kind;
pub use crate::value::{get_bytes, Value};

use vstd::prelude::*;
use vstd::string::StringSliceAdditionalSpecFns;
use vstd::utf8::valid_utf8;
use crate::eval::get_spec;
use crate::mutate::{delete_result, overwrite_result, set_result};
use crate::strings::{is_utf8, lossy_decoded, lossy_string};
use crate::valid::{is_valid, valid_bytes};
use crate::value::in_place;

verus! {

/// Looks `path` up in the JSON text `json`.
pub fn get<'a>(json: &'a str, path: &str) -> (v: Value<'a>)
    ensures
        v.outcome() == get_spec(json.spec_bytes(), path.spec_bytes()),
        in_place(v, json.spec_bytes()),
{
    get_bytes(json.as_bytes(), path.as_bytes())
}

/// The first value of the JSON text `json`.
pub fn parse<'a>(json: &'a str) -> (v: Value<'a>)
    ensures
        v.outcome() == get_spec(json.spec_bytes(), Seq::<u8>::empty()),
        in_place(v, json.spec_bytes()),
{
    let none: [u8; 0] = [];
    proof {
        assert(none@ =~= Seq::<u8>::empty());
    }
    get_bytes(json.as_bytes(), &none)
}

/// Tests whether `json` is valid JSON.
pub fn valid(json: &str) -> (r: bool)
    ensures
        r == is_valid(json.spec_bytes()),
{
    valid_bytes(json.as_bytes())
}

/// Deletes the value that `path` leads to, with the separator that goes with
/// it.
pub fn delete_path(json: &str, path: &str) -> (r: Result<String, MutateError>)
    ensures
        match r {
            Ok(s) => delete_result(json.spec_bytes(), path.spec_bytes()) matches Ok(t) && s@
                == lossy_decoded(t),
            Err(e) => delete_result(json.spec_bytes(), path.spec_bytes()) == Err::<
                Seq<u8>,
                MutateError,
            >(e),
        },
{
    match delete_bytes(json.as_bytes(), path.as_bytes()) {
        Ok(v) => Ok(lossy_string(v.as_slice())),
        Err(e) => Err(e),
    }
}

/// Replaces the value that `path` leads to by `value`, taken as it is where
/// it is valid JSON and as a string where it is not. The text that comes out is
/// valid JSON.
pub fn set_overwrite(json: &str, path: &str, value: &str) -> (r: Result<String, MutateError>)
    ensures
        match r {
            Ok(s) => overwrite_result(json.spec_bytes(), path.spec_bytes(), value.spec_bytes())
                matches Ok(t) && s@ == lossy_decoded(t) && is_valid(t),
            Err(e) => overwrite_result(json.spec_bytes(), path.spec_bytes(), value.spec_bytes())
                == Err::<Seq<u8>, MutateError>(e),
        },
{
    match set_overwrite_bytes(json.as_bytes(), path.as_bytes(), value.as_bytes()) {
        Ok(v) => Ok(lossy_string(v.as_slice())),
        Err(e) => Err(e),
    }
}

/// Replaces the value that `path` leads to by `value`, and creates it where
/// the path leads into a container that lacks it. The text that comes out is
/// valid JSON.
pub fn set(json: &str, path: &str, value: &str) -> (r: Result<String, MutateError>)
    ensures
        match r {
            Ok(s) => set_result(json.spec_bytes(), path.spec_bytes(), value.spec_bytes())
                matches Ok(t) && s@ == lossy_decoded(t) && is_valid(t),
            Err(e) => set_result(json.spec_bytes(), path.spec_bytes(), value.spec_bytes())
                == Err::<Seq<u8>, MutateError>(e),
        },
{
    match set_bytes(json.as_bytes(), path.as_bytes(), value.as_bytes()) {
        Ok(v) => Ok(lossy_string(v.as_slice())),
        Err(e) => Err(e),
    }
}

/// A small document to run paths against.
pub const EXAMPLE: &'static str =
    "\n{\n  \"name\": {\"first\": \"Tom\", \"last\": \"Anderson\"},\n  \"age\":37,\n  \"children\": [\"Sara\",\"Alex\",\"Jack\"],\n  \"fav.movie\": \"Deer Hunter\",\n  \"friends\": [\n    {\"first\": \"Dale\", \"last\": \"Murphy\", \"age\": 44, \"nets\": [\"ig\", \"fb\", \"tw\"]},\n    {\"first\": \"Roger\", \"last\": \"Craig\", \"age\": 68, \"nets\": [\"fb\", \"tw\"]},\n    {\"first\": \"Jane\", \"last\": \"Murphy\", \"age\": 47, \"nets\": [\"ig\", \"tw\"]}\n  ]\n}\n";

/// Runs `data`, where it is valid UTF-8, as a path against itself and against
/// `EXAMPLE`, and says whether what was found is valid UTF-8 both times. Data
/// that is not valid UTF-8 is not run.
pub fn exec_simple_fuzz(data: &[u8]) -> (sound: bool)
    ensures
        sound == (valid_utf8(data@) ==> valid_utf8(get_spec(data@, data@).text) && valid_utf8(
            get_spec(EXAMPLE.spec_bytes(), data@).text,
        )),
{
    if !is_utf8(data) {
        return true;
    }
    let first = get_bytes(data, data);
    if !is_utf8(first.raw()) {
        return false;
    }
    let second = get_bytes(EXAMPLE.as_bytes(), data);
    is_utf8(second.raw())
}

} // verus!
