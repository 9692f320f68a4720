//! Read values out of JSON text with a small path language.
//!
//! The library scans JSON bytes lazily: it never builds a full tree, but
//! walks the text as far as the path asks for and hands back the slice or
//! the value found there.

pub mod chars;
pub mod decimal;
pub mod dotted;
pub mod element;
pub mod gjson;
pub mod gjson_path;
pub mod getter;
pub mod array_steps;
pub mod number;
pub mod parser;
pub mod path;
pub mod path_v2;
pub mod reader;
pub mod ref_reader;
pub mod text;
pub mod unescape;
pub mod utf8_reader;
pub mod util;
pub mod value;
pub mod wild;

use crate::element::{lemma_read_one, read_one, spec_read_one, value_of, ElementModel};
use crate::parser::{bytes_get, lemma_no_compound_finds_nothing, lemma_prefix_skipped, no_compound, spec_bytes_get, GetModel};
use crate::path::parser::{lemma_parse_wf, spec_parse};
use crate::path::Path;
use crate::value::Value;
use vstd::prelude::*;
use vstd::string::StringSliceAdditionalSpecFns;

verus! {

/// What can go wrong while reading a path or JSON.
#[derive(Debug, PartialEq, Eq, Clone, Copy)]
pub enum Error {
    Path,
    Eof,
    ObjectKey,
    Object,
    Array,
}

pub type Result<T> = core::result::Result<T, Error>;


/// What looking the path `path` up in the JSON text `json` finds: the path
/// is parsed, then looked up from the first object or array in the text.
pub open spec fn spec_get(json: Seq<u8>, path: Seq<u8>) -> GetModel {
    match spec_parse(path) {
        Err(e) => Err(e),
        Ok(p) => match spec_bytes_get(json, p) {
            Err(e) => Err(e),
            Ok((r, _)) => Ok(r),
        },
    }
}

/// What reading the first value of the JSON text `json` finds.
pub open spec fn spec_parse_first(json: Seq<u8>) -> GetModel {
    match spec_read_one(json) {
        Err(e) => Err(e),
        Ok((r, _)) => Ok(r),
    }
}

/// The result `r` stands for the lookup result `g`: the same error, nothing
/// for nothing, or the value of the element found.
pub open spec fn value_result(r: Result<Option<Value>>, g: GetModel) -> bool {
    match g {
        Err(e) => r == Err::<Option<Value>, Error>(e),
        Ok(None) => r matches Ok(None),
        Ok(Some(m)) => r matches Ok(Some(v)) && value_of(v, m),
    }
}

/// Gets the value at `path` in the JSON text `json`; see `spec_get`. The
/// reading is loose: text before the first object or array is skipped,
/// and text with no object or array gives nothing.
pub fn get(json: &str, path: &str) -> (r: Result<Option<Value>>)
    ensures
        value_result(r, spec_get(json.spec_bytes(), path.spec_bytes())),
{
    let p = Path::from_slice(path.as_bytes())?;
    proof {
        lemma_parse_wf(path.spec_bytes());
    }
    let (a, _left) = bytes_get(json.as_bytes(), &p)?;
    match a {
        Some(el) => Ok(Some(el.to_value())),
        None => Ok(None),
    }
}

/// Reads the first JSON value in `json`, even when the text goes on or an
/// array or object is not closed; see `spec_parse_first`.
pub fn parse(json: &str) -> (r: Result<Option<Value>>)
    ensures
        value_result(r, spec_parse_first(json.spec_bytes())),
{
    proof {
        lemma_read_one(json.spec_bytes());
    }
    let (parsed, _left) = read_one(json.as_bytes())?;
    match parsed {
        Some(el) => Ok(Some(el.to_value())),
        None => Ok(None),
    }
}

/// The law that `get` tolerates text before the JSON: a prefix with no
/// `{` and no `[` is skipped, so the lookup finds what it finds in the rest
/// (when there is a rest).
pub proof fn lemma_get_skips_leading_text(pre: Seq<u8>, json: Seq<u8>, path: Seq<u8>)
    requires
        no_compound(pre),
        json.len() > 0,
    ensures
        spec_get(pre + json, path) == spec_get(json, path),
{
    lemma_parse_wf(path);
    match spec_parse(path) {
        Ok(p) => {
            lemma_prefix_skipped(pre, json, p);
        },
        Err(_) => {},
    }
}

/// The law that `get` finds nothing in text with no array or object, for a
/// path whose first step has no selector group.
pub proof fn lemma_get_without_json(json: Seq<u8>, path: Seq<u8>)
    requires
        no_compound(json),
        spec_parse(path) matches Ok(p) && p.selectors is None,
    ensures
        spec_get(json, path) == Ok::<Option<ElementModel>, Error>(None),
{
    lemma_parse_wf(path);
    lemma_no_compound_finds_nothing(json, spec_parse(path)->Ok_0);
}

/// The law that the empty path finds nothing, in any text.
pub proof fn lemma_get_empty_path(json: Seq<u8>)
    ensures
        spec_get(json, Seq::empty()) == Ok::<Option<ElementModel>, Error>(None),
{
    crate::path::parser::lemma_parse_empty();
}

} // verus!
