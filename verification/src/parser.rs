//! Looking a path up in JSON text.

use crate::chars;
use crate::element::{
    lemma_read_one, model_wf, read_one, read_result_model, spec_read_one, string_close,
    string_inner, string_scan_escaped, string_u8, lemma_string_scan_bounds, value_of, Element,
    ElementModel, ReadModel,
};
use crate::text::{spec_utf8_lossy, utf8_lossy};
use crate::value::Value;
use crate::number::{all_digits, digits_value, parse_u64_text, spec_parse_u64};
use crate::path::parser::{lemma_parse_wf, spec_parse};
use crate::path::query::{spec_match_element, Query, QueryModel};
use crate::path::sub_selector::{selectors_model, SubSelector};
use crate::path::{
    borrowed_query, default_path_model, path_measure, path_wf, spec_is_match, spec_parse_next,
    Path, PathModel,
};
use crate::text::utf8_valid;
use crate::util::bytes_eq;
use crate::Error;
use crate::Result;
use vstd::prelude::*;
use vstd::utf8::valid_utf8;

verus! {

/// What a lookup in an element gives: an optional element, or an error.
pub type GetModel = core::result::Result<Option<ElementModel>, Error>;

/// The model of the result of a lookup in an element.
pub open spec fn get_result_model<'a>(r: Result<Option<Element<'a>>>) -> GetModel {
    match r {
        Ok(Some(e)) => Ok(Some(e.model())),
        Ok(None) => Ok(None),
        Err(e) => Err(e),
    }
}

/// The models of a list of elements.
pub open spec fn list_model(v: Seq<Element>) -> Seq<ElementModel> {
    Seq::new(v.len(), |i: int| v[i].model())
}

/// A field of a selected object: its key, with whether it is escaped, and
/// its value.
pub type FieldModel = ((Seq<u8>, bool), ElementModel);

/// The models of a list of fields.
pub open spec fn fields_model(v: Seq<((&[u8], bool), Element)>) -> Seq<FieldModel> {
    Seq::new(v.len(), |i: int| ((v[i].0.0@, v[i].0.1), v[i].1.model()))
}

/// The first position at or after `i` holding `{` or `[`, or the length.
pub open spec fn first_compound(b: Seq<u8>, i: int) -> int
    decreases b.len() - i,
{
    if i < 0 || i >= b.len() {
        b.len() as int
    } else if b[i] == chars::LBRACE || b[i] == chars::LBRACKET {
        i
    } else {
        first_compound(b, i + 1)
    }
}

/// What `str::parse::<usize>` gives for the text `s`: an optional `+` and at
/// least one digit, with a value that fits.
pub open spec fn spec_parse_usize(s: Seq<u8>) -> Option<nat> {
    let d = if s.len() > 0 && s[0] == chars::PLUS { s.drop_first() } else { s };
    if d.len() > 0 && all_digits(d) && digits_value(d) <= usize::MAX {
        Some(digits_value(d))
    } else {
        None
    }
}

/// The index a step names in an array: a key that is not UTF-8 is a `Path`
/// error, one that is not a number names no index.
pub open spec fn spec_part_index(part: Seq<u8>) -> core::result::Result<Option<nat>, Error> {
    if !valid_utf8(part) {
        Err(Error::Path)
    } else {
        Ok(spec_parse_usize(part))
    }
}

/// The first position at or after `j` whose field has the key `key`, or the
/// length.
pub open spec fn key_index(fs: Seq<FieldModel>, key: (Seq<u8>, bool), j: int) -> int
    decreases fs.len() - j,
{
    if j < 0 || j >= fs.len() {
        fs.len() as int
    } else if fs[j].0 == key {
        j
    } else {
        key_index(fs, key, j + 1)
    }
}

/// Puts a field into a field list as a map does: a field with the same key
/// gets the new value in its place, else the field is added at the end.
pub open spec fn fields_insert(fs: Seq<FieldModel>, key: (Seq<u8>, bool), el: ElementModel) -> Seq<
    FieldModel,
> {
    let k = key_index(fs, key, 0);
    if k < fs.len() {
        fs.update(k, (key, el))
    } else {
        fs.push((key, el))
    }
}

/// The query step `p` is matched with, when it has one, parsed from its
/// path (the step that matches nothing when its path is empty).
pub open spec fn spec_query_key(p: PathModel) -> core::result::Result<PathModel, Error> {
    let q = borrowed_query(p);
    if q.path.len() > 0 {
        spec_parse(q.path)
    } else {
        Ok(default_path_model())
    }
}

/// Whether an array step returns every match, and whether only the first.
pub open spec fn returns_list(p: PathModel) -> bool {
    let q = borrowed_query(p);
    (q.on && q.all) || (!q.on && p.more)
}

pub open spec fn returns_first(p: PathModel) -> bool {
    let q = borrowed_query(p);
    q.on && !q.all
}

/// Looks the step `p` (and the steps after it) up in the JSON text `b`.
/// A selector group builds a list or an object of what its paths find;
/// otherwise the lookup starts at the first object or array in the text.
/// What the lookup reads is returned with the rest of the text after it.
pub open spec fn spec_bytes_get(b: Seq<u8>, p: PathModel) -> ReadModel
    decreases path_measure(p), 3int, 0int,
    when path_wf(p)
{
    if !p.ok || b.len() == 0 {
        Ok((None, Seq::empty()))
    } else if p.selectors is Some {
        let el = if p.arrsel {
            match spec_select_list(b, p, 0, Seq::empty()) {
                Ok(l) => Ok(ElementModel::List(l)),
                Err(e) => Err(e),
            }
        } else {
            match spec_select_fields(b, p, 0, Seq::empty()) {
                Ok(f) => Ok(ElementModel::Fields(f)),
                Err(e) => Err(e),
            }
        };
        match el {
            Err(e) => Err(e),
            Ok(m) => if p.more {
                match spec_parse_next(p) {
                    Err(e) => Err(e),
                    Ok(np) => {
                        proof {
                            lemma_next_smaller(p);
                        }
                        match spec_element_get(m, np) {
                            Err(e) => Err(e),
                            Ok(r) => Ok((r, Seq::empty())),
                        }
                    },
                }
            } else {
                Ok((Some(m), Seq::empty()))
            },
        }
    } else {
        let i = first_compound(b, 0);
        if i < 0 || i >= b.len() {
            Ok((None, Seq::empty()))
        } else if b[i] == chars::LBRACE {
            spec_object_scan(b.subrange(i, b.len() as int), p, 1)
        } else {
            spec_array_get(b.subrange(i, b.len() as int), p)
        }
    }
}

/// The elements the selectors of `p` from the `j`-th on find in `b`, after
/// those in `acc`; a selector that finds nothing adds nothing.
pub open spec fn spec_select_list(b: Seq<u8>, p: PathModel, j: int, acc: Seq<ElementModel>)
    -> core::result::Result<Seq<ElementModel>, Error>
    decreases path_measure(p), 2int, p.selectors->0.len() - j,
    when path_wf(p) && p.selectors is Some
{
    let sels = p.selectors->0;
    if j < 0 || j >= sels.len() {
        Ok(acc)
    } else {
        match spec_parse(sels[j].1) {
            Err(e) => Err(e),
            Ok(sp) => {
                proof {
                    lemma_parse_wf(sels[j].1);
                }
                match spec_bytes_get(b, sp) {
                    Err(e) => Err(e),
                    Ok((Some(el), _)) => spec_select_list(b, p, j + 1, acc.push(el)),
                    Ok((None, _)) => spec_select_list(b, p, j + 1, acc),
                }
            },
        }
    }
}

/// The fields the selectors of `p` from the `j`-th on find in `b`, put
/// into `acc` under the selectors' names.
pub open spec fn spec_select_fields(b: Seq<u8>, p: PathModel, j: int, acc: Seq<FieldModel>)
    -> core::result::Result<Seq<FieldModel>, Error>
    decreases path_measure(p), 2int, p.selectors->0.len() - j,
    when path_wf(p) && p.selectors is Some
{
    let sels = p.selectors->0;
    if j < 0 || j >= sels.len() {
        Ok(acc)
    } else {
        match spec_parse(sels[j].1) {
            Err(e) => Err(e),
            Ok(sp) => {
                proof {
                    lemma_parse_wf(sels[j].1);
                }
                match spec_bytes_get(b, sp) {
                    Err(e) => Err(e),
                    Ok((Some(el), _)) => spec_select_fields(
                        b,
                        p,
                        j + 1,
                        fields_insert(acc, (sels[j].0, false), el),
                    ),
                    Ok((None, _)) => spec_select_fields(b, p, j + 1, acc),
                }
            },
        }
    }
}

/// The scan of an object for the key of step `p`, at position `i` of `b`:
/// keys that do not match have their values skipped; a matching key hands
/// the rest of the text to the next step, or reads its value. A key string
/// cut short at the end of the text is an `ObjectKey` error.
pub open spec fn spec_object_scan(b: Seq<u8>, p: PathModel, i: int) -> ReadModel
    decreases path_measure(p), 1int, b.len() - i,
    when path_wf(p)
{
    if i < 0 || i >= b.len() {
        Ok((None, Seq::empty()))
    } else if b[i] == chars::RBRACE {
        Ok((None, b.subrange(i + 1, b.len() as int)))
    } else if b[i] != chars::QUOTE {
        spec_object_scan(b, p, i + 1)
    } else {
        let input = b.subrange(i, b.len() as int);
        let e = string_close(input, 0);
        let s = input.subrange(0, e);
        let left = input.subrange(e, input.len() as int);
        let esc = string_scan_escaped(input, 1);
        if s.len() < 2 {
            Err(Error::ObjectKey)
        } else if spec_is_match(p, s.subrange(1, s.len() - 1), esc) {
            if p.more {
                match spec_parse_next(p) {
                    Err(e) => Err(e),
                    Ok(np) => {
                        proof {
                            lemma_next_smaller(p);
                        }
                        spec_step_into(left, np)
                    },
                }
            } else {
                spec_read_one(left)
            }
        } else {
            match spec_read_one(left) {
                Err(e) => Err(e),
                Ok((None, _)) => Ok((None, Seq::empty())),
                Ok((Some(_), left2)) => {
                    proof {
                        lemma_read_one(left);
                        lemma_string_scan_bounds(input, 1);
                    }
                    spec_object_scan(left2, p, 0)
                },
            }
        }
    }
}

/// The value that starts `b`, looked up by the next step `np`: the step
/// goes into an array or object and finds nothing in any other value. The
/// rest of the text after the value is returned with what was found.
pub open spec fn spec_step_into(b: Seq<u8>, np: PathModel) -> ReadModel
    decreases path_measure(np), 5int, 0int,
    when path_wf(np)
{
    match spec_read_one(b) {
        Err(e) => Err(e),
        Ok((None, rest)) => Ok((None, rest)),
        Ok((Some(m), rest)) => match spec_element_ref_get(m, np) {
            Err(e) => Err(e),
            Ok(r) => Ok((r, rest)),
        },
    }
}

/// The lookup of step `p` in the array that `b` starts with: the index the
/// key names, the query, and the next step are read before the elements.
pub open spec fn spec_array_get(b: Seq<u8>, p: PathModel) -> ReadModel
    decreases path_measure(p), 2int, 0int,
    when path_wf(p)
{
    match spec_part_index(p.part) {
        Err(e) => Err(e),
        Ok(idx) => match spec_query_key(p) {
            Err(e) => Err(e),
            Ok(qk) => match spec_parse_next(p) {
                Err(e) => Err(e),
                Ok(np) => spec_array_loop(
                    b.subrange(1, b.len() as int),
                    p,
                    np,
                    qk,
                    idx,
                    0,
                    Seq::empty(),
                ),
            },
        },
    }
}

/// Whether an element passes the query of step `p` (whose compared part is
/// found with `qk`).
pub open spec fn spec_query_pass(el: ElementModel, p: PathModel, qk: PathModel)
    -> core::result::Result<bool, Error>
    decreases path_measure(p), 1int, 0int,
    when path_wf(p) && (borrowed_query(p).path.len() > 0 ==> spec_query_key(p) == Ok::<PathModel, Error>(qk))
{
    let q = borrowed_query(p);
    if !q.on {
        Ok(true)
    } else if q.path.len() > 0 {
        proof {
            lemma_query_key_smaller(p);
        }
        match spec_element_ref_get(el, qk) {
            Err(e) => Err(e),
            Ok(None) => Ok(false),
            Ok(Some(v)) => Ok(spec_match_element(q, v)),
        }
    } else {
        Ok(spec_match_element(q, el))
    }
}

/// The lookup of step `p` in an array or object element; other elements
/// hold nothing.
pub open spec fn spec_element_ref_get(m: ElementModel, p: PathModel) -> GetModel
    decreases path_measure(p), 4int, 0int,
    when path_wf(p)
{
    if !p.ok {
        Ok(None)
    } else {
        match m {
            ElementModel::Array(s) => match spec_bytes_get(s, p) {
                Err(e) => Err(e),
                Ok((r, _)) => Ok(r),
            },
            ElementModel::Object(s) => match spec_bytes_get(s, p) {
                Err(e) => Err(e),
                Ok((r, _)) => Ok(r),
            },
            _ => Ok(None),
        }
    }
}

/// The loop over the elements of an array for step `p`: `index` counts the
/// elements that passed the query so far and `acc` holds those kept for a
/// list. The element at the index the key names is read (or looked up by
/// the next step) in place; otherwise passing elements are looked up by
/// the next step, and the first one or all of them are returned, or their
/// count for a `#` step.
pub open spec fn spec_array_loop(
    bytes: Seq<u8>,
    p: PathModel,
    np: PathModel,
    qk: PathModel,
    idx: Option<nat>,
    index: nat,
    acc: Seq<ElementModel>,
) -> ReadModel
    decreases path_measure(p), 1int, bytes.len(),
    when path_wf(p) && (p.more ==> spec_parse_next(p) == Ok::<PathModel, Error>(np)) && (
    borrowed_query(p).path.len() > 0 ==> spec_query_key(p) == Ok::<PathModel, Error>(qk))
{
    if idx == Some(index) {
        if p.more {
            proof {
                lemma_next_smaller(p);
            }
            spec_step_into(bytes, np)
        } else {
            spec_read_one(bytes)
        }
    } else {
        match spec_read_one(bytes) {
            Err(e) => Err(e),
            Ok((None, left)) => if returns_list(p) {
                Ok((Some(ElementModel::List(acc)), left))
            } else if returns_first(p) {
                Ok((None, left))
            } else if p.arrch {
                Ok((Some(ElementModel::Count(index)), left))
            } else {
                Ok((None, left))
            },
            Ok((Some(el), left)) => {
                proof {
                    lemma_read_one(bytes);
                }
                match spec_query_pass(el, p, qk) {
                    Err(e) => Err(e),
                    Ok(false) => spec_array_loop(left, p, np, qk, idx, index, acc),
                    Ok(true) => {
                        let el2: GetModel = if p.more {
                            proof {
                                lemma_next_smaller(p);
                            }
                            spec_element_get(el, np)
                        } else {
                            Ok(Some(el))
                        };
                        match el2 {
                            Err(e) => Err(e),
                            Ok(None) => spec_array_loop(left, p, np, qk, idx, index + 1, acc),
                            Ok(Some(e2)) => if returns_first(p) {
                                Ok((Some(e2), left))
                            } else {
                                spec_array_loop(
                                    left,
                                    p,
                                    np,
                                    qk,
                                    idx,
                                    index + 1,
                                    if returns_list(p) {
                                        acc.push(e2)
                                    } else {
                                        acc
                                    },
                                )
                            },
                        }
                    },
                }
            },
        }
    }
}

/// The lookup of step `p` in an element: arrays and objects are searched
/// as text; a field list gives the value of the first field whose key
/// matches; a list gives its first element (for a first-match query), all
/// of them looked up by the next step (for an all-matches query, or a `#`
/// step with more after it), or its length.
pub open spec fn spec_element_get(m: ElementModel, p: PathModel) -> GetModel
    decreases path_measure(p), 4int, 0int,
    when path_wf(p)
{
    if !p.ok {
        Ok(None)
    } else {
        match spec_parse_next(p) {
            Err(e) => Err(e),
            Ok(np) => match m {
                ElementModel::Array(s) => match spec_bytes_get(s, p) {
                    Err(e) => Err(e),
                    Ok((r, _)) => Ok(r),
                },
                ElementModel::Object(s) => match spec_bytes_get(s, p) {
                    Err(e) => Err(e),
                    Ok((r, _)) => Ok(r),
                },
                ElementModel::Fields(fs) => spec_fields_find(fs, p, np, 0),
                ElementModel::List(es) => {
                    if returns_first(p) {
                        if es.len() > 0 {
                            if p.more {
                                proof {
                                    lemma_next_smaller(p);
                                }
                                spec_element_get(es[0], np)
                            } else {
                                Ok(Some(es[0]))
                            }
                        } else {
                            Ok(None)
                        }
                    } else if returns_list(p) {
                        if p.more {
                            match spec_list_collect(es, p, np, 0, Seq::empty()) {
                                Err(e) => Err(e),
                                Ok(l) => Ok(Some(ElementModel::List(l))),
                            }
                        } else {
                            Ok(Some(ElementModel::List(es)))
                        }
                    } else {
                        Ok(Some(ElementModel::Count(es.len())))
                    }
                },
                _ => Ok(None),
            },
        }
    }
}

/// The value of the first field from the `j`-th on whose key matches step
/// `p`, looked up by the next step `np` when there is one.
pub open spec fn spec_fields_find(fs: Seq<FieldModel>, p: PathModel, np: PathModel, j: int) -> GetModel
    decreases path_measure(p), 3int, fs.len() - j,
    when path_wf(p) && (p.more ==> spec_parse_next(p) == Ok::<PathModel, Error>(np))
{
    if j < 0 || j >= fs.len() {
        Ok(None)
    } else if spec_is_match(p, fs[j].0.0, fs[j].0.1) {
        if p.more {
            proof {
                lemma_next_smaller(p);
            }
            spec_element_get(fs[j].1, np)
        } else {
            Ok(Some(fs[j].1))
        }
    } else {
        spec_fields_find(fs, p, np, j + 1)
    }
}

/// The elements of a list from the `j`-th on looked up by the next step
/// `np`, after those in `acc`; elements where it finds nothing are dropped.
pub open spec fn spec_list_collect(
    es: Seq<ElementModel>,
    p: PathModel,
    np: PathModel,
    j: int,
    acc: Seq<ElementModel>,
) -> core::result::Result<Seq<ElementModel>, Error>
    decreases path_measure(p), 3int, es.len() - j,
    when path_wf(p) && p.more && spec_parse_next(p) == Ok::<PathModel, Error>(np)
{
    if j < 0 || j >= es.len() {
        Ok(acc)
    } else {
        proof {
            lemma_next_smaller(p);
        }
        match spec_element_get(es[j], np) {
            Err(e) => Err(e),
            Ok(Some(x)) => spec_list_collect(es, p, np, j + 1, acc.push(x)),
            Ok(None) => spec_list_collect(es, p, np, j + 1, acc),
        }
    }
}

/// The next step of a step with more after it is well formed and smaller.
pub proof fn lemma_next_smaller(p: PathModel)
    requires
        path_wf(p),
        p.more,
    ensures
        spec_parse_next(p) matches Ok(np) ==> path_wf(np) && path_measure(np) < path_measure(p),
{
    lemma_parse_wf(p.next);
}

/// The step a query compares with is well formed and smaller.
pub proof fn lemma_query_key_smaller(p: PathModel)
    requires
        path_wf(p),
        borrowed_query(p).path.len() > 0,
    ensures
        spec_query_key(p) matches Ok(qk) ==> path_wf(qk) && path_measure(qk) < path_measure(p),
{
    lemma_parse_wf(borrowed_query(p).path);
}

/// An empty slice at the start of `b`.
fn empty_rest<'a>(b: &'a [u8]) -> (r: &'a [u8])
    ensures
        r@ == Seq::<u8>::empty(),
{
    let e = &b[0..0];
    proof {
        assert(e@ =~= Seq::<u8>::empty());
    }
    e
}

/// `read_one`, with what it reads known to be well formed.
fn read_checked<'a>(input: &'a [u8]) -> (r: Result<(Option<Element<'a>>, &'a [u8])>)
    ensures
        read_result_model(r) == spec_read_one(input@),
        r matches Ok((Some(e), _)) ==> e.wf(),
{
    proof {
        lemma_read_one(input@);
    }
    read_one(input)
}

/// The index the key `part` names in an array; see `spec_part_index`.
pub(crate) fn part_index(part: &[u8]) -> (r: Result<Option<usize>>)
    ensures
        match r {
            Ok(o) => spec_part_index(part@) == Ok::<Option<nat>, Error>(
                match o {
                    Some(u) => Some(u as nat),
                    None => None,
                },
            ),
            Err(e) => spec_part_index(part@) == Err::<Option<nat>, Error>(e),
        },
{
    if !utf8_valid(part) {
        return Err(Error::Path);
    }
    match parse_u64_text(part) {
        Some(u) => {
            if u <= usize::MAX as u64 {
                Ok(Some(u as usize))
            } else {
                Ok(None)
            }
        },
        None => Ok(None),
    }
}

proof fn lemma_list_model<'a>(v: Vec<Element<'a>>)
    ensures
        Element::List(v).model() == ElementModel::List(list_model(v@)),
{
    let m = Element::List(v).model();
    assert(m->List_0 =~= list_model(v@));
}

proof fn lemma_fields_model<'a>(v: Vec<((&'a [u8], bool), Element<'a>)>)
    ensures
        Element::Fields(v).model() == ElementModel::Fields(fields_model(v@)),
{
    let m = Element::Fields(v).model();
    assert(m->Fields_0 =~= fields_model(v@));
}

/// Looks the path `path` up in the JSON text `bytes`; see `spec_bytes_get`.
pub fn bytes_get<'a>(bytes: &'a [u8], path: &Path<'a>) -> (r: Result<(Option<Element<'a>>, &'a [u8])>)
    requires
        path_wf(path@),
    ensures
        read_result_model(r) == spec_bytes_get(bytes@, path@),
        r matches Ok((Some(e), _)) ==> e.wf(),
    decreases path_measure(path@), 3int, 0int,
{
    if !path.ok || bytes.len() == 0 {
        return Ok((None, empty_rest(bytes)));
    }
    if path.has_selectors() {
        let element = if path.arrsel {
            select_to_array(bytes, path)?
        } else {
            select_to_object(bytes, path)?
        };
        if path.more {
            let next = path.parse_next()?;
            proof {
                lemma_next_smaller(path@);
            }
            let el = element_get(element, &next)?;
            return Ok((el, empty_rest(bytes)));
        } else {
            return Ok((Some(element), empty_rest(bytes)));
        }
    }
    let len = bytes.len();
    let mut i: usize = 0;
    while i < len && bytes[i] != chars::LBRACE && bytes[i] != chars::LBRACKET
        invariant
            i <= len,
            len == bytes@.len(),
            first_compound(bytes@, i as int) == first_compound(bytes@, 0),
        decreases len - i,
    {
        i += 1;
    }
    if i >= len {
        return Ok((None, empty_rest(bytes)));
    }
    let input = &bytes[i..len];
    if bytes[i] == chars::LBRACE {
        object_bytes_get(input, path)
    } else {
        array_bytes_get(input, path)
    }
}

/// The list of what the selectors of `path` find in `input`.
fn select_to_array<'a>(input: &'a [u8], path: &Path<'a>) -> (r: Result<Element<'a>>)
    requires
        path_wf(path@),
        path@.selectors is Some,
    ensures
        match r {
            Ok(e) => e.wf() && spec_select_list(input@, path@, 0, Seq::empty()) == Ok::<
                Seq<ElementModel>,
                Error,
            >(e.model()->List_0) && e.model() is List,
            Err(e) => spec_select_list(input@, path@, 0, Seq::empty()) == Err::<
                Seq<ElementModel>,
                Error,
            >(e),
        },
    decreases path_measure(path@), 2int, 0int,
{
    let sels = path.borrow_selectors();
    let mut list: Vec<Element<'a>> = Vec::new();
    let mut j: usize = 0;
    proof {
        assert(list_model(list@) =~= Seq::<ElementModel>::empty());
    }
    while j < sels.len()
        invariant
            path_wf(path@),
            path@.selectors is Some,
            selectors_model(sels@) == path@.selectors->0,
            j <= sels@.len(),
            spec_select_list(input@, path@, j as int, list_model(list@)) == spec_select_list(
                input@,
                path@,
                0,
                Seq::empty(),
            ),
            forall|k: int| 0 <= k < list@.len() ==> (#[trigger] list@[k]).wf(),
        decreases sels@.len() - j,
    {
        let sel = &sels[j];
        proof {
            assert(selectors_model(sels@)[j as int] == sel.model());
        }
        let sub = Path::from_slice(sel.path)?;
        proof {
            lemma_parse_wf(sel.path@);
        }
        let (found, _rest) = bytes_get(input, &sub)?;
        match found {
            Some(el) => {
                let ghost before = list@;
                list.push(el);
                proof {
                    assert(list_model(list@) =~= list_model(before).push(el.model()));
                }
            },
            None => {},
        }
        j += 1;
    }
    proof {
        lemma_list_model(list);
    }
    Ok(Element::List(list))
}

/// Puts a field into `fields` as a map does; see `fields_insert`.
fn fields_put<'a>(fields: &mut Vec<((&'a [u8], bool), Element<'a>)>, name: &'a [u8], el: Element<'a>)
    requires
        forall|k: int| 0 <= k < old(fields)@.len() ==> (#[trigger] old(fields)@[k]).1.wf(),
        el.wf(),
    ensures
        fields_model(final(fields)@) == fields_insert(fields_model(old(fields)@), (name@, false), el.model()),
        forall|k: int| 0 <= k < final(fields)@.len() ==> (#[trigger] final(fields)@[k]).1.wf(),
{
    let ghost fm = fields_model(fields@);
    let ghost key = (name@, false);
    let mut k: usize = 0;
    let mut found = false;
    while k < fields.len() && !found
        invariant
            k <= fields@.len(),
            fm == fields_model(fields@),
            key == (name@, false),
            !found ==> key_index(fm, key, k as int) == key_index(fm, key, 0),
            found ==> k < fields@.len() && key_index(fm, key, 0) == k,
        decreases fields@.len() - k, if found { 0int } else { 1int },
    {
        let fsl = fields.as_slice();
        let entry = &fsl[k];
        let kn: &[u8] = entry.0.0;
        let ke: bool = entry.0.1;
        proof {
            assert(*entry == fields@[k as int]);
            assert(fm[k as int] == ((fields@[k as int].0.0@, fields@[k as int].0.1), fields@[k as int].1.model()));
            assert(fm[k as int].0.0 == kn@);
            assert(fm[k as int].0.1 == ke);
        }
        let same_name = bytes_eq(kn, name);
        if !ke && same_name {
            proof {
                assert(fm[k as int].0 == key);
            }
            found = true;
        } else {
            proof {
                assert(fm[k as int].0 != key);
            }
            k += 1;
        }
    }
    if found {
        let _old = fields.remove(k);
        fields.insert(k, ((name, false), el));
        proof {
            assert(fields_model(fields@) =~= fm.update(k as int, (key, el.model())));
        }
    } else {
        fields.push(((name, false), el));
        proof {
            assert(fields_model(fields@) =~= fm.push((key, el.model())));
        }
    }
}

/// The object of what the selectors of `path` find in `input`, under the
/// selectors' names.
fn select_to_object<'a>(input: &'a [u8], path: &Path<'a>) -> (r: Result<Element<'a>>)
    requires
        path_wf(path@),
        path@.selectors is Some,
    ensures
        match r {
            Ok(e) => e.wf() && spec_select_fields(input@, path@, 0, Seq::empty()) == Ok::<
                Seq<FieldModel>,
                Error,
            >(e.model()->Fields_0) && e.model() is Fields,
            Err(e) => spec_select_fields(input@, path@, 0, Seq::empty()) == Err::<
                Seq<FieldModel>,
                Error,
            >(e),
        },
    decreases path_measure(path@), 2int, 0int,
{
    let sels = path.borrow_selectors();
    let mut fields: Vec<((&'a [u8], bool), Element<'a>)> = Vec::new();
    let mut j: usize = 0;
    proof {
        assert(fields_model(fields@) =~= Seq::<FieldModel>::empty());
    }
    while j < sels.len()
        invariant
            path_wf(path@),
            path@.selectors is Some,
            selectors_model(sels@) == path@.selectors->0,
            j <= sels@.len(),
            spec_select_fields(input@, path@, j as int, fields_model(fields@)) == spec_select_fields(
                input@,
                path@,
                0,
                Seq::empty(),
            ),
            forall|k: int| 0 <= k < fields@.len() ==> (#[trigger] fields@[k]).1.wf(),
        decreases sels@.len() - j,
    {
        let sel = &sels[j];
        proof {
            assert(selectors_model(sels@)[j as int] == sel.model());
        }
        let sub = Path::from_slice(sel.path)?;
        proof {
            lemma_parse_wf(sel.path@);
        }
        let (found, _rest) = bytes_get(input, &sub)?;
        match found {
            Some(el) => {
                fields_put(&mut fields, sel.name, el);
            },
            None => {},
        }
        j += 1;
    }
    proof {
        lemma_fields_model(fields);
    }
    Ok(Element::Fields(fields))
}

/// The value that starts `b`, looked up by the next step; see
/// `spec_step_into`.
fn step_into<'a>(b: &'a [u8], np: &Path<'a>) -> (r: Result<(Option<Element<'a>>, &'a [u8])>)
    requires
        path_wf(np@),
    ensures
        read_result_model(r) == spec_step_into(b@, np@),
        r matches Ok((Some(e), _)) ==> e.wf(),
    decreases path_measure(np@), 5int, 0int,
{
    let (el, rest) = read_one(b)?;
    match el {
        None => Ok((None, rest)),
        Some(m) => {
            let r = element_ref_get(&m, np)?;
            Ok((r, rest))
        },
    }
}

/// The lookup of `path` in an array or object element; see
/// `spec_element_ref_get`.
fn element_ref_get<'a>(element: &Element<'a>, path: &Path<'a>) -> (r: Result<Option<Element<'a>>>)
    requires
        path_wf(path@),
    ensures
        get_result_model(r) == spec_element_ref_get(element.model(), path@),
        r matches Ok(Some(e)) ==> e.wf(),
    decreases path_measure(path@), 4int, 0int,
{
    if !path.ok {
        return Ok(None);
    }
    match element {
        Element::Array(s) => {
            let (a, _b) = bytes_get(s, path)?;
            Ok(a)
        },
        Element::Object(s) => {
            let (a, _b) = bytes_get(s, path)?;
            Ok(a)
        },
        _ => Ok(None),
    }
}

/// The lookup of `path` in an element; see `spec_element_get`.
fn element_get<'a>(element: Element<'a>, path: &Path<'a>) -> (r: Result<Option<Element<'a>>>)
    requires
        path_wf(path@),
        element.wf(),
    ensures
        get_result_model(r) == spec_element_get(element.model(), path@),
        r matches Ok(Some(e)) ==> e.wf(),
    decreases path_measure(path@), 4int, 0int,
{
    if !path.ok {
        return Ok(None);
    }
    let next_path = path.parse_next()?;
    let ghost m = element.model();
    match element {
        Element::Array(s) => {
            let (a, _b) = bytes_get(s, path)?;
            Ok(a)
        },
        Element::Object(s) => {
            let (a, _b) = bytes_get(s, path)?;
            Ok(a)
        },
        Element::Fields(fields) => {
            proof {
                lemma_fields_model(fields);
                if path@.more {
                    lemma_next_smaller(path@);
                }
                assert forall|k: int| 0 <= k < fields@.len() implies (#[trigger] fields@[k]).1.wf() by {
                    assert(fields_model(fields@)[k].1 == fields@[k].1.model());
                }
            }
            fields_find(fields, path, &next_path)
        },
        Element::List(elements) => {
            proof {
                lemma_list_model(elements);
                assert forall|k: int| 0 <= k < elements@.len() implies (#[trigger] elements@[k]).wf() by {
                    assert(list_model(elements@)[k] == elements@[k].model());
                }
            }
            let query = path.borrow_query();
            let query_list = (query.on && query.all) || (!query.on && path.more);
            let query_first = query.on && !query.all;
            if query_first {
                if elements.len() > 0 {
                    let mut es = elements;
                    let ghost before = es@;
                    let first = es.remove(0);
                    proof {
                        assert(list_model(before)[0] == first.model());
                        assert(model_wf(m));
                    }
                    if path.more {
                        proof {
                            lemma_next_smaller(path@);
                        }
                        element_get(first, &next_path)
                    } else {
                        Ok(Some(first))
                    }
                } else {
                    Ok(None)
                }
            } else if query_list {
                if path.more {
                    proof {
                        lemma_next_smaller(path@);
                    }
                    list_collect(elements, path, &next_path)
                } else {
                    Ok(Some(Element::List(elements)))
                }
            } else {
                Ok(Some(Element::Count(elements.len())))
            }
        },
        _ => Ok(None),
    }
}

/// The value of the first field whose key matches `path`, looked up by the
/// next step; see `spec_fields_find`.
fn fields_find<'a>(fields: Vec<((&'a [u8], bool), Element<'a>)>, path: &Path<'a>, next: &Path<'a>) -> (r:
    Result<Option<Element<'a>>>)
    requires
        path_wf(path@),
        path@.more ==> spec_parse_next(path@) == Ok::<PathModel, Error>(next@),
        path@.more ==> path_wf(next@) && path_measure(next@) < path_measure(path@),
        forall|k: int| 0 <= k < fields@.len() ==> (#[trigger] fields@[k]).1.wf(),
    ensures
        get_result_model(r) == spec_fields_find(fields_model(fields@), path@, next@, 0),
        r matches Ok(Some(e)) ==> e.wf(),
    decreases path_measure(path@), 3int, 0int,
{
    let ghost orig = fields_model(fields@);
    let ghost n = fields@.len();
    let mut fs = fields;
    let ghost mut j: int = 0;
    while fs.len() > 0
        invariant
            path_wf(path@),
            path@.more ==> spec_parse_next(path@) == Ok::<PathModel, Error>(next@),
            path@.more ==> path_wf(next@) && path_measure(next@) < path_measure(path@),
            0 <= j <= n,
            orig.len() == n,
            orig == fields_model(fields@),
            fields_model(fs@) == orig.subrange(j, n as int),
            spec_fields_find(orig, path@, next@, j) == spec_fields_find(orig, path@, next@, 0),
            forall|k: int| 0 <= k < fs@.len() ==> (#[trigger] fs@[k]).1.wf(),
        decreases fs@.len(),
    {
        let ghost before = fs@;
        proof {
            assert(fields_model(before).len() == n - j);
            assert(j < n);
            assert(fields_model(before)[0] == orig.subrange(j, n as int)[0]);
        }
        let entry = fs.remove(0);
        let key: &[u8] = entry.0.0;
        let key_esc: bool = entry.0.1;
        let value = entry.1;
        proof {
            assert(entry == before[0]);
            assert(fields_model(before)[0] == orig[j]);
            assert(orig[j] == ((key@, key_esc), value.model()));
            assert(before[0].1.wf());
        }
        if path.is_match(key, key_esc) {
            if path.more {
                return element_get(value, next);
            }
            return Ok(Some(value));
        }
        proof {
            assert forall|k: int| 0 <= k < fs@.len() implies fields_model(fs@)[k] == orig.subrange(j + 1, n as int)[k] by {
                assert(fs@[k] == before[k + 1]);
                assert(fields_model(before)[k + 1] == orig.subrange(j, n as int)[k + 1]);
            }
            assert(fields_model(fs@) =~= orig.subrange(j + 1, n as int));
            assert forall|k: int| 0 <= k < fs@.len() implies (#[trigger] fs@[k]).1.wf() by {
                assert(fs@[k] == before[k + 1]);
            }
            j = j + 1;
        }
    }
    Ok(None)
}

/// The elements of a list looked up by the next step; see
/// `spec_list_collect`.
fn list_collect<'a>(elements: Vec<Element<'a>>, path: &Path<'a>, next: &Path<'a>) -> (r: Result<
    Option<Element<'a>>,
>)
    requires
        path_wf(path@),
        path@.more,
        spec_parse_next(path@) == Ok::<PathModel, Error>(next@),
        path_wf(next@),
        path_measure(next@) < path_measure(path@),
        forall|k: int| 0 <= k < elements@.len() ==> (#[trigger] elements@[k]).wf(),
    ensures
        match r {
            Ok(Some(e)) => e.wf() && spec_list_collect(
                list_model(elements@),
                path@,
                next@,
                0,
                Seq::empty(),
            ) == Ok::<Seq<ElementModel>, Error>(e.model()->List_0) && e.model() is List,
            Ok(None) => false,
            Err(e) => spec_list_collect(list_model(elements@), path@, next@, 0, Seq::empty())
                == Err::<Seq<ElementModel>, Error>(e),
        },
    decreases path_measure(path@), 3int, 0int,
{
    let ghost orig = list_model(elements@);
    let ghost n = elements@.len();
    let mut es = elements;
    let mut results: Vec<Element<'a>> = Vec::new();
    let ghost mut j: int = 0;
    proof {
        assert(list_model(results@) =~= Seq::<ElementModel>::empty());
        assert(list_model(es@) =~= orig.subrange(0, n as int));
    }
    while es.len() > 0
        invariant
            path_wf(path@),
            path@.more,
            spec_parse_next(path@) == Ok::<PathModel, Error>(next@),
            path_wf(next@),
            path_measure(next@) < path_measure(path@),
            0 <= j <= n,
            orig.len() == n,
            orig == list_model(elements@),
            list_model(es@) == orig.subrange(j, n as int),
            spec_list_collect(orig, path@, next@, j, list_model(results@)) == spec_list_collect(
                orig,
                path@,
                next@,
                0,
                Seq::empty(),
            ),
            forall|k: int| 0 <= k < es@.len() ==> (#[trigger] es@[k]).wf(),
            forall|k: int| 0 <= k < results@.len() ==> (#[trigger] results@[k]).wf(),
        decreases es@.len(),
    {
        let ghost before = es@;
        proof {
            assert(list_model(before).len() == n - j);
            assert(j < n);
            assert(list_model(before)[0] == orig.subrange(j, n as int)[0]);
        }
        let e = es.remove(0);
        proof {
            assert(list_model(before)[0] == orig[j]);
            assert(before[0].wf());
        }
        proof {
            assert(e.model() == orig[j]);
            assert(spec_list_collect(orig, path@, next@, j, list_model(results@)) == match spec_element_get(orig[j], next@) {
                Err(e) => Err(e),
                Ok(Some(x)) => spec_list_collect(orig, path@, next@, j + 1, list_model(results@).push(x)),
                Ok(None) => spec_list_collect(orig, path@, next@, j + 1, list_model(results@)),
            });
        }
        let found = match element_get(e, next) {
            Ok(f) => f,
            Err(err) => {
                proof {
                    assert(spec_element_get(orig[j], next@) == Err::<Option<ElementModel>, Error>(err));
                    assert(spec_list_collect(orig, path@, next@, j, list_model(results@)) == Err::<Seq<ElementModel>, Error>(err));
                }
                return Err(err);
            },
        };
        match found {
            Some(x) => {
                let ghost before_r = results@;
                results.push(x);
                proof {
                    assert(list_model(results@) =~= list_model(before_r).push(x.model()));
                }
            },
            None => {},
        }
        proof {
            assert forall|k: int| 0 <= k < es@.len() implies list_model(es@)[k] == orig.subrange(j + 1, n as int)[k] by {
                assert(es@[k] == before[k + 1]);
                assert(list_model(before)[k + 1] == orig.subrange(j, n as int)[k + 1]);
            }
            assert(list_model(es@) =~= orig.subrange(j + 1, n as int));
            assert forall|k: int| 0 <= k < es@.len() implies (#[trigger] es@[k]).wf() by {
                assert(es@[k] == before[k + 1]);
            }
            j = j + 1;
        }
    }
    proof {
        assert(j == n);
        lemma_list_model(results);
    }
    Ok(Some(Element::List(results)))
}

/// The lookup of `path` in the object that `input` starts with; see
/// `spec_object_scan`.
fn object_bytes_get<'a>(input: &'a [u8], path: &Path<'a>) -> (r: Result<(Option<Element<'a>>, &'a [u8])>)
    requires
        path_wf(path@),
    ensures
        read_result_model(r) == spec_object_scan(input@, path@, 1),
        r matches Ok((Some(e), _)) ==> e.wf(),
    decreases path_measure(path@), 1int, 0int,
{
    let mut cur = input;
    let mut i: usize = 1;
    loop
        invariant
            path_wf(path@),
            i <= cur@.len() + 1,
            spec_object_scan(cur@, path@, i as int) == spec_object_scan(input@, path@, 1),
        decreases cur@.len() + 1 - i,
    {
        let len = cur.len();
        if i >= len {
            return Ok((None, empty_rest(cur)));
        }
        let c = cur[i];
        if c == chars::RBRACE {
            return Ok((None, &cur[i + 1..len]));
        }
        if c != chars::QUOTE {
            i += 1;
            continue;
        }
        let inp = &cur[i..len];
        proof {
            lemma_string_scan_bounds(inp@, 1);
        }
        let (s, left, esc) = string_u8(inp)?;
        if s.len() < 2 {
            return Err(Error::ObjectKey);
        }
        let key = &s[1..s.len() - 1];
        proof {
            assert(key@ =~= s@.subrange(1, s@.len() - 1));
        }
        if path.is_match(key, esc) {
            if path.more {
                let np = path.parse_next()?;
                proof {
                    lemma_next_smaller(path@);
                }
                return step_into(left, &np);
            } else {
                return read_checked(left);
            }
        }
        proof {
            lemma_read_one(left@);
        }
        let (element, left2) = read_one(left)?;
        if element.is_none() {
            return Ok((None, empty_rest(cur)));
        }
        cur = left2;
        i = 0;
    }
}

/// What an array lookup for step `p` works with: the next step `np` and
/// the step `qk` of its query, as parsed, both smaller than `p`.
pub open spec fn array_ctx(p: PathModel, np: PathModel, qk: PathModel) -> bool {
    &&& path_wf(p)
    &&& spec_parse_next(p) == Ok::<PathModel, Error>(np)
    &&& (p.more ==> path_wf(np) && path_measure(np) < path_measure(p))
    &&& spec_query_key(p) == Ok::<PathModel, Error>(qk)
    &&& (borrowed_query(p).path.len() > 0 ==> path_wf(qk) && path_measure(qk) < path_measure(p))
}

/// Whether `element` passes the query of `path`; see `spec_query_pass`.
fn query_pass<'a>(element: &Element<'a>, query: &Query<'a>, path: &Path<'a>, qk: &Path<'a>) -> (r: Result<bool>)
    requires
        element.wf(),
        path_wf(path@),
        query.model() == borrowed_query(path@),
        spec_query_key(path@) == Ok::<PathModel, Error>(qk@),
        borrowed_query(path@).path.len() > 0 ==> path_wf(qk@) && path_measure(qk@) < path_measure(path@),
    ensures
        match r {
            Ok(b) => spec_query_pass(element.model(), path@, qk@) == Ok::<bool, Error>(b),
            Err(e) => spec_query_pass(element.model(), path@, qk@) == Err::<bool, Error>(e),
        },
    decreases path_measure(path@), 1int, 0int,
{
    if !query.on {
        return Ok(true);
    }
    if query.has_path() {
        match element_ref_get(element, qk) {
            Err(e) => Err(e),
            Ok(None) => Ok(false),
            Ok(Some(v)) => Ok(query.match_element(&v)),
        }
    } else {
        Ok(query.match_element(element))
    }
}

/// The element looked up by the next step, when the step has more after
/// it; the element itself otherwise.
fn next_lookup<'a>(element: Element<'a>, path: &Path<'a>, next: &Path<'a>) -> (r: Result<Option<Element<'a>>>)
    requires
        path_wf(path@),
        element.wf(),
        path@.more ==> path_wf(next@) && path_measure(next@) < path_measure(path@),
    ensures
        get_result_model(r) == (if path@.more {
            spec_element_get(element.model(), next@)
        } else {
            Ok(Some(element.model()))
        }),
        r matches Ok(Some(e)) ==> e.wf(),
    decreases path_measure(path@), 1int, 0int,
{
    if path.more {
        element_get(element, next)
    } else {
        Ok(Some(element))
    }
}

/// The result of an array lookup whose elements ran out: the list kept,
/// nothing, or the count.
fn array_finish<'a>(elements: Vec<Element<'a>>, left: &'a [u8], index: usize, path: &Path<'a>, return_list: bool, only_first: bool) -> (r: Result<(Option<Element<'a>>, &'a [u8])>)
    requires
        return_list == returns_list(path@),
        only_first == returns_first(path@),
        forall|k: int| 0 <= k < elements@.len() ==> (#[trigger] elements@[k]).wf(),
    ensures
        read_result_model(r) == (if returns_list(path@) {
            Ok((Some(ElementModel::List(list_model(elements@))), left@))
        } else if returns_first(path@) {
            Ok((None, left@))
        } else if path@.arrch {
            Ok((Some(ElementModel::Count(index as nat)), left@))
        } else {
            Ok::<(Option<ElementModel>, Seq<u8>), Error>((None, left@))
        }),
        r matches Ok((Some(e), _)) ==> e.wf(),
{
    if return_list {
        proof {
            lemma_list_model(elements);
        }
        Ok((Some(Element::List(elements)), left))
    } else if only_first {
        Ok((None, left))
    } else if path.arrch {
        Ok((Some(Element::Count(index)), left))
    } else {
        Ok((None, left))
    }
}

/// The lookup of `path` in the array that `bytes` starts with; see
/// `spec_array_get`.
#[verifier::rlimit(40)]
fn array_bytes_get<'a>(bytes: &'a [u8], path: &Path<'a>) -> (r: Result<(Option<Element<'a>>, &'a [u8])>)
    requires
        path_wf(path@),
        bytes@.len() > 0,
    ensures
        read_result_model(r) == spec_array_get(bytes@, path@),
        r matches Ok((Some(e), _)) ==> e.wf(),
    decreases path_measure(path@), 2int, 0int,
{
    let idx_opt = part_index(path.part)?;
    let ghost idx: Option<nat> = match idx_opt {
        Some(u) => Some(u as nat),
        None => None,
    };
    let query = path.borrow_query();
    let query_key = query.get_path()?;
    let return_list = (query.on && query.all) || (!query.on && path.more);
    let only_first = query.on && !query.all;
    let mut cur = &bytes[1..bytes.len()];
    let next_path = path.parse_next()?;
    proof {
        if path@.more {
            lemma_next_smaller(path@);
        }
        if borrowed_query(path@).path.len() > 0 {
            lemma_query_key_smaller(path@);
        }
        assert(spec_query_key(path@) == Ok::<PathModel, Error>(query_key@));
        assert(spec_parse_next(path@) == Ok::<PathModel, Error>(next_path@));
        assert(array_ctx(path@, next_path@, query_key@));
        assert(spec_array_get(bytes@, path@) == spec_array_loop(
            cur@,
            path@,
            next_path@,
            query_key@,
            idx,
            0,
            Seq::empty(),
        ));
    }
    let ghost start = cur@;
    let ghost target = spec_array_get(bytes@, path@);
    let mut index: usize = 0;
    let mut elements: Vec<Element<'a>> = Vec::new();
    proof {
        assert(list_model(elements@) =~= Seq::<ElementModel>::empty());
    }
    loop
        invariant
            array_ctx(path@, next_path@, query_key@),
            query.model() == borrowed_query(path@),
            return_list == returns_list(path@),
            only_first == returns_first(path@),
            idx == match idx_opt {
                Some(u) => Some(u as nat),
                None => None::<nat>,
            },
            index + cur@.len() <= start.len(),
            start.len() < bytes@.len(),
            bytes@.len() <= usize::MAX,
            target == spec_array_get(bytes@, path@),
            spec_array_loop(cur@, path@, next_path@, query_key@, idx, index as nat, list_model(elements@))
                == target,
            forall|k: int| 0 <= k < elements@.len() ==> (#[trigger] elements@[k]).wf(),
        decreases cur@.len(),
    {
        match idx_opt {
            Some(u) => {
                if u == index {
                    if path.more {
                        return step_into(cur, &next_path);
                    } else {
                        return read_checked(cur);
                    }
                }
            },
            None => {},
        }
        proof {
            lemma_read_one(cur@);
        }
        let (readed, left) = read_one(cur)?;
        let element = match readed {
            None => {
                return array_finish(elements, left, index, path, return_list, only_first);
            },
            Some(el) => el,
        };
        proof {
            assert(left@.len() < cur@.len());
            assert(element.wf());
        }
        let pass = query_pass(&element, &query, path, &query_key)?;
        if !pass {
            cur = left;
            continue;
        }
        index += 1;
        let found = next_lookup(element, path, &next_path)?;
        let element = match found {
            Some(el) => el,
            None => {
                cur = left;
                continue;
            },
        };
        if only_first {
            return Ok((Some(element), left));
        }
        if return_list {
            let ghost before = elements@;
            let ghost em = element.model();
            elements.push(element);
            proof {
                assert(list_model(elements@) =~= list_model(before).push(em));
            }
        }
        cur = left;
    }
}

/// The first position at or after `i` holding `c`, or the length.
pub open spec fn first_index_of(b: Seq<u8>, c: u8, i: int) -> int
    decreases b.len() - i,
{
    if i < 0 || i >= b.len() {
        b.len() as int
    } else if b[i] == c {
        i
    } else {
        first_index_of(b, c, i + 1)
    }
}

/// The values read one after another from `rest` until none is left,
/// after those in `acc`.
pub open spec fn collect_values(rest: Seq<u8>, acc: Seq<ElementModel>) -> core::result::Result<
    Seq<ElementModel>,
    Error,
>
    decreases rest.len(),
{
    match spec_read_one(rest) {
        Err(e) => Err(e),
        Ok((None, _)) => Ok(acc),
        Ok((Some(m), left)) => {
            proof {
                lemma_read_one(rest);
            }
            collect_values(left, acc.push(m))
        },
    }
}

/// The elements of the first array in `b`: everything read after its
/// opening bracket up to the first place no value starts.
pub open spec fn spec_bytes_to_vec(b: Seq<u8>) -> core::result::Result<Seq<ElementModel>, Error> {
    let i = first_index_of(b, chars::LBRACKET, 0);
    if i >= b.len() - 1 {
        Ok(Seq::empty())
    } else {
        collect_values(b.subrange(i + 1, b.len() as int), Seq::empty())
    }
}

/// The values `v` stand for the elements `m`, one by one.
pub open spec fn values_of(v: Seq<Value>, m: Seq<ElementModel>) -> bool {
    &&& v.len() == m.len()
    &&& forall|k: int| 0 <= k < v.len() ==> value_of(#[trigger] v[k], m[k])
}

/// Reads the elements of the first array in `bytes`; see
/// `spec_bytes_to_vec`.
pub fn bytes_to_vec(bytes: &[u8]) -> (r: Result<Vec<Value>>)
    requires
        bytes@.len() > 0,
    ensures
        match r {
            Ok(v) => spec_bytes_to_vec(bytes@) matches Ok(m) && values_of(v@, m),
            Err(e) => spec_bytes_to_vec(bytes@) == Err::<Seq<ElementModel>, Error>(e),
        },
{
    let mut arr: Vec<Value> = Vec::new();
    let len = bytes.len();
    let mut i: usize = 0;
    while i < len && bytes[i] != chars::LBRACKET
        invariant
            i <= len,
            len == bytes@.len(),
            first_index_of(bytes@, chars::LBRACKET, i as int) == first_index_of(bytes@, chars::LBRACKET, 0),
        decreases len - i,
    {
        i += 1;
    }
    if i >= len - 1 {
        return Ok(arr);
    }
    let mut rest = &bytes[i + 1..len];
    let ghost mut acc: Seq<ElementModel> = Seq::empty();
    let ghost target = spec_bytes_to_vec(bytes@);
    loop
        invariant
            target == spec_bytes_to_vec(bytes@),
            collect_values(rest@, acc) == target,
            values_of(arr@, acc),
        decreases rest@.len(),
    {
        proof {
            lemma_read_one(rest@);
        }
        let (a, left) = read_one(rest)?;
        match a {
            Some(el) => {
                let v = el.to_value();
                let ghost before = arr@;
                arr.push(v);
                proof {
                    acc = acc.push(el.model());
                    assert forall|k: int| 0 <= k < arr@.len() implies value_of(#[trigger] arr@[k], acc[k]) by {
                        if k < before.len() {
                            assert(arr@[k] == before[k]);
                        }
                    }
                }
                rest = left;
            },
            None => {
                return Ok(arr);
            },
        }
    }
}

/// A key and its value in an object read by `bytes_to_map`.
pub type EntryModel = (Seq<u8>, ElementModel);

/// The first position at or after `j` whose entry has the key `key`, or
/// the length.
pub open spec fn entry_index(es: Seq<EntryModel>, key: Seq<u8>, j: int) -> int
    decreases es.len() - j,
{
    if j < 0 || j >= es.len() {
        es.len() as int
    } else if es[j].0 == key {
        j
    } else {
        entry_index(es, key, j + 1)
    }
}

proof fn lemma_entry_index(es: Seq<EntryModel>, key: Seq<u8>, j: int)
    requires
        0 <= j <= es.len(),
    ensures
        j <= entry_index(es, key, j) <= es.len(),
        entry_index(es, key, j) < es.len() ==> es[entry_index(es, key, j)].0 == key,
    decreases es.len() - j,
{
    if j < es.len() && es[j].0 != key {
        lemma_entry_index(es, key, j + 1);
    }
}

/// Puts an entry into a list of entries as a map does: an entry with the
/// same key gets the new value in its place, else it is added at the end.
pub open spec fn entries_insert(es: Seq<EntryModel>, key: Seq<u8>, m: ElementModel) -> Seq<EntryModel> {
    let k = entry_index(es, key, 0);
    if k < es.len() {
        es.update(k, (key, m))
    } else {
        es.push((key, m))
    }
}

/// The scan of an object's members from position `i` of `b`: each string
/// is a key, the value after it is read, and the scan goes on after the
/// value; a closing brace, the end of the text or a key without a value
/// ends it.
pub open spec fn map_scan(b: Seq<u8>, i: int, acc: Seq<EntryModel>) -> core::result::Result<
    Seq<EntryModel>,
    Error,
>
    decreases b.len() + 1 - i,
{
    if i < 0 || i >= b.len() {
        Ok(acc)
    } else if b[i] == chars::RBRACE {
        Ok(acc)
    } else if b[i] != chars::QUOTE {
        map_scan(b, i + 1, acc)
    } else {
        let input = b.subrange(i, b.len() as int);
        let e = string_close(input, 0);
        let key = input.subrange(0, e);
        let rest = input.subrange(e, input.len() as int);
        match spec_read_one(rest) {
            Err(err) => Err(err),
            Ok((None, _)) => Ok(acc),
            Ok((Some(m), left)) => {
                proof {
                    lemma_read_one(rest);
                    lemma_string_scan_bounds(input, 1);
                }
                map_scan(left, 0, entries_insert(acc, string_inner(key), m))
            },
        }
    }
}

/// The members of the first object in `b`: a text with no opening brace is
/// an `Object` error, a brace that ends the text gives no member.
pub open spec fn spec_bytes_to_map(b: Seq<u8>) -> core::result::Result<Seq<EntryModel>, Error> {
    let i = first_index_of(b, chars::LBRACE, 0);
    if i == b.len() - 1 {
        Ok(Seq::empty())
    } else if i >= b.len() {
        Err(Error::Object)
    } else {
        map_scan(b, i + 1, Seq::empty())
    }
}

/// The entries `v` stand for the members `m`, one by one: each key is the
/// text of the member's key and each value stands for its element.
pub open spec fn entries_of(v: Seq<(String, Value)>, m: Seq<EntryModel>) -> bool {
    &&& v.len() == m.len()
    &&& forall|k: int|
        0 <= k < v.len() ==> (#[trigger] v[k]).0@ == spec_utf8_lossy(m[k].0) && value_of(v[k].1, m[k].1)
}

/// Puts the entry for `key` into `entries` as a map does; see
/// `entries_insert`.
fn entries_put(entries: &mut Vec<(String, Value)>, keys: &mut Vec<Vec<u8>>, key: &[u8], value: Value, Ghost(acc): Ghost<Seq<EntryModel>>, Ghost(m): Ghost<ElementModel>) -> (r: Ghost<Seq<EntryModel>>)
    requires
        old(keys)@.len() == old(entries)@.len(),
        old(keys)@.len() == acc.len(),
        forall|k: int| 0 <= k < acc.len() ==> (#[trigger] old(keys)@[k])@ == acc[k].0,
        entries_of(old(entries)@, acc),
        value_of(value, m),
    ensures
        r@ == entries_insert(acc, key@, m),
        final(keys)@.len() == final(entries)@.len(),
        final(keys)@.len() == r@.len(),
        forall|k: int| 0 <= k < r@.len() ==> (#[trigger] final(keys)@[k])@ == r@[k].0,
        entries_of(final(entries)@, r@),
{
    let mut k: usize = 0;
    let mut found = false;
    while k < keys.len() && !found
        invariant
            keys@.len() == acc.len(),
            keys@ == old(keys)@,
            k <= keys@.len(),
            forall|t: int| 0 <= t < acc.len() ==> (#[trigger] keys@[t])@ == acc[t].0,
            !found ==> entry_index(acc, key@, k as int) == entry_index(acc, key@, 0),
            found ==> k < keys@.len() && entry_index(acc, key@, 0) == k,
        decreases keys@.len() - k, if found { 0int } else { 1int },
    {
        let same = bytes_eq(keys[k].as_slice(), key);
        if same {
            found = true;
        } else {
            k += 1;
        }
    }
    let text = utf8_lossy(key);
    let ghost r = entries_insert(acc, key@, m);
    if found {
        proof {
            lemma_entry_index(acc, key@, 0);
        }
        let _old = entries.remove(k);
        entries.insert(k, (text, value));
        proof {
            assert(entries@ =~= old(entries)@.update(k as int, (text, value)));
            assert forall|t: int| 0 <= t < r.len() implies (#[trigger] entries@[t]).0@ == spec_utf8_lossy(r[t].0) && value_of(entries@[t].1, r[t].1) by {
                if t != k {
                    assert(entries@[t] == old(entries)@[t]);
                }
            }
        }
    } else {
        let mut kv: Vec<u8> = Vec::new();
        let mut t: usize = 0;
        while t < key.len()
            invariant
                t <= key@.len(),
                kv@ == key@.subrange(0, t as int),
            decreases key@.len() - t,
        {
            kv.push(key[t]);
            t += 1;
            proof {
                assert(kv@ =~= key@.subrange(0, t as int));
            }
        }
        proof {
            assert(kv@ =~= key@);
        }
        keys.push(kv);
        entries.push((text, value));
        proof {
            assert forall|t: int| 0 <= t < r.len() implies (#[trigger] entries@[t]).0@ == spec_utf8_lossy(r[t].0) && value_of(entries@[t].1, r[t].1) by {
                if t < acc.len() {
                    assert(entries@[t] == old(entries)@[t]);
                }
            }
            assert forall|t: int| 0 <= t < r.len() implies (#[trigger] keys@[t])@ == r[t].0 by {
                if t < acc.len() {
                    assert(keys@[t] == old(keys)@[t]);
                }
            }
        }
    }
    Ghost(r)
}

/// Reads the members of the first object in `bytes`; see
/// `spec_bytes_to_map`. A key met again replaces the value it had.
pub fn bytes_to_map(bytes: &[u8]) -> (r: Result<Vec<(String, Value)>>)
    requires
        bytes@.len() > 0,
    ensures
        match r {
            Ok(v) => spec_bytes_to_map(bytes@) matches Ok(m) && entries_of(v@, m),
            Err(e) => spec_bytes_to_map(bytes@) == Err::<Seq<EntryModel>, Error>(e),
        },
{
    let mut entries: Vec<(String, Value)> = Vec::new();
    let mut keys: Vec<Vec<u8>> = Vec::new();
    let len = bytes.len();
    let mut i: usize = 0;
    while i < len && bytes[i] != chars::LBRACE
        invariant
            i <= len,
            len == bytes@.len(),
            first_index_of(bytes@, chars::LBRACE, i as int) == first_index_of(bytes@, chars::LBRACE, 0),
        decreases len - i,
    {
        i += 1;
    }
    if i == len - 1 {
        return Ok(entries);
    }
    if i >= len {
        return Err(Error::Object);
    }
    let mut cur = bytes;
    i += 1;
    let ghost mut acc: Seq<EntryModel> = Seq::empty();
    let ghost target = spec_bytes_to_map(bytes@);
    loop
        invariant
            target == spec_bytes_to_map(bytes@),
            i <= cur@.len() + 1,
            map_scan(cur@, i as int, acc) == target,
            keys@.len() == entries@.len(),
            keys@.len() == acc.len(),
            forall|k: int| 0 <= k < acc.len() ==> (#[trigger] keys@[k])@ == acc[k].0,
            entries_of(entries@, acc),
        decreases cur@.len() + 1 - i,
    {
        let clen = cur.len();
        if i >= clen {
            return Ok(entries);
        }
        let c = cur[i];
        if c == chars::RBRACE {
            return Ok(entries);
        }
        if c != chars::QUOTE {
            i += 1;
            continue;
        }
        let input = &cur[i..clen];
        proof {
            lemma_string_scan_bounds(input@, 1);
        }
        let (key, rest, _esc) = string_u8(input)?;
        proof {
            lemma_read_one(rest@);
        }
        let (val, left) = read_one(rest)?;
        match val {
            None => {
                return Ok(entries);
            },
            Some(el) => {
                let inner = if key.len() >= 2 {
                    &key[1..key.len() - 1]
                } else {
                    &key[0..0]
                };
                proof {
                    assert(inner@ =~= string_inner(key@));
                }
                let value = el.to_value();
                let Ghost(next_acc) = entries_put(&mut entries, &mut keys, inner, value, Ghost(acc), Ghost(el.model()));
                proof {
                    acc = next_acc;
                }
                cur = left;
                i = 0;
            },
        }
    }
}

/// The bytes hold no `{` and no `[`.
pub open spec fn no_compound(b: Seq<u8>) -> bool {
    forall|k: int| 0 <= k < b.len() ==> b[k] != chars::LBRACE && b[k] != chars::LBRACKET
}

proof fn lemma_first_compound_bounds(b: Seq<u8>, i: int)
    requires
        0 <= i,
    ensures
        i <= first_compound(b, i) || first_compound(b, i) == b.len(),
        0 <= first_compound(b, i) <= b.len(),
    decreases b.len() - i,
{
    if i < b.len() && !(b[i] == chars::LBRACE || b[i] == chars::LBRACKET) {
        lemma_first_compound_bounds(b, i + 1);
    }
}

proof fn lemma_first_compound_none(b: Seq<u8>, i: int)
    requires
        no_compound(b),
        0 <= i,
    ensures
        first_compound(b, i) == b.len(),
    decreases b.len() - i,
{
    if i < b.len() {
        lemma_first_compound_none(b, i + 1);
    }
}

proof fn lemma_first_compound_prefix(pre: Seq<u8>, b: Seq<u8>, i: int)
    requires
        no_compound(pre),
        0 <= i <= pre.len(),
    ensures
        first_compound(pre + b, i) == pre.len() + first_compound(b, 0),
    decreases pre.len() + b.len() - i,
{
    let t = pre + b;
    if i < pre.len() {
        assert(t[i] == pre[i]);
        lemma_first_compound_prefix(pre, b, i + 1);
    } else {
        lemma_first_compound_shift(pre, b, 0);
    }
}

proof fn lemma_first_compound_shift(pre: Seq<u8>, b: Seq<u8>, j: int)
    requires
        0 <= j <= b.len(),
    ensures
        first_compound(pre + b, pre.len() + j) == pre.len() + first_compound(b, j),
    decreases b.len() - j,
{
    let t = pre + b;
    if j < b.len() {
        assert(t[pre.len() + j] == b[j]);
        lemma_first_compound_shift(pre, b, j + 1);
    }
}

/// The law that, in JSON text with nothing that can start an array or an
/// object, a step without a selector group finds nothing.
pub proof fn lemma_no_compound_finds_nothing(b: Seq<u8>, p: PathModel)
    requires
        path_wf(p),
        no_compound(b),
        p.selectors is None,
    ensures
        spec_bytes_get(b, p) == Ok::<(Option<ElementModel>, Seq<u8>), Error>((None, Seq::empty())),
{
    lemma_first_compound_none(b, 0);
}

/// The law that text before the first array or object is skipped: with a
/// prefix that holds no `{` and no `[`, a lookup in the rest of the text
/// (when there is any) gives the same result.
pub proof fn lemma_prefix_skipped(pre: Seq<u8>, b: Seq<u8>, p: PathModel)
    requires
        path_wf(p),
        no_compound(pre),
        b.len() > 0,
    ensures
        spec_bytes_get(pre + b, p) == spec_bytes_get(b, p),
    decreases path_measure(p), 1int, 0int,
{
    let t = pre + b;
    assert(t.len() > 0);
    if !p.ok {
    } else if p.selectors is Some {
        if p.arrsel {
            lemma_prefix_select_list(pre, b, p, 0, Seq::empty());
        } else {
            lemma_prefix_select_fields(pre, b, p, 0, Seq::empty());
        }
        assert(spec_bytes_get(t, p) == spec_bytes_get(b, p));
    } else {
        lemma_first_compound_prefix(pre, b, 0);
        lemma_first_compound_bounds(b, 0);
        let i = first_compound(b, 0);
        assert(first_compound(t, 0) == pre.len() + i);
        if 0 <= i < b.len() {
            assert(t[pre.len() + i] == b[i]);
            assert(t.subrange(pre.len() + i, t.len() as int) =~= b.subrange(i, b.len() as int));
        }
        assert(spec_bytes_get(t, p) == spec_bytes_get(b, p));
    }
}

proof fn lemma_prefix_select_list(pre: Seq<u8>, b: Seq<u8>, p: PathModel, j: int, acc: Seq<ElementModel>)
    requires
        path_wf(p),
        p.selectors is Some,
        no_compound(pre),
        b.len() > 0,
        0 <= j,
    ensures
        spec_select_list(pre + b, p, j, acc) == spec_select_list(b, p, j, acc),
    decreases path_measure(p), 0int, p.selectors->0.len() - j,
{
    let sels = p.selectors->0;
    if j < sels.len() {
        lemma_parse_wf(sels[j].1);
        match spec_parse(sels[j].1) {
            Ok(sp) => {
                lemma_prefix_skipped(pre, b, sp);
                match spec_bytes_get(b, sp) {
                    Ok((Some(el), _)) => {
                        lemma_prefix_select_list(pre, b, p, j + 1, acc.push(el));
                    },
                    Ok((None, _)) => {
                        lemma_prefix_select_list(pre, b, p, j + 1, acc);
                    },
                    Err(_) => {},
                }
            },
            Err(_) => {},
        }
    }
}

proof fn lemma_prefix_select_fields(pre: Seq<u8>, b: Seq<u8>, p: PathModel, j: int, acc: Seq<FieldModel>)
    requires
        path_wf(p),
        p.selectors is Some,
        no_compound(pre),
        b.len() > 0,
        0 <= j,
    ensures
        spec_select_fields(pre + b, p, j, acc) == spec_select_fields(b, p, j, acc),
    decreases path_measure(p), 0int, p.selectors->0.len() - j,
{
    let sels = p.selectors->0;
    if j < sels.len() {
        lemma_parse_wf(sels[j].1);
        match spec_parse(sels[j].1) {
            Ok(sp) => {
                lemma_prefix_skipped(pre, b, sp);
                match spec_bytes_get(b, sp) {
                    Ok((Some(el), _)) => {
                        lemma_prefix_select_fields(pre, b, p, j + 1, fields_insert(acc, (sels[j].0, false), el));
                    },
                    Ok((None, _)) => {
                        lemma_prefix_select_fields(pre, b, p, j + 1, acc);
                    },
                    Err(_) => {},
                }
            },
            Err(_) => {},
        }
    }
}

} // verus!
