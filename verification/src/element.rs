//! Scanning single JSON values out of bytes.

use crate::chars;
use crate::number::{number_kind, number_text_end, Number};
use crate::text::{spec_utf8_lossy, utf8_lossy};
use crate::unescape::{spec_unescape, unescape_bytes};
use crate::value::Value;
use vstd::string::StringExecFns;
use crate::Error;
use crate::Result;
use vstd::prelude::*;
use vstd::utf8::{decode_utf8, valid_utf8};

verus! {

/// A JSON value found in the input, held as the bytes it was written with.
#[derive(Debug, PartialEq)]
pub enum Element<'a> {
    String(&'a [u8], bool),
    Object(&'a [u8]),
    Array(&'a [u8]),
    Null(&'a [u8]),
    Boolean(&'a [u8]),
    Number(&'a [u8]),
    Count(usize),
    List(Vec<Element<'a>>),
    Fields(Vec<((&'a [u8], bool), Element<'a>)>),
}

/// The mathematical model of an `Element`: byte slices become sequences.
pub enum ElementModel {
    String(Seq<u8>, bool),
    Object(Seq<u8>),
    Array(Seq<u8>),
    Null(Seq<u8>),
    Boolean(Seq<u8>),
    Number(Seq<u8>),
    Count(nat),
    List(Seq<ElementModel>),
    Fields(Seq<((Seq<u8>, bool), ElementModel)>),
}

impl<'a> Element<'a> {
    pub open spec fn model(&self) -> ElementModel
        decreases self,
    {
        match self {
            Element::String(s, e) => ElementModel::String(s@, *e),
            Element::Object(s) => ElementModel::Object(s@),
            Element::Array(s) => ElementModel::Array(s@),
            Element::Null(s) => ElementModel::Null(s@),
            Element::Boolean(s) => ElementModel::Boolean(s@),
            Element::Number(s) => ElementModel::Number(s@),
            Element::Count(n) => ElementModel::Count(*n as nat),
            Element::List(v) => ElementModel::List(
                Seq::new(
                    v@.len(),
                    |i: int|
                        {
                            proof {
                                assert(decreases_to!(v => v@));
                            }
                            if 0 <= i < v@.len() {
                                v@[i].model()
                            } else {
                                ElementModel::Count(0)
                            }
                        },
                ),
            ),
            Element::Fields(v) => ElementModel::Fields(
                Seq::new(
                    v@.len(),
                    |i: int|
                        if 0 <= i < v@.len() {
                            ((v@[i].0.0@, v@[i].0.1), v@[i].1.model())
                        } else {
                            ((Seq::empty(), false), ElementModel::Count(0))
                        },
                ),
            ),
        }
    }
}


/// Where the scan of a string's inside, started at `i`, stops: just after
/// the closing quote; a backslash makes the scan skip the byte after it. At
/// the end of the input the position is returned as it stands, which may lie
/// one past the end.
pub open spec fn string_scan(b: Seq<u8>, i: int) -> int
    decreases b.len() + 2 - i,
{
    if i < 0 || i >= b.len() {
        i
    } else if b[i] == chars::QUOTE {
        i + 1
    } else if b[i] == chars::BACKSLASH {
        string_scan(b, i + 2)
    } else {
        string_scan(b, i + 1)
    }
}

/// Whether the scan of a string's inside, started at `i`, meets a backslash
/// before the closing quote.
pub open spec fn string_scan_escaped(b: Seq<u8>, i: int) -> bool
    decreases b.len() + 2 - i,
{
    if i < 0 || i >= b.len() {
        false
    } else if b[i] == chars::QUOTE {
        false
    } else if b[i] == chars::BACKSLASH {
        true
    } else {
        string_scan_escaped(b, i + 1)
    }
}

/// The end of the string whose opening quote stands at `i`, cut to the input.
pub open spec fn string_close(b: Seq<u8>, i: int) -> int {
    let e = string_scan(b, i + 1);
    if e > b.len() {
        b.len() as int
    } else {
        e
    }
}

pub proof fn lemma_string_scan_bounds(b: Seq<u8>, i: int)
    requires
        0 <= i,
    ensures
        string_scan(b, i) >= i,
        i <= b.len() ==> string_scan(b, i) <= b.len() + 1,
    decreases b.len() + 2 - i,
{
    if i < b.len() && b[i] != chars::QUOTE {
        if b[i] == chars::BACKSLASH {
            lemma_string_scan_bounds(b, i + 2);
        } else {
            lemma_string_scan_bounds(b, i + 1);
        }
    }
}

/// Where the scan of a compound value, at position `i` and nested `depth`
/// deep, stops: just after the bracket that closes the outermost level. A
/// string is skipped whole; any opening bracket goes one level deeper and
/// any closing bracket one level up, whatever their kind. At the end of the
/// input the scan stops there.
pub open spec fn compound_scan(b: Seq<u8>, i: int, depth: nat) -> int
    decreases b.len() - i,
{
    if i < 0 || i >= b.len() {
        b.len() as int
    } else {
        let c = b[i];
        if c == chars::QUOTE {
            proof {
                lemma_string_scan_bounds(b, i + 1);
            }
            compound_scan(b, string_close(b, i), depth)
        } else if c == chars::LBRACKET || c == chars::LBRACE {
            compound_scan(b, i + 1, depth + 1)
        } else if c == chars::RBRACKET || c == chars::RBRACE {
            if depth <= 1 {
                i + 1
            } else {
                compound_scan(b, i + 1, (depth - 1) as nat)
            }
        } else {
            compound_scan(b, i + 1, depth)
        }
    }
}

/// The length of the compound value that `b` starts with (its first byte is
/// taken as the opening bracket).
pub open spec fn compound_len(b: Seq<u8>) -> int {
    compound_scan(b, 1, 1)
}

/// A byte that can belong to a number: a digit, a minus sign or a dot.
pub open spec fn is_number_byte(c: u8) -> bool {
    chars::is_digit(c) || c == chars::MINUS || c == chars::DOT
}

/// The length of the run of number bytes that `b[i..]` starts with, counted
/// from `i`.
pub open spec fn number_scan(b: Seq<u8>, i: int) -> int
    decreases b.len() - i,
{
    if i < 0 || i >= b.len() {
        if i < 0 { 0 } else { b.len() as int }
    } else if is_number_byte(b[i]) {
        number_scan(b, i + 1)
    } else {
        i
    }
}

pub proof fn lemma_compound_scan_bounds(b: Seq<u8>, i: int, depth: nat)
    requires
        0 <= i,
    ensures
        i < b.len() ==> i < compound_scan(b, i, depth) <= b.len(),
        compound_scan(b, i, depth) <= b.len(),
    decreases b.len() - i,
{
    if i < b.len() {
        let c = b[i];
        if c == chars::QUOTE {
            lemma_string_scan_bounds(b, i + 1);
            lemma_compound_scan_bounds(b, string_close(b, i), depth);
        } else if c == chars::LBRACKET || c == chars::LBRACE {
            lemma_compound_scan_bounds(b, i + 1, depth + 1);
        } else if c == chars::RBRACKET || c == chars::RBRACE {
            if depth > 1 {
                lemma_compound_scan_bounds(b, i + 1, (depth - 1) as nat);
            }
        } else {
            lemma_compound_scan_bounds(b, i + 1, depth);
        }
    }
}

pub proof fn lemma_number_scan_bounds(b: Seq<u8>, i: int)
    requires
        0 <= i <= b.len(),
    ensures
        i <= number_scan(b, i) <= b.len(),
        forall|k: int| i <= k < number_scan(b, i) ==> is_number_byte(b[k]),
        number_scan(b, i) < b.len() ==> !is_number_byte(b[number_scan(b, i)]),
    decreases b.len() - i,
{
    if i < b.len() && is_number_byte(b[i]) {
        lemma_number_scan_bounds(b, i + 1);
    }
}

/// Splits `s` at `mid`.
pub fn split_at_u8(s: &[u8], mid: usize) -> (r: (&[u8], &[u8]))
    requires
        mid <= s@.len(),
    ensures
        r.0@ == s@.subrange(0, mid as int),
        r.1@ == s@.subrange(mid as int, s@.len() as int),
{
    s.split_at(mid)
}

/// Reads the string at the start of `bytes` (its first byte is taken as the
/// opening quote): returns the string with its quotes, the rest, and whether
/// the string holds a backslash escape. An unterminated string runs to the
/// end of the input.
pub fn string_u8(bytes: &[u8]) -> (r: Result<(&[u8], &[u8], bool)>)
    ensures
        r matches Ok((a, rest, esc)) && {
            let e = string_close(bytes@, 0);
            &&& a@ == bytes@.subrange(0, e)
            &&& rest@ == bytes@.subrange(e, bytes@.len() as int)
            &&& esc == string_scan_escaped(bytes@, 1)
        },
{
    let len = bytes.len();
    let mut i: usize = 1;
    let mut esc = false;
    let mut found = false;
    proof {
        lemma_string_scan_bounds(bytes@, 1);
    }
    while i < len && !found
        invariant
            len == bytes@.len(),
            1 <= i,
            found ==> i <= len && (string_scan(bytes@, 1) == i || (i == len && string_scan(
                bytes@,
                1,
            ) > len)),
            !found ==> string_scan(bytes@, i as int) == string_scan(bytes@, 1),
            !found ==> (esc || string_scan_escaped(bytes@, i as int) == string_scan_escaped(
                bytes@,
                1,
            )),
            !found ==> (esc ==> string_scan_escaped(bytes@, 1)),
            found ==> esc == string_scan_escaped(bytes@, 1),
        decreases len - i, if found { 0int } else { 1int },
    {
        let b = bytes[i];
        if b == chars::QUOTE {
            i += 1;
            found = true;
        } else if b == chars::BACKSLASH {
            esc = true;
            if len - i >= 2 {
                i += 2;
            } else {
                assert(string_scan(bytes@, i + 2) == i + 2);
                i = len;
                found = true;
            }
        } else {
            i += 1;
        }
    }
    let end = if i > len { len } else { i };
    let (a, rest) = split_at_u8(bytes, end);
    Ok((a, rest, esc))
}


pub proof fn lemma_string_scan_shift(b: Seq<u8>, i: int, j: int)
    requires
        0 <= i <= b.len(),
        0 <= j,
    ensures
        string_scan(b.subrange(i, b.len() as int), j) + i == string_scan(b, i + j),
        string_scan_escaped(b.subrange(i, b.len() as int), j) == string_scan_escaped(b, i + j),
    decreases b.len() + 2 - (i + j),
{
    let t = b.subrange(i, b.len() as int);
    if i + j < b.len() {
        assert(t[j] == b[i + j]);
        if b[i + j] != chars::QUOTE {
            if b[i + j] == chars::BACKSLASH {
                lemma_string_scan_shift(b, i, j + 2);
            } else {
                lemma_string_scan_shift(b, i, j + 1);
            }
        }
    }
}

/// Reads the array or object at the start of `bytes` (its first byte is
/// taken as the opening bracket) and returns it with the rest. Brackets are
/// counted whatever their kind and strings are skipped; an unclosed value
/// runs to the end of the input.
pub fn compound_u8(bytes: &[u8]) -> (r: Result<(&[u8], &[u8])>)
    ensures
        r matches Ok((a, rest)) && {
            let e = compound_len(bytes@);
            &&& a@ == bytes@.subrange(0, e)
            &&& rest@ == bytes@.subrange(e, bytes@.len() as int)
        },
{
    let len = bytes.len();
    let mut i: usize = 1;
    let mut depth: usize = 1;
    let mut done = false;
    let mut end: usize = len;
    if len == 0 {
        return Ok(split_at_u8(bytes, 0));
    }
    proof {
        lemma_compound_scan_bounds(bytes@, 1, 1);
    }
    while i < len && !done
        invariant
            len == bytes@.len(),
            1 <= i,
            1 <= depth <= i,
            done ==> end == compound_len(bytes@) && end <= len,
            !done ==> compound_scan(bytes@, i as int, depth as nat) == compound_len(bytes@),
            !done ==> i <= len,
        decreases len - i, if done { 0int } else { 1int },
    {
        let c = bytes[i];
        if c == chars::QUOTE {
            let (a, _rest, _esc) = string_u8(&bytes[i..len])?;
            proof {
                lemma_string_scan_shift(bytes@, i as int, 1);
                lemma_string_scan_bounds(bytes@, i + 1);
                assert(i + a@.len() == string_close(bytes@, i as int));
            }
            i = i + a.len();
        } else if c == chars::LBRACKET || c == chars::LBRACE {
            depth += 1;
            i += 1;
        } else if c == chars::RBRACKET || c == chars::RBRACE {
            if depth <= 1 {
                end = i + 1;
                done = true;
            } else {
                depth -= 1;
                i += 1;
            }
        } else {
            i += 1;
        }
    }
    if !done {
        end = len;
    }
    let (a, rest) = split_at_u8(bytes, end);
    Ok((a, rest))
}

/// Whether `c` is a digit, a minus sign or a dot.
pub fn number_byte(c: u8) -> (r: bool)
    ensures
        r == is_number_byte(c),
{
    (chars::DIGIT_0 <= c && c <= chars::DIGIT_9) || c == chars::MINUS || c == chars::DOT
}

/// Reads the run of digits, minus signs and dots at the start of `bytes`.
pub fn number_u8(bytes: &[u8]) -> (r: Result<(&[u8], &[u8])>)
    ensures
        r matches Ok((a, rest)) && {
            let e = number_scan(bytes@, 0);
            &&& a@ == bytes@.subrange(0, e)
            &&& rest@ == bytes@.subrange(e, bytes@.len() as int)
        },
{
    let len = bytes.len();
    let mut i: usize = 0;
    while i < len && number_byte(bytes[i])
        invariant
            len == bytes@.len(),
            i <= len,
            number_scan(bytes@, i as int) == number_scan(bytes@, 0),
        decreases len - i,
    {
        i += 1;
    }
    let (a, rest) = split_at_u8(bytes, i);
    Ok((a, rest))
}

/// Takes the four bytes of `true` off the front of `bytes` (the bytes are
/// not checked); fails when fewer than four remain.
pub fn true_u8(bytes: &[u8]) -> (r: Result<(&[u8], &[u8])>)
    ensures
        bytes@.len() < 4 ==> r == Err::<(&[u8], &[u8]), Error>(Error::Eof),
        bytes@.len() >= 4 ==> (r matches Ok((a, rest)) && a@ == bytes@.subrange(0, 4) && rest@
            == bytes@.subrange(4, bytes@.len() as int)),
{
    if bytes.len() < 4 {
        return Err(Error::Eof);
    }
    Ok(split_at_u8(bytes, 4))
}

/// Takes the five bytes of `false` off the front of `bytes` (the bytes are
/// not checked); fails when fewer than five remain.
pub fn false_u8(bytes: &[u8]) -> (r: Result<(&[u8], &[u8])>)
    ensures
        bytes@.len() < 5 ==> r == Err::<(&[u8], &[u8]), Error>(Error::Eof),
        bytes@.len() >= 5 ==> (r matches Ok((a, rest)) && a@ == bytes@.subrange(0, 5) && rest@
            == bytes@.subrange(5, bytes@.len() as int)),
{
    if bytes.len() < 5 {
        return Err(Error::Eof);
    }
    Ok(split_at_u8(bytes, 5))
}

/// Takes the four bytes of `null` off the front of `bytes` (the bytes are
/// not checked); fails when fewer than four remain.
pub fn null_u8(bytes: &[u8]) -> (r: Result<(&[u8], &[u8])>)
    ensures
        bytes@.len() < 4 ==> r == Err::<(&[u8], &[u8]), Error>(Error::Eof),
        bytes@.len() >= 4 ==> (r matches Ok((a, rest)) && a@ == bytes@.subrange(0, 4) && rest@
            == bytes@.subrange(4, bytes@.len() as int)),
{
    if bytes.len() < 4 {
        return Err(Error::Eof);
    }
    Ok(split_at_u8(bytes, 4))
}


/// What `read_one` and its helpers give back: an optional element and the
/// rest of the input, or an error.
pub type ReadModel = core::result::Result<(Option<ElementModel>, Seq<u8>), Error>;

/// A byte at which `read_one` starts reading a value (or finds the end of
/// the enclosing compound).
pub open spec fn is_value_start(c: u8) -> bool {
    ||| c == chars::QUOTE
    ||| c == chars::LOWER_T
    ||| c == chars::LOWER_F
    ||| c == chars::LOWER_N
    ||| c == chars::LBRACE
    ||| c == chars::RBRACE
    ||| c == chars::LBRACKET
    ||| c == chars::RBRACKET
    ||| is_number_byte(c)
}

/// The first position at or after `i` where a value starts, or the length.
pub open spec fn value_start(b: Seq<u8>, i: int) -> int
    decreases b.len() - i,
{
    if i < 0 || i >= b.len() {
        b.len() as int
    } else if is_value_start(b[i]) {
        i
    } else {
        value_start(b, i + 1)
    }
}

/// Splits a model off the front of `b`: the element built by `f` from the
/// first `n` bytes, and the rest.
pub open spec fn take_model(b: Seq<u8>, n: int, el: ElementModel) -> ReadModel {
    Ok((Some(el), b.subrange(n, b.len() as int)))
}

/// The value that `b` starts with, where `b[0]` is a value start.
pub open spec fn spec_read_value(b: Seq<u8>) -> ReadModel {
    let c = b[0];
    let len = b.len() as int;
    if c == chars::QUOTE {
        let e = string_close(b, 0);
        take_model(b, e, ElementModel::String(b.subrange(0, e), string_scan_escaped(b, 1)))
    } else if c == chars::LOWER_T {
        if len < 4 {
            Err(Error::Eof)
        } else {
            take_model(b, 4, ElementModel::Boolean(b.subrange(0, 4)))
        }
    } else if c == chars::LOWER_F {
        if len < 5 {
            Err(Error::Eof)
        } else {
            take_model(b, 5, ElementModel::Boolean(b.subrange(0, 5)))
        }
    } else if c == chars::LOWER_N {
        if len < 4 {
            Err(Error::Eof)
        } else {
            take_model(b, 4, ElementModel::Null(b.subrange(0, 4)))
        }
    } else if c == chars::LBRACE {
        let e = compound_len(b);
        take_model(b, e, ElementModel::Object(b.subrange(0, e)))
    } else if c == chars::LBRACKET {
        let e = compound_len(b);
        take_model(b, e, ElementModel::Array(b.subrange(0, e)))
    } else if c == chars::RBRACE || c == chars::RBRACKET {
        Ok((None, b))
    } else {
        let e = number_scan(b, 0);
        take_model(b, e, ElementModel::Number(b.subrange(0, e)))
    }
}

/// The first value in `b`: bytes that cannot start a value are skipped; a
/// closing bracket gives no value and is left in the rest; an input with no
/// value gives no value and an empty rest.
pub open spec fn spec_read_one(b: Seq<u8>) -> ReadModel {
    let i = value_start(b, 0);
    if i >= b.len() {
        Ok((None, Seq::empty()))
    } else {
        spec_read_value(b.subrange(i, b.len() as int))
    }
}

/// The model of what `read_one` and its helpers return.
pub open spec fn read_result_model<'a>(r: Result<(Option<Element<'a>>, &'a [u8])>) -> ReadModel {
    match r {
        Ok((Some(e), rest)) => Ok((Some(e.model()), rest@)),
        Ok((None, rest)) => Ok((None, rest@)),
        Err(e) => Err(e),
    }
}

pub proof fn lemma_value_start_bounds(b: Seq<u8>, i: int)
    requires
        0 <= i <= b.len(),
    ensures
        i <= value_start(b, i) <= b.len(),
        value_start(b, i) < b.len() ==> is_value_start(b[value_start(b, i)]),
    decreases b.len() - i,
{
    if i < b.len() && !is_value_start(b[i]) {
        lemma_value_start_bounds(b, i + 1);
    }
}

fn make_string(input: &[u8]) -> (r: Result<(Option<Element>, &[u8])>)
    requires
        input@.len() > 0,
        input@[0] == chars::QUOTE,
    ensures
        read_result_model(r) == spec_read_value(input@),
{
    let (a, b, esc) = string_u8(input)?;
    Ok((Some(Element::String(a, esc)), b))
}

fn make_true(input: &[u8]) -> (r: Result<(Option<Element>, &[u8])>)
    requires
        input@.len() > 0,
        input@[0] == chars::LOWER_T,
    ensures
        read_result_model(r) == spec_read_value(input@),
{
    let (a, b) = true_u8(input)?;
    Ok((Some(Element::Boolean(a)), b))
}

fn make_false(input: &[u8]) -> (r: Result<(Option<Element>, &[u8])>)
    requires
        input@.len() > 0,
        input@[0] == chars::LOWER_F,
    ensures
        read_result_model(r) == spec_read_value(input@),
{
    let (a, b) = false_u8(input)?;
    Ok((Some(Element::Boolean(a)), b))
}

fn make_null(input: &[u8]) -> (r: Result<(Option<Element>, &[u8])>)
    requires
        input@.len() > 0,
        input@[0] == chars::LOWER_N,
    ensures
        read_result_model(r) == spec_read_value(input@),
{
    let (a, b) = null_u8(input)?;
    Ok((Some(Element::Null(a)), b))
}

fn make_number(input: &[u8]) -> (r: Result<(Option<Element>, &[u8])>)
    requires
        input@.len() > 0,
        is_number_byte(input@[0]),
    ensures
        read_result_model(r) == spec_read_value(input@),
{
    let (a, b) = number_u8(input)?;
    Ok((Some(Element::Number(a)), b))
}

fn make_array(input: &[u8]) -> (r: Result<(Option<Element>, &[u8])>)
    requires
        input@.len() > 0,
        input@[0] == chars::LBRACKET,
    ensures
        read_result_model(r) == spec_read_value(input@),
{
    let (a, b) = compound_u8(input)?;
    Ok((Some(Element::Array(a)), b))
}

fn make_object(input: &[u8]) -> (r: Result<(Option<Element>, &[u8])>)
    requires
        input@.len() > 0,
        input@[0] == chars::LBRACE,
    ensures
        read_result_model(r) == spec_read_value(input@),
{
    let (a, b) = compound_u8(input)?;
    Ok((Some(Element::Object(a)), b))
}

/// Whether `c` can start a value (or close a compound).
fn value_start_byte(c: u8) -> (r: bool)
    ensures
        r == is_value_start(c),
{
    c == chars::QUOTE || c == chars::LOWER_T || c == chars::LOWER_F || c == chars::LOWER_N || c
        == chars::LBRACE || c == chars::RBRACE || c == chars::LBRACKET || c == chars::RBRACKET
        || number_byte(c)
}

/// What `read_one` hands back is shorter than its input, strictly so when
/// it found a value, and the value is well formed.
pub proof fn lemma_read_one(b: Seq<u8>)
    ensures
        spec_read_one(b) matches Ok((el, rest)) ==> {
            &&& rest.len() <= b.len()
            &&& (el matches Some(m) ==> rest.len() < b.len() && model_wf(m))
        },
{
    lemma_value_start_bounds(b, 0);
    let i = value_start(b, 0);
    if i < b.len() {
        let t = b.subrange(i, b.len() as int);
        let c = t[0];
        if c == chars::QUOTE {
            lemma_string_scan_bounds(t, 1);
        } else if c == chars::LBRACE || c == chars::LBRACKET {
            lemma_compound_scan_bounds(t, 1, 1);
        } else if c == chars::LOWER_T || c == chars::LOWER_F || c == chars::LOWER_N || c
            == chars::RBRACE || c == chars::RBRACKET {
        } else {
            lemma_number_scan_bounds(t, 0);
            let e = number_scan(t, 0);
            let n = t.subrange(0, e);
            assert forall|k: int| 0 <= k < n.len() implies is_number_byte(#[trigger] n[k]) by {
                assert(n[k] == t[k]);
            }
        }
    }
}

/// Reads the first JSON value in `input`; see `spec_read_one`.
pub fn read_one(input: &[u8]) -> (r: Result<(Option<Element>, &[u8])>)
    ensures
        read_result_model(r) == spec_read_one(input@),
{
    let len = input.len();
    let mut i: usize = 0;
    while i < len && !value_start_byte(input[i])
        invariant
            len == input@.len(),
            i <= len,
            value_start(input@, i as int) == value_start(input@, 0),
        decreases len - i,
    {
        i += 1;
    }
    if i >= len {
        let empty = &input[len..len];
        assert(empty@ =~= Seq::<u8>::empty());
        return Ok((None, empty));
    }
    let rest = &input[i..len];
    let c = input[i];
    if c == chars::QUOTE {
        make_string(rest)
    } else if c == chars::LOWER_T {
        make_true(rest)
    } else if c == chars::LOWER_F {
        make_false(rest)
    } else if c == chars::LOWER_N {
        make_null(rest)
    } else if c == chars::LBRACE {
        make_object(rest)
    } else if c == chars::LBRACKET {
        make_array(rest)
    } else if c == chars::RBRACE || c == chars::RBRACKET {
        Ok((None, rest))
    } else {
        make_number(rest)
    }
}


/// The element's slices are what its producers make: numbers are non-empty
/// runs of number bytes, booleans are non-empty; this holds throughout
/// lists and field lists.
pub open spec fn model_wf(m: ElementModel) -> bool
    decreases m,
{
    match m {
        ElementModel::Number(s) => s.len() > 0 && forall|k: int|
            0 <= k < s.len() ==> is_number_byte(#[trigger] s[k]),
        ElementModel::Boolean(s) => s.len() > 0,
        ElementModel::List(v) => forall|i: int| 0 <= i < v.len() ==> model_wf(#[trigger] v[i]),
        ElementModel::Fields(v) => forall|i: int| 0 <= i < v.len() ==> model_wf(#[trigger] v[i].1),
        _ => true,
    }
}

/// The inside of a string written with its quotes: the bytes between the
/// first and the last byte (nothing when there are fewer than two).
pub open spec fn string_inner(b: Seq<u8>) -> Seq<u8> {
    if b.len() >= 2 {
        b.subrange(1, b.len() - 1)
    } else {
        Seq::empty()
    }
}

/// The decoded text of a string element.
pub open spec fn string_text(b: Seq<u8>, esc: bool) -> Seq<char> {
    spec_utf8_lossy(string_bytes(b, esc))
}

/// The bytes a string written as `b` stands for: the bytes between its
/// quotes, with escapes resolved where it has any.
pub open spec fn string_bytes(b: Seq<u8>, esc: bool) -> Seq<u8> {
    if esc {
        spec_unescape(string_inner(b), 0)
    } else {
        string_inner(b)
    }
}

/// The text an element contributes when it is written inside a list:
/// strings (with their quotes and escapes) and plain values keep the text
/// they were written with, so the list stays JSON; a list is written as a
/// JSON array, and counts and field lists write nothing.
pub open spec fn written_text(m: ElementModel) -> Seq<char>
    decreases m, 1nat,
{
    match m {
        ElementModel::String(b, _) => spec_utf8_lossy(b),
        ElementModel::Object(b) => spec_utf8_lossy(b),
        ElementModel::Array(b) => spec_utf8_lossy(b),
        ElementModel::Boolean(b) => spec_utf8_lossy(b),
        ElementModel::Number(b) => spec_utf8_lossy(b),
        ElementModel::Null(b) => spec_utf8_lossy(b),
        ElementModel::List(v) => seq!['['] + written_list(v) + seq![']'],
        _ => Seq::empty(),
    }
}

/// The texts of the elements of a list joined by commas.
pub open spec fn written_list(v: Seq<ElementModel>) -> Seq<char>
    decreases v, 0nat,
{
    if v.len() == 0 {
        Seq::empty()
    } else if v.len() == 1 {
        written_text(v[0])
    } else {
        written_list(v.drop_last()) + seq![','] + written_text(v.last())
    }
}


/// Whether `b` is written between quotes.
pub open spec fn is_quoted(b: Seq<u8>) -> bool {
    b.len() >= 2 && b[0] == chars::QUOTE && b[b.len() - 1] == chars::QUOTE
}

/// The text of the key of a field, as a JSON string: a key written with
/// its quotes is kept as it stands, any other key is put between quotes.
pub open spec fn key_text(b: Seq<u8>, esc: bool) -> Seq<char> {
    if is_quoted(b) {
        spec_utf8_lossy(b)
    } else {
        seq!['"'] + spec_utf8_lossy(b) + seq!['"']
    }
}

/// The text of one field: its key, a colon and its value's text.
pub open spec fn field_text(f: ((Seq<u8>, bool), ElementModel)) -> Seq<char> {
    key_text(f.0.0, f.0.1) + seq![':'] + written_text(f.1)
}

/// The fields of a field list joined by commas.
pub open spec fn written_fields(v: Seq<((Seq<u8>, bool), ElementModel)>) -> Seq<char>
    decreases v.len(),
{
    if v.len() == 0 {
        Seq::empty()
    } else if v.len() == 1 {
        field_text(v[0])
    } else {
        written_fields(v.drop_last()) + seq![','] + field_text(v.last())
    }
}

/// `v` is the value that `to_value` makes of an element with model `m`.
pub open spec fn value_of(v: Value, m: ElementModel) -> bool {
    match m {
        ElementModel::String(b, esc) => v matches Value::String(s) && s@ == string_text(b, esc) && (
        valid_utf8(string_bytes(b, esc)) ==> s@ == decode_utf8(string_bytes(b, esc))),
        ElementModel::Object(b) => v matches Value::Object(s) && s@ == spec_utf8_lossy(b) && (
        valid_utf8(b) ==> s@ == decode_utf8(b)),
        ElementModel::Array(b) => v matches Value::Array(s) && s@ == spec_utf8_lossy(b) && (
        valid_utf8(b) ==> s@ == decode_utf8(b)),
        ElementModel::Boolean(b) => v == Value::Boolean(b[0] == chars::LOWER_T),
        ElementModel::Number(b) => v matches Value::Number(n) && n.text() == b.subrange(
            0,
            number_text_end(b, 1),
        ) && n.kind() == number_kind(b),
        ElementModel::Count(n) => v == Value::Usize(n as usize),
        ElementModel::List(l) => v matches Value::Array(s) && s@ == seq!['['] + written_list(l)
            + seq![']'],
        ElementModel::Fields(f) => v matches Value::Object(s) && s@ == seq!['{']
            + written_fields(f) + seq!['}'],
        ElementModel::Null(_) => v == Value::Null,
    }
}

/// The bytes between the quotes of a string written with them.
fn inner_of(b: &[u8]) -> (r: &[u8])
    ensures
        r@ == string_inner(b@),
{
    if b.len() >= 2 {
        &b[1..b.len() - 1]
    } else {
        let e = &b[0..0];
        assert(e@ =~= Seq::<u8>::empty());
        e
    }
}

/// Appends the text of `b` to `buffer`.
fn append_bytes(buffer: &mut String, b: &[u8])
    ensures
        final(buffer)@ == old(buffer)@ + spec_utf8_lossy(b@),
{
    let s = utf8_lossy(b);
    buffer.append(s.as_str());
}

/// Appends one ASCII character, given as a one-character literal.
fn append_literal(buffer: &mut String, lit: &str, c: char)
    requires
        lit@ == seq![c],
    ensures
        final(buffer)@ == old(buffer)@ + seq![c],
{
    buffer.append(lit);
}

impl<'a> Element<'a> {
    /// The element's model is well formed; see `model_wf`.
    pub open spec fn wf(&self) -> bool {
        model_wf(self.model())
    }

    /// Appends the text of the element as it is written inside a list; see
    /// `written_text`.
    pub fn write_to_string_buffer(&self, buffer: &mut String)
        ensures
            final(buffer)@ == old(buffer)@ + written_text(self.model()),
        decreases self,
    {
        match self {
            Element::String(buf, _) => append_bytes(buffer, buf),
            Element::Object(s) => append_bytes(buffer, s),
            Element::Array(s) => append_bytes(buffer, s),
            Element::Boolean(s) => append_bytes(buffer, s),
            Element::Number(s) => append_bytes(buffer, s),
            Element::Null(s) => append_bytes(buffer, s),
            Element::List(elements) => {
                let ghost ms = Seq::new(elements@.len(), |i: int| elements@[i].model());
                proof {
                    let m = self.model();
                    assert(m is List);
                    assert(ms =~= m->List_0);
                    assert(m == ElementModel::List(ms));
                }
                let ghost base = buffer@;
                proof {
                    reveal_strlit("[");
                    reveal_strlit("]");
                    reveal_strlit(",");
                    assert("["@ =~= seq!['[']);
                    assert(","@ =~= seq![',']);
                    assert("]"@ =~= seq![']']);
                }
                append_literal(buffer, "[", '[');
                let size = elements.len();
                let mut i: usize = 0;
                proof {
                    assert(decreases_to!(*self => *elements));
                }
                while i < size
                    invariant
                        size == elements@.len(),
                        ms == Seq::new(elements@.len(), |i: int| elements@[i].model()),
                        i <= size,
                        i == 0 ==> buffer@ == base + seq!['['],
                        0 < i < size ==> buffer@ == base + seq!['['] + written_list(
                            ms.take(i as int),
                        ) + seq![','],
                        0 < i == size ==> buffer@ == base + seq!['['] + written_list(
                            ms.take(i as int),
                        ),
                        ","@ == seq![','],
                        decreases_to!(*self => *elements),
                    decreases size - i,
                {
                    let ghost before = buffer@;
                    proof {
                        vstd::std_specs::vec::axiom_vec_index_decreases(*elements, i as int);
                        assert(decreases_to!(*self => elements@[i as int]));
                    }
                    elements[i].write_to_string_buffer(buffer);
                    proof {
                        assert(ms.take(i + 1).drop_last() =~= ms.take(i as int));
                        assert(ms.take(i + 1).last() == ms[i as int]);
                        if i == 0 {
                            assert(ms.take(1) =~= seq![ms[0]]);
                            assert(buffer@ =~= base + seq!['['] + written_list(ms.take(1)));
                        } else {
                            assert(buffer@ =~= base + seq!['['] + written_list(ms.take(i + 1)));
                        }
                    }
                    if i < size - 1 {
                        append_literal(buffer, ",", ',');
                    }
                    i += 1;
                }
                proof {
                    reveal_strlit("]");
                    assert("]"@ =~= seq![']']);
                    assert(ms.take(size as int) =~= ms);
                    if size == 0 {
                        assert(written_list(ms) =~= Seq::<char>::empty());
                        assert(buffer@ =~= base + seq!['['] + written_list(ms));
                    } else {
                        assert(buffer@ =~= base + seq!['['] + written_list(ms));
                    }
                }
                append_literal(buffer, "]", ']');
                proof {
                    assert(buffer@ =~= base + written_text(self.model()));
                }
            },
            _ => {},
        }
    }
}


impl<'a> Element<'a> {
    /// Appends the fields of a field list, joined by commas; see
    /// `written_fields`.
    fn write_fields(elements: &Vec<((&'a [u8], bool), Element<'a>)>, buffer: &mut String)
        ensures
            final(buffer)@ == old(buffer)@ + written_fields(
                Seq::new(
                    elements@.len(),
                    |i: int| ((elements@[i].0.0@, elements@[i].0.1), elements@[i].1.model()),
                ),
            ),
    {
        let ghost fs = Seq::new(
            elements@.len(),
            |i: int| ((elements@[i].0.0@, elements@[i].0.1), elements@[i].1.model()),
        );
        let ghost base = buffer@;
        proof {
            reveal_strlit(",");
            reveal_strlit(":");
            reveal_strlit("\"");
            assert(","@ =~= seq![',']);
            assert(":"@ =~= seq![':']);
            assert("\""@ =~= seq!['"']);
        }
        let size = elements.len();
        let mut count: usize = 0;
        while count < size
            invariant
                size == elements@.len(),
                fs == Seq::new(
                    elements@.len(),
                    |i: int| ((elements@[i].0.0@, elements@[i].0.1), elements@[i].1.model()),
                ),
                count <= size,
                count == 0 ==> buffer@ == base,
                0 < count ==> buffer@ == base + written_fields(fs.take(count as int)),
                ","@ == seq![','],
                ":"@ == seq![':'],
                "\""@ == seq!['"'],
            decreases size - count,
        {
            let ghost before = buffer@;
            if count > 0 {
                append_literal(buffer, ",", ',');
            }
            let ((buf, _esc), element) = &elements[count];
            if buf.len() >= 2 && buf[0] == chars::QUOTE && buf[buf.len() - 1] == chars::QUOTE {
                append_bytes(buffer, buf);
            } else {
                append_literal(buffer, "\"", '"');
                append_bytes(buffer, buf);
                append_literal(buffer, "\"", '"');
            }
            append_literal(buffer, ":", ':');
            element.write_to_string_buffer(buffer);
            proof {
                let f = fs[count as int];
                assert(fs.take(count + 1).drop_last() =~= fs.take(count as int));
                assert(fs.take(count + 1).last() == f);
                if count == 0 {
                    assert(fs.take(1) =~= seq![f]);
                    assert(buffer@ =~= base + written_fields(fs.take(1)));
                } else {
                    assert(buffer@ =~= base + written_fields(fs.take(count + 1)));
                }
            }
            count += 1;
        }
        proof {
            assert(fs.take(size as int) =~= fs);
            if size == 0 {
                assert(buffer@ =~= base + written_fields(fs));
            }
        }
    }

    /// The value the element stands for: a string is decoded, a number
    /// keeps its text, a count becomes `Usize`, a list becomes the text of a
    /// JSON array of its elements' texts and a field list the text of an
    /// object; see `value_of`.
    pub fn to_value(&self) -> (v: Value)
        requires
            self.wf(),
        ensures
            value_of(v, self.model()),
    {
        match self {
            Element::String(buf, esc) => {
                if *esc {
                    let u = unescape_bytes(inner_of(buf));
                    Value::String(utf8_lossy(u.as_slice()))
                } else {
                    Value::String(utf8_lossy(inner_of(buf)))
                }
            },
            Element::Object(s) => Value::Object(utf8_lossy(s)),
            Element::Array(s) => Value::Array(utf8_lossy(s)),
            Element::Boolean(buf) => {
                if buf[0] == chars::LOWER_T {
                    Value::Boolean(true)
                } else {
                    Value::Boolean(false)
                }
            },
            Element::Number(buf) => Value::Number(Number::from_bytes(buf)),
            Element::Count(num) => Value::Usize(*num),
            Element::List(_) => {
                let mut array_string = String::new();
                self.write_to_string_buffer(&mut array_string);
                proof {
                    assert(array_string@ =~= written_text(self.model()));
                }
                Value::Array(array_string)
            },
            Element::Fields(elements) => {
                let mut object_string = String::new();
                proof {
                    reveal_strlit("{");
                    reveal_strlit("}");
                    assert("{"@ =~= seq!['{']);
                    assert("}"@ =~= seq!['}']);
                }
                append_literal(&mut object_string, "{", '{');
                Self::write_fields(elements, &mut object_string);
                append_literal(&mut object_string, "}", '}');
                proof {
                    let m = self.model();
                    let fs = Seq::new(
                        elements@.len(),
                        |i: int| ((elements@[i].0.0@, elements@[i].0.1), elements@[i].1.model()),
                    );
                    assert(fs =~= m->Fields_0);
                    assert(object_string@ =~= seq!['{'] + written_fields(fs) + seq!['}']);
                }
                Value::Object(object_string)
            },
            Element::Null(_) => Value::Null,
        }
    }
}

} // verus!
