//! The stream getter: it walks JSON text byte by byte with a reader, as
//! far as a path asks, and hands back what it finds there. Array steps
//! take an index, `#` for the count, or a query (`#(...)` for the first
//! match, `#(...)#` for all matches); a step after an array step is looked
//! up in each element.

use crate::chars;
use crate::element::is_number_byte;
use crate::gjson::{order_holds, gjson_query_matches, query_matches_model, GjsonQuery, GjsonQueryModel, GjsonValue, GjsonValueModel};
use crate::gjson_path::{step_scan, StepScan, gjson_path, gpath_ok, lemma_path_parts_short, path_key_matches, spec_gjson_path, GjsonPath, GjsonPathModel};
use crate::number::{all_digits, ascii_string, digits_value};
use crate::parser::{first_compound, part_index, spec_parse_usize};
use crate::path::query::{op_kind, order_satisfies, spec_op_kind};
use crate::decimal::{decimal_order, decimal_order_spec};
use crate::ref_reader::{
    json_value_scan, literal_len, number_value_scan, str_value_scan, stream_advance,
    stream_left, stream_next, stream_peek, stream_wf, ByteReader, RefReader, StreamModel,
};
use crate::text::{spec_utf8_lossy, utf8_lossy};
use crate::value::{decimal_bytes, decimal_text, lemma_decimal_text_ascii};
use vstd::prelude::*;
use vstd::string::StringSliceAdditionalSpecFns;
use vstd::utf8::valid_utf8;

verus! {

/// What the getter reads: a string, object, array or number by where it
/// starts and ends in the input, the text built for a list of matches, a
/// literal, a count, or nothing.
pub enum ParserValue {
    String(usize, usize),
    Object(usize, usize),
    Array(usize, usize),
    Vector(Vec<u8>),
    Null,
    Boolean(bool),
    Number(usize, usize),
    NumberUsize(usize),
    NotExist,
}

/// The model of a `ParserValue`.
pub enum ParserValueModel {
    String(int, int),
    Object(int, int),
    Array(int, int),
    Vector(Seq<u8>),
    Null,
    Boolean(bool),
    Number(int, int),
    NumberUsize(nat),
    NotExist,
}

impl ParserValue {
    pub open spec fn model(&self) -> ParserValueModel {
        match self {
            ParserValue::String(a, e) => ParserValueModel::String(*a as int, *e as int),
            ParserValue::Object(a, e) => ParserValueModel::Object(*a as int, *e as int),
            ParserValue::Array(a, e) => ParserValueModel::Array(*a as int, *e as int),
            ParserValue::Vector(v) => ParserValueModel::Vector(v@),
            ParserValue::Null => ParserValueModel::Null,
            ParserValue::Boolean(b) => ParserValueModel::Boolean(*b),
            ParserValue::Number(a, e) => ParserValueModel::Number(*a as int, *e as int),
            ParserValue::NumberUsize(n) => ParserValueModel::NumberUsize(*n as nat),
            ParserValue::NotExist => ParserValueModel::NotExist,
        }
    }

    /// Whether something was found.
    pub fn value_exists(&self) -> (r: bool)
        ensures
            r == !(self.model() is NotExist),
    {
        match self {
            ParserValue::NotExist => false,
            _ => true,
        }
    }

    /// Whether this is the text built for a list of matches.
    pub fn is_vector(&self) -> (r: bool)
        ensures
            r == (self.model() is Vector),
    {
        match self {
            ParserValue::Vector(_) => true,
            _ => false,
        }
    }

    /// The text built for a list of matches as an array value; anything
    /// else is nothing.
    pub fn vector_to_value(self) -> (r: GjsonValue)
        ensures
            r.model() == vector_value(self.model()),
    {
        match self {
            ParserValue::Vector(s) => GjsonValue::Array(utf8_lossy(s.as_slice())),
            _ => GjsonValue::NotExist,
        }
    }
}

/// See `ParserValue::vector_to_value`.
pub open spec fn vector_value(v: ParserValueModel) -> GjsonValueModel {
    match v {
        ParserValueModel::Vector(s) => GjsonValueModel::Array(spec_utf8_lossy(s)),
        _ => GjsonValueModel::NotExist,
    }
}

/// The bytes a number starts with.
pub open spec fn is_number_start(c: u8) -> bool {
    chars::is_digit(c) || c == chars::MINUS || c == chars::DOT
}

/// Input the getter can read: it fits the machine with room to spare, and
/// it is not a lone number byte (whose reading would step back before the
/// start).
pub open spec fn getter_bytes_ok(b: Seq<u8>) -> bool {
    &&& b.len() + 5 <= usize::MAX
    &&& (b.len() == 1 ==> !is_number_start(b[0]))
}

/// The stream moved to position `a`.
pub open spec fn stream_seek(s: StreamModel, a: int) -> StreamModel {
    StreamModel { pos: a as nat, started: true, over: false, ..s }
}

/// What `read_next_value` reads from the stream `s`, and the stream after
/// it: bytes are passed over up to the first that starts a value (a quote,
/// `t`, `f`, `n`, a bracket, or a number byte) or that closes an array or
/// object, which gives nothing.
pub open spec fn spec_read_next(s: StreamModel) -> (ParserValueModel, StreamModel)
    decreases stream_left(s),
    when stream_wf(s)
{
    proof {
        lemma_peek_next(s);
    }
    let (c, s1) = stream_peek(s);
    match c {
        None => (ParserValueModel::NotExist, s1),
        Some(b) => if b == chars::QUOTE {
            let e = str_value_scan(s1);
            (
                ParserValueModel::String(
                    s1.pos as int,
                    if e.1 {
                        e.0.pos as int
                    } else {
                        e.0.pos + 1int
                    },
                ),
                stream_next(e.0).1,
            )
        } else if b == chars::LOWER_T || b == chars::LOWER_F {
            (ParserValueModel::Boolean(b == chars::LOWER_T), stream_advance(s1, literal_len(b)))
        } else if b == chars::LOWER_N {
            (ParserValueModel::Null, stream_advance(s1, 4))
        } else if b == chars::LBRACE || b == chars::LBRACKET {
            let e = json_value_scan(s1, 1);
            (
                if b == chars::LBRACE {
                    ParserValueModel::Object(s1.pos as int, e.pos as int)
                } else {
                    ParserValueModel::Array(s1.pos as int, e.pos as int)
                },
                stream_next(e).1,
            )
        } else if is_number_start(b) {
            let e = number_value_scan(s1);
            (ParserValueModel::Number(s1.pos as int, e.pos - 1), e)
        } else if b == chars::RBRACE || b == chars::RBRACKET {
            (ParserValueModel::NotExist, s1)
        } else {
            spec_read_next(stream_next(s1).1)
        }
    }
}

/// A byte that `peek` finds is handed on by `next`: the stream is then
/// shorter than before the `peek`.
pub proof fn lemma_peek_next(s: StreamModel)
    requires
        stream_wf(s),
    ensures
        stream_wf(stream_peek(s).1),
        stream_peek(s).1.bytes == s.bytes,
        stream_left(stream_peek(s).1) <= stream_left(s),
        stream_peek(s).0 is Some ==> {
            let s1 = stream_peek(s).1;
            &&& s1.started
            &&& !s1.over
            &&& s1.pos < s.bytes.len()
            &&& stream_peek(s).0 == Some(s.bytes[s1.pos as int])
            &&& stream_wf(stream_next(s1).1)
            &&& stream_next(s1).1.bytes == s.bytes
            &&& stream_left(stream_next(s1).1) < stream_left(s)
        },
{
}

/// A `next` keeps the stream consistent, moves the position on by at most
/// one, and shortens a stream that is not over.
pub proof fn lemma_next(s: StreamModel)
    requires
        stream_wf(s),
    ensures
        stream_wf(stream_next(s).1),
        stream_next(s).1.bytes == s.bytes,
        stream_left(stream_next(s).1) <= stream_left(s),
        !s.over ==> stream_left(stream_next(s).1) < stream_left(s),
        s.pos <= stream_next(s).1.pos,
        stream_next(s).1.started || !s.started,
        s.started && stream_next(s).0 is Some ==> stream_next(s).1.pos == s.pos + 1 && stream_next(s).0
            == Some(s.bytes[s.pos + 1int]),
        s.started && stream_next(s).0 is None ==> stream_next(s).1.pos == s.pos && stream_next(s).1.over,
{
}

/// The scan of a string keeps the stream consistent, does not move back,
/// shortens a stream that is not over, and finds its quote past the start.
pub proof fn lemma_str_scan(s: StreamModel)
    requires
        stream_wf(s),
        s.started,
    ensures
        stream_wf(str_value_scan(s).0),
        str_value_scan(s).0.bytes == s.bytes,
        stream_left(str_value_scan(s).0) <= stream_left(s),
        !s.over ==> stream_left(str_value_scan(s).0) < stream_left(s),
        s.pos <= str_value_scan(s).0.pos,
        str_value_scan(s).0.started,
        str_value_scan(s).1 ==> s.pos < str_value_scan(s).0.pos,
    decreases stream_left(s),
{
    lemma_next(s);
    let (b, s2) = stream_next(s);
    match b {
        None => {},
        Some(c) => if c == chars::QUOTE {
        } else if c == chars::BACKSLASH {
            lemma_next(s2);
            lemma_str_scan(stream_next(s2).1);
        } else {
            lemma_str_scan(s2);
        },
    }
}

/// The scan of an array or object keeps the stream consistent, does not
/// move back, and shortens a stream that is not over.
pub proof fn lemma_json_scan(s: StreamModel, depth: nat)
    requires
        stream_wf(s),
        s.started,
    ensures
        stream_wf(json_value_scan(s, depth)),
        json_value_scan(s, depth).bytes == s.bytes,
        stream_left(json_value_scan(s, depth)) <= stream_left(s),
        !s.over ==> stream_left(json_value_scan(s, depth)) < stream_left(s),
        s.pos <= json_value_scan(s, depth).pos,
        json_value_scan(s, depth).started,
    decreases stream_left(s),
{
    lemma_next(s);
    let (b, s2) = stream_next(s);
    match b {
        None => {},
        Some(c) => if c == chars::BACKSLASH {
            lemma_next(s2);
            lemma_json_scan(stream_next(s2).1, depth);
        } else if c == chars::LBRACKET || c == chars::LBRACE {
            lemma_json_scan(s2, depth + 1);
        } else if c == chars::RBRACKET || c == chars::RBRACE {
            if depth > 1 {
                lemma_json_scan(s2, (depth - 1) as nat);
            }
        } else {
            lemma_json_scan(s2, depth);
        },
    }
}

/// The scan of a number keeps the stream consistent, shortens a stream
/// that is not over, and passes only number bytes between where it starts
/// and where it stops; from a stream of two bytes or more it stops past
/// position 0.
pub proof fn lemma_num_scan(s: StreamModel)
    requires
        stream_wf(s),
        s.started,
    ensures
        stream_wf(number_value_scan(s)),
        number_value_scan(s).bytes == s.bytes,
        stream_left(number_value_scan(s)) <= stream_left(s),
        !s.over ==> stream_left(number_value_scan(s)) < stream_left(s),
        s.pos <= number_value_scan(s).pos,
        forall|x: int| s.pos < x < number_value_scan(s).pos ==> is_number_byte(#[trigger] s.bytes[x]),
        !s.over && s.bytes.len() >= 2 ==> number_value_scan(s).pos >= 1,
        number_value_scan(s).started,
    decreases stream_left(s),
{
    lemma_next(s);
    let (b, s2) = stream_next(s);
    match b {
        None => {},
        Some(c) => if is_number_byte(c) {
            lemma_num_scan(s2);
        } else {
        },
    }
}

/// Stepping `n` times keeps the stream consistent and shortens a stream
/// that is not over when `n` is not 0.
pub proof fn lemma_advance(s: StreamModel, n: nat)
    requires
        stream_wf(s),
    ensures
        stream_wf(stream_advance(s, n)),
        stream_advance(s, n).bytes == s.bytes,
        stream_left(stream_advance(s, n)) <= stream_left(s),
        n > 0 && !s.over ==> stream_left(stream_advance(s, n)) < stream_left(s),
        s.started ==> stream_advance(s, n).started,
    decreases n,
{
    if n > 0 {
        lemma_advance(s, (n - 1) as nat);
        lemma_next(stream_advance(s, (n - 1) as nat));
    }
}

/// Where a value read by `read_next_value` lies: strings between their
/// quotes, arrays and objects through their closing bracket, numbers over
/// number bytes; the stream after it is consistent, and shorter when
/// something was read.
pub open spec fn read_value_fits(b: Seq<u8>, v: ParserValueModel) -> bool {
    match v {
        ParserValueModel::String(a, e) => 0 <= a < b.len() && a + 1 <= e <= b.len(),
        ParserValueModel::Object(a, e) => 0 <= a <= e < b.len(),
        ParserValueModel::Array(a, e) => 0 <= a <= e < b.len(),
        ParserValueModel::Number(a, e) => 0 <= a < b.len() && 0 <= e < b.len() && a <= e + 1 && (forall|
            x: int,
        | a <= x <= e ==> is_number_byte(#[trigger] b[x])),
        ParserValueModel::Vector(_) => false,
        ParserValueModel::NumberUsize(_) => false,
        _ => true,
    }
}

/// What `read_next_value` reads fits the input, and the stream after it is
/// consistent and no longer; shorter when something was read.
pub proof fn lemma_read_next(s: StreamModel)
    requires
        stream_wf(s),
        getter_bytes_ok(s.bytes),
    ensures
        stream_wf(spec_read_next(s).1),
        spec_read_next(s).1.bytes == s.bytes,
        stream_left(spec_read_next(s).1) <= stream_left(s),
        !(spec_read_next(s).0 is NotExist) ==> stream_left(spec_read_next(s).1) < stream_left(s),
        !(spec_read_next(s).0 is NotExist) ==> spec_read_next(s).1.started,
        read_value_fits(s.bytes, spec_read_next(s).0),
    decreases stream_left(s),
{
    lemma_peek_next(s);
    let (c, s1) = stream_peek(s);
    match c {
        None => {},
        Some(b) => {
            if b == chars::QUOTE {
                lemma_str_scan(s1);
                lemma_next(str_value_scan(s1).0);
            } else if b == chars::LOWER_T || b == chars::LOWER_F {
                lemma_advance(s1, literal_len(b));
            } else if b == chars::LOWER_N {
                lemma_advance(s1, 4);
            } else if b == chars::LBRACE || b == chars::LBRACKET {
                lemma_json_scan(s1, 1);
                lemma_next(json_value_scan(s1, 1));
            } else if is_number_start(b) {
                lemma_num_scan(s1);
                let e = number_value_scan(s1);
                assert(is_number_byte(s.bytes[s1.pos as int]));
            } else if b == chars::RBRACE || b == chars::RBRACKET {
            } else {
                lemma_read_next(stream_next(s1).1);
            }
        },
    }
}


/// What `parse_value` makes of a value read from the input `b`: a string
/// is decoded from between its quotes, an object or array is its text, a
/// number its bytes, a count its decimal digits; the text built for a list
/// of matches gives nothing.
pub open spec fn spec_parse_value(b: Seq<u8>, v: ParserValueModel) -> GjsonValueModel {
    match v {
        ParserValueModel::String(a, e) => GjsonValueModel::String(spec_utf8_lossy(b.subrange(a + 1, e))),
        ParserValueModel::Object(a, e) => GjsonValueModel::Object(spec_utf8_lossy(b.subrange(a, e + 1))),
        ParserValueModel::Array(a, e) => GjsonValueModel::Array(spec_utf8_lossy(b.subrange(a, e + 1))),
        ParserValueModel::Number(a, e) => GjsonValueModel::Number(b.subrange(a, e + 1)),
        ParserValueModel::NumberUsize(n) => GjsonValueModel::Number(decimal_text(n)),
        ParserValueModel::Boolean(x) => GjsonValueModel::Boolean(x),
        ParserValueModel::Null => GjsonValueModel::Null,
        _ => GjsonValueModel::NotExist,
    }
}

/// The bytes of `true`.
pub open spec fn true_text() -> Seq<u8> {
    seq![chars::LOWER_T, chars::LOWER_R, chars::LOWER_U, chars::LOWER_E]
}

/// The bytes of `false`.
pub open spec fn false_text() -> Seq<u8> {
    seq![chars::LOWER_F, chars::LOWER_A, chars::LOWER_L, chars::LOWER_S, chars::LOWER_E]
}

/// The bytes of `null`.
pub open spec fn null_text() -> Seq<u8> {
    seq![chars::LOWER_N, chars::LOWER_U, chars::LOWER_L, chars::LOWER_L]
}

/// What a value adds to the text of a list of matches: a string, object,
/// array or number as written in the input (a string with its quotes, as
/// far as the input goes), the text of a list, a literal, or a count.
pub open spec fn spec_write_value(b: Seq<u8>, v: ParserValueModel) -> Seq<u8> {
    match v {
        ParserValueModel::String(a, e) => b.subrange(
            a,
            if e < b.len() {
                e + 1
            } else {
                b.len() as int
            },
        ),
        ParserValueModel::Object(a, e) => b.subrange(a, e + 1),
        ParserValueModel::Array(a, e) => b.subrange(a, e + 1),
        ParserValueModel::Number(a, e) => b.subrange(a, e + 1),
        ParserValueModel::Vector(t) => t,
        ParserValueModel::Boolean(x) => if x {
            true_text()
        } else {
            false_text()
        },
        ParserValueModel::NumberUsize(n) => decimal_text(n),
        ParserValueModel::Null => null_text(),
        ParserValueModel::NotExist => Seq::empty(),
    }
}

/// A value the getter hands around fits the input `b`.
pub open spec fn pv_fits(b: Seq<u8>, v: ParserValueModel) -> bool {
    match v {
        ParserValueModel::Vector(_) => true,
        ParserValueModel::NumberUsize(_) => true,
        _ => read_value_fits(b, v),
    }
}

/// The query of an array step: its own, or one that is off.
pub open spec fn arr_query(p: GjsonPathModel) -> GjsonQueryModel {
    match p.query {
        Some(q) => q,
        None => GjsonQueryModel { on: false, path: Seq::empty(), op: None, value: None, all: false },
    }
}

/// The index an array step names: its key read as a `usize`, where the key
/// is UTF-8 text.
pub open spec fn part_idx(part: Seq<u8>) -> Option<nat> {
    if valid_utf8(part) {
        spec_parse_usize(part)
    } else {
        None
    }
}

/// An array step gives the list of what it finds: a query for all matches,
/// or no query and more steps after it.
pub open spec fn returns_vector(p: GjsonPathModel) -> bool {
    let q = arr_query(p);
    (q.on && q.all) || (!q.on && p.more)
}

/// An array step gives its first find: a query for the first match.
pub open spec fn returns_first(p: GjsonPathModel) -> bool {
    let q = arr_query(p);
    q.on && !q.all
}

/// The text a list of matches starts with.
pub open spec fn array_start(p: GjsonPathModel) -> Seq<u8> {
    if returns_vector(p) {
        seq![chars::LBRACKET]
    } else {
        Seq::empty()
    }
}

/// What an array step gives when the array ends after `count` elements
/// that passed, with `acc` the text of the list so far: the list closed
/// (without its last comma), nothing for a query for the first match or
/// for an index, else the count.
pub open spec fn array_end(p: GjsonPathModel, count: nat, acc: Seq<u8>) -> ParserValueModel {
    if returns_vector(p) {
        ParserValueModel::Vector(
            (if acc.len() > 1 {
                acc.drop_last()
            } else {
                acc
            }).push(chars::RBRACKET),
        )
    } else if returns_first(p) {
        ParserValueModel::NotExist
    } else if part_idx(p.part) is Some {
        ParserValueModel::NotExist
    } else {
        ParserValueModel::NumberUsize(count)
    }
}

/// Whether the value `v` passes the query `q`: as `query_matches_model`
/// decides; two numbers compared by an order or equality operator by their
/// exact decimal values; a wildcard whose expression does not compile
/// passes nothing.
pub open spec fn query_passes(q: GjsonQueryModel, v: GjsonValueModel) -> bool {
    match query_matches_model(q, v) {
        Some(b) => b,
        None => match v {
            GjsonValueModel::Number(a) => match q.value {
                Some(GjsonValueModel::Number(t)) => match q.op {
                    Some(op) => order_satisfies(spec_op_kind(op), decimal_order_spec(a, t)),
                    None => false,
                },
                _ => false,
            },
            _ => false,
        },
    }
}

/// What `get_by_path` finds for the path `p` from the stream `s`, and the
/// stream after it: with no step, the next value; else the first array or
/// object from the position on is looked into.
pub open spec fn spec_get_by_path(s: StreamModel, p: Seq<u8>) -> (ParserValueModel, StreamModel)
    decreases p.len(), stream_left(s), 3nat,
    when stream_wf(s) && getter_bytes_ok(s.bytes)
{
    if !spec_gjson_path(p).ok {
        spec_read_next(s)
    } else {
        spec_by_path_scan(s, p)
    }
}

/// The search for the first `{` or `[` from the stream `s`, which then
/// looks the step up in the object or array.
pub open spec fn spec_by_path_scan(s: StreamModel, p: Seq<u8>) -> (ParserValueModel, StreamModel)
    decreases p.len(), stream_left(s), 2nat,
    when stream_wf(s) && getter_bytes_ok(s.bytes)
{
    proof {
        lemma_peek_next(s);
    }
    let (c, s1) = stream_peek(s);
    match c {
        None => (ParserValueModel::NotExist, s1),
        Some(b) => {
            let s2 = stream_next(s1).1;
            if b == chars::LBRACE {
                spec_get_from_object(s2, p, true)
            } else if b == chars::LBRACKET {
                spec_get_from_array(s2, p, 0, array_start(spec_gjson_path(p)))
            } else {
                spec_by_path_scan(s2, p)
            }
        },
    }
}

/// The lookup of the first step of `p` in an object, from the stream `s`
/// inside it, with `key` telling whether the next value read is a key: the
/// value after the first key that matches the step is looked up with the
/// rest of the path (or read, for the last step); the end of the object
/// gives nothing, and so does a key that is not a string.
pub open spec fn spec_get_from_object(s: StreamModel, p: Seq<u8>, key: bool) -> (ParserValueModel, StreamModel)
    decreases p.len(), stream_left(s), 1nat,
    when stream_wf(s) && getter_bytes_ok(s.bytes)
{
    proof {
        lemma_read_next(s);
        lemma_path_parts_short(p);
    }
    let pm = spec_gjson_path(p);
    let (v, s1) = spec_read_next(s);
    if v is NotExist {
        (v, s1)
    } else if !key {
        spec_get_from_object(s1, p, true)
    } else {
        match v {
            ParserValueModel::String(a, e) => if path_key_matches(pm, s.bytes.subrange(a + 1, e)) {
                if pm.more && p.len() > 0 {
                    spec_get_by_path(s1, pm.next)
                } else {
                    spec_read_next(s1)
                }
            } else {
                spec_get_from_object(s1, p, false)
            },
            _ => (ParserValueModel::NotExist, s1),
        }
    }
}

/// The lookup of the first step of `p` in an array, from the stream `s`
/// inside it, with `count` elements passed so far and `acc` the text of
/// the list of matches so far. At the element the step's index names, the
/// rest of the path is looked up there (or the element read). Each other
/// element must pass the step's query, if there is one (on what the
/// query's path finds in it, or on the element itself); it is then
/// counted, looked into with the rest of the path (an element where that
/// finds nothing is passed over), and given back for a query for the first
/// match or added to the list.
pub open spec fn spec_get_from_array(s: StreamModel, p: Seq<u8>, count: nat, acc: Seq<u8>) -> (
    ParserValueModel,
    StreamModel,
)
    decreases p.len(), stream_left(s), 1nat,
    when stream_wf(s) && getter_bytes_ok(s.bytes)
{
    proof {
        lemma_read_next(s);
        lemma_path_parts_short(p);
    }
    let pm = spec_gjson_path(p);
    let q = arr_query(pm);
    if part_idx(pm.part) == Some(count) {
        if pm.more && p.len() > 0 {
            spec_get_by_path(s, pm.next)
        } else {
            spec_read_next(s)
        }
    } else {
        let (v, s1) = spec_read_next(s);
        if v is NotExist {
            (array_end(pm, count, acc), s1)
        } else {
            let pass = !q.on || query_passes(
                q,
                if q.path.len() > 0 && q.path.len() < p.len() {
                    spec_parse_value(s.bytes, spec_get_from_value(s1, v, q.path))
                } else {
                    spec_parse_value(s.bytes, v)
                },
            );
            if !pass {
                spec_get_from_array(s1, p, count, acc)
            } else {
                let v2 = if pm.more && pm.next.len() < p.len() {
                    spec_get_from_value(s1, v, pm.next)
                } else {
                    v
                };
                if pm.more && v2 is NotExist {
                    spec_get_from_array(s1, p, count + 1, acc)
                } else if returns_first(pm) {
                    (v2, s1)
                } else if returns_vector(pm) {
                    spec_get_from_array(s1, p, count + 1, acc + spec_write_value(s.bytes, v2).push(chars::COMMA))
                } else {
                    spec_get_from_array(s1, p, count + 1, acc)
                }
            }
        }
    }
}

/// What the path `p` finds inside the value `v` (an array or object read
/// before the stream `s`): the getter moves to the value, looks the path
/// up, and moves back. Anything else, or no step, gives nothing.
pub open spec fn spec_get_from_value(s: StreamModel, v: ParserValueModel, p: Seq<u8>) -> ParserValueModel
    decreases p.len(), s.bytes.len() + 2, 0nat,
    when stream_wf(s) && getter_bytes_ok(s.bytes)
{
    if !spec_gjson_path(p).ok {
        ParserValueModel::NotExist
    } else {
        match v {
            ParserValueModel::Array(a, _) => if 0 <= a < s.bytes.len() {
                spec_get_by_path(stream_seek(s, a), p).0
            } else {
                ParserValueModel::NotExist
            },
            ParserValueModel::Object(a, _) => if 0 <= a < s.bytes.len() {
                spec_get_by_path(stream_seek(s, a), p).0
            } else {
                ParserValueModel::NotExist
            },
            _ => ParserValueModel::NotExist,
        }
    }
}

/// The stream the getter starts a lookup from: at the first byte of `b`.
pub open spec fn getter_start(b: Seq<u8>) -> StreamModel {
    StreamModel { bytes: b, pos: 0, started: true, over: false }
}

/// What `Getter::get` gives for the path `path` in the input `b`: the
/// list of matches as an array, or what `parse_value` makes of the find.
pub open spec fn spec_getter_get(b: Seq<u8>, path: Seq<u8>) -> GjsonValueModel {
    let v = spec_get_by_path(getter_start(b), path).0;
    if v is Vector {
        vector_value(v)
    } else {
        spec_parse_value(b, v)
    }
}

/// The models of a list of values.
pub open spec fn values_model(v: Seq<GjsonValue>) -> Seq<GjsonValueModel> {
    v.map_values(|x: GjsonValue| x.model())
}

/// The values read from the stream `s` up to the end of the array it is
/// in, each as `parse_value` makes it.
pub open spec fn spec_array_items(s: StreamModel) -> Seq<GjsonValueModel>
    decreases stream_left(s),
    when stream_wf(s) && getter_bytes_ok(s.bytes)
{
    proof {
        lemma_read_next(s);
    }
    let (v, s1) = spec_read_next(s);
    if v is NotExist {
        Seq::empty()
    } else {
        seq![spec_parse_value(s.bytes, v)] + spec_array_items(s1)
    }
}

/// What `as_array` gives from the stream `s`: the values of the first
/// array from the position on, or nothing where there is none.
pub open spec fn spec_as_array(s: StreamModel) -> Seq<GjsonValueModel>
    decreases stream_left(s),
    when stream_wf(s) && getter_bytes_ok(s.bytes)
{
    proof {
        lemma_peek_next(s);
    }
    let (c, s1) = stream_peek(s);
    match c {
        None => Seq::empty(),
        Some(b) => if b == chars::LBRACKET {
            spec_array_items(stream_next(s1).1)
        } else {
            spec_as_array(stream_next(s1).1)
        },
    }
}

/// The members of a map, each a key and a value.
pub type MapEntries = Seq<(Seq<char>, GjsonValueModel)>;

/// The first position at or after `j` of a member with the key `k`, or the
/// length.
pub open spec fn member_index(es: MapEntries, k: Seq<char>, j: int) -> int
    decreases es.len() - j,
{
    if j < 0 || j >= es.len() {
        es.len() as int
    } else if es[j].0 == k {
        j
    } else {
        member_index(es, k, j + 1)
    }
}

/// Puts a member into `es` as a map does: the member with the same key
/// gets the new value, else the member is added.
pub open spec fn members_insert(es: MapEntries, k: Seq<char>, v: GjsonValueModel) -> MapEntries {
    let i = member_index(es, k, 0);
    if i < es.len() {
        es.update(i, (k, v))
    } else {
        es.push((k, v))
    }
}

/// The members read from the stream `s` up to the end of the object it is
/// in, put into `acc` one by one; `key` holds the key read last, when a
/// value is to follow. A key that is not a string ends the reading.
pub open spec fn spec_object_members(s: StreamModel, key: Option<Seq<char>>, acc: MapEntries) -> MapEntries
    decreases stream_left(s),
    when stream_wf(s) && getter_bytes_ok(s.bytes)
{
    proof {
        lemma_read_next(s);
    }
    let (v, s1) = spec_read_next(s);
    if v is NotExist {
        acc
    } else {
        match key {
            None => match v {
                ParserValueModel::String(a, e) => spec_object_members(
                    s1,
                    Some(spec_utf8_lossy(s.bytes.subrange(a + 1, e))),
                    acc,
                ),
                _ => acc,
            },
            Some(k) => spec_object_members(s1, None, members_insert(acc, k, spec_parse_value(s.bytes, v))),
        }
    }
}

/// What `as_map` gives from the stream `s`: the members of the first
/// object from the position on, or nothing where there is none.
pub open spec fn spec_as_map(s: StreamModel) -> MapEntries
    decreases stream_left(s),
    when stream_wf(s) && getter_bytes_ok(s.bytes)
{
    proof {
        lemma_peek_next(s);
    }
    let (c, s1) = stream_peek(s);
    match c {
        None => Seq::empty(),
        Some(b) => if b == chars::LBRACE {
            spec_object_members(stream_next(s1).1, None, Seq::empty())
        } else {
            spec_as_map(stream_next(s1).1)
        },
    }
}

/// The models of a list of members.
pub open spec fn members_model(v: Seq<(String, GjsonValue)>) -> MapEntries {
    v.map_values(|x: (String, GjsonValue)| (x.0@, x.1.model()))
}

/// What `parse` gives for the input `b`: the first value, as
/// `parse_value` makes it.
pub open spec fn spec_gjson_parse(b: Seq<u8>) -> GjsonValueModel {
    spec_parse_value(b, spec_read_next(start_stream(b)).0)
}

/// Whether the input `b` is one the getter reads: see `getter_bytes_ok`.
pub fn getter_input_check(b: &[u8]) -> (r: bool)
    ensures
        r == getter_bytes_ok(b@),
{
    let n = b.len();
    if n > usize::MAX - 5 {
        return false;
    }
    if n == 1 {
        let c = b[0];
        return !(chars::DIGIT_0 <= c && c <= chars::DIGIT_9 || c == chars::MINUS || c == chars::DOT);
    }
    true
}

/// A stream at the start of the input and one on its first byte read the
/// same next value.
proof fn lemma_start_streams(b: Seq<u8>)
    requires
        b.len() > 0,
        getter_bytes_ok(b),
    ensures
        spec_read_next(start_stream(b)) == spec_read_next(getter_start(b)),
        spec_as_array(start_stream(b)) == spec_as_array(getter_start(b)),
{
    assert(stream_peek(start_stream(b)) == stream_peek(getter_start(b)));
}

/// The law that `get` with an empty path reads the first value, as `parse`
/// does.
pub proof fn lemma_get_empty_path_is_parse(b: Seq<u8>)
    requires
        b.len() > 0,
        getter_bytes_ok(b),
    ensures
        spec_getter_get(b, Seq::empty()) == spec_gjson_parse(b),
{
    lemma_start_streams(b);
    lemma_read_next(getter_start(b));
}

/// The path `#`.
pub open spec fn count_path() -> Seq<u8> {
    seq![chars::HASH]
}

/// The step `#` on an array counts the elements left in it.
proof fn lemma_count_items(s: StreamModel, c: nat, acc: Seq<u8>)
    requires
        stream_wf(s),
        getter_bytes_ok(s.bytes),
    ensures
        spec_get_from_array(s, count_path(), c, acc).0 == ParserValueModel::NumberUsize(
            c + spec_array_items(s).len(),
        ),
    decreases stream_left(s),
{
    lemma_count_path();
    lemma_read_next(s);
    let (v, s1) = spec_read_next(s);
    if !(v is NotExist) {
        lemma_count_items(s1, c + 1, acc);
    }
}

/// The path `#` is one step that marks an array and names no index.
proof fn lemma_count_path()
    ensures
        step_scan_done(count_path()),
{
    let p = count_path();
    reveal_with_fuel(crate::gjson_path::step_scan, 2);
    assert(p.len() == 1 && p[0] == chars::HASH);
    assert(!chars::is_digit(p[0]));
    assert(!crate::number::all_digits(p));
}

/// The first step of the path `#`: an array step with no query and
/// nothing after it.
pub open spec fn step_scan_done(p: Seq<u8>) -> bool {
    let pm = spec_gjson_path(p);
    &&& pm.ok
    &&& !pm.more
    &&& pm.query is None
    &&& part_idx(pm.part) is None
}

/// Up to the first bracket, which opens an array, the search of `get` and
/// that of `as_array` pass the same bytes; the step `#` then counts what
/// `as_array` lists.
proof fn lemma_count_scan(s: StreamModel)
    requires
        stream_wf(s),
        getter_bytes_ok(s.bytes),
        s.started,
        !s.over,
        first_compound(s.bytes, s.pos as int) < s.bytes.len(),
        s.bytes[first_compound(s.bytes, s.pos as int)] == chars::LBRACKET,
    ensures
        spec_by_path_scan(s, count_path()).0 == ParserValueModel::NumberUsize(spec_as_array(s).len()),
    decreases stream_left(s),
{
    lemma_peek_next(s);
    lemma_count_path();
    let s2 = stream_next(stream_peek(s).1).1;
    if s.bytes[s.pos as int] == chars::LBRACKET {
        lemma_count_items(s2, 0, array_start(spec_gjson_path(count_path())));
    } else {
        assert(first_compound(s.bytes, s.pos as int) == first_compound(s.bytes, s.pos + 1int));
        lemma_count_scan(s2);
    }
}

/// The law that the path `#` on input whose first bracket opens an array
/// gives the number of values that `as_array` lists from the start.
pub proof fn lemma_count_is_array_length(b: Seq<u8>)
    requires
        b.len() > 0,
        getter_bytes_ok(b),
        first_compound(b, 0) < b.len(),
        b[first_compound(b, 0)] == chars::LBRACKET,
    ensures
        spec_getter_get(b, count_path()) == GjsonValueModel::Number(
            decimal_text(spec_as_array(start_stream(b)).len()),
        ),
{
    lemma_start_streams(b);
    lemma_count_path();
    lemma_count_scan(getter_start(b));
}

/// A path of digits is one step that names the index the digits spell,
/// with no query and nothing after it.
proof fn lemma_digits_path(a: Seq<u8>)
    requires
        a.len() > 0,
        all_digits(a),
        digits_value(a) <= usize::MAX,
    ensures
        ({
            let pm = spec_gjson_path(a);
            &&& pm.ok
            &&& !pm.more
            &&& pm.query is None
            &&& pm.part == a
            &&& part_idx(pm.part) == Some(digits_value(a))
        }),
{
    lemma_digit_scan(a, 0);
    assert forall|k: int| 0 <= k < a.len() implies #[trigger] a[k] < 128 by {
        assert(chars::is_digit(a[k]));
    }
    crate::number::lemma_ascii_text(a);
    assert(a[0] != chars::PLUS) by {
        assert(chars::is_digit(a[0]));
    }
}

/// The scan of a step over digits meets no dot, wildcard, `#` or query.
proof fn lemma_digit_scan(a: Seq<u8>, k: int)
    requires
        0 <= k,
        all_digits(a),
    ensures
        step_scan(a, k, false, false, None) == (StepScan { dot: -1, wild: false, arrch: false, query: None }),
    decreases a.len() - k,
{
    if k < a.len() {
        assert(chars::is_digit(a[k]));
        lemma_digit_scan(a, k + 1);
    }
}

/// The step naming index `i` on an array gives the value at that position
/// among those left, as `parse_value` makes it, or nothing past the end.
proof fn lemma_index_items(s: StreamModel, a: Seq<u8>, c: nat, acc: Seq<u8>)
    requires
        stream_wf(s),
        getter_bytes_ok(s.bytes),
        a.len() > 0,
        all_digits(a),
        digits_value(a) <= usize::MAX,
        c <= digits_value(a),
    ensures
        ({
            let v = spec_get_from_array(s, a, c, acc).0;
            let items = spec_array_items(s);
            let i = digits_value(a) - c;
            &&& !(v is Vector)
            &&& pv_fits(s.bytes, v)
            &&& spec_parse_value(s.bytes, v) == if i < items.len() {
                items[i]
            } else {
                GjsonValueModel::NotExist
            }
        }),
    decreases stream_left(s),
{
    lemma_digits_path(a);
    lemma_read_next(s);
    let (v, s1) = spec_read_next(s);
    if c < digits_value(a) && !(v is NotExist) {
        lemma_index_items(s1, a, c + 1, acc);
    }
}

/// Up to the first bracket, which opens an array, the search of `get` and
/// that of `as_array` pass the same bytes; an index step then picks what
/// `as_array` lists at its position.
proof fn lemma_index_scan(s: StreamModel, a: Seq<u8>)
    requires
        stream_wf(s),
        getter_bytes_ok(s.bytes),
        s.started,
        !s.over,
        first_compound(s.bytes, s.pos as int) < s.bytes.len(),
        s.bytes[first_compound(s.bytes, s.pos as int)] == chars::LBRACKET,
        a.len() > 0,
        all_digits(a),
        digits_value(a) <= usize::MAX,
    ensures
        ({
            let v = spec_by_path_scan(s, a).0;
            let items = spec_as_array(s);
            &&& !(v is Vector)
            &&& spec_parse_value(s.bytes, v) == if digits_value(a) < items.len() {
                items[digits_value(a) as int]
            } else {
                GjsonValueModel::NotExist
            }
        }),
    decreases stream_left(s),
{
    lemma_peek_next(s);
    lemma_digits_path(a);
    let s2 = stream_next(stream_peek(s).1).1;
    if s.bytes[s.pos as int] == chars::LBRACKET {
        lemma_index_items(s2, a, 0, array_start(spec_gjson_path(a)));
    } else {
        assert(first_compound(s.bytes, s.pos as int) == first_compound(s.bytes, s.pos + 1int));
        lemma_index_scan(s2, a);
    }
}

/// The law that a path of digits on input whose first bracket opens an
/// array gives the value that `as_array` lists at the position the digits
/// spell, or nothing when the array is shorter.
pub proof fn lemma_index_is_array_item(b: Seq<u8>, a: Seq<u8>)
    requires
        b.len() > 0,
        getter_bytes_ok(b),
        first_compound(b, 0) < b.len(),
        b[first_compound(b, 0)] == chars::LBRACKET,
        a.len() > 0,
        all_digits(a),
        digits_value(a) <= usize::MAX,
    ensures
        spec_getter_get(b, a) == if digits_value(a) < spec_as_array(start_stream(b)).len() {
            spec_as_array(start_stream(b))[digits_value(a) as int]
        } else {
            GjsonValueModel::NotExist
        },
{
    lemma_start_streams(b);
    lemma_digits_path(a);
    lemma_index_scan(getter_start(b), a);
}

/// No two members have the same key.
pub open spec fn keys_distinct(es: MapEntries) -> bool {
    forall|i: int, j: int| 0 <= i < j < es.len() ==> #[trigger] es[i].0 != #[trigger] es[j].0
}

/// Putting a member in keeps the keys distinct.
proof fn lemma_insert_distinct(es: MapEntries, k: Seq<char>, v: GjsonValueModel)
    requires
        keys_distinct(es),
    ensures
        keys_distinct(members_insert(es, k, v)),
{
    lemma_member_index(es, k, 0);
    let i = member_index(es, k, 0);
    let r = members_insert(es, k, v);
    if i < es.len() {
        assert forall|x: int, y: int| 0 <= x < y < r.len() implies #[trigger] r[x].0 != #[trigger] r[y].0 by {
            assert(r[x].0 == es[x].0 && r[y].0 == es[y].0);
        }
    } else {
        assert forall|x: int, y: int| 0 <= x < y < r.len() implies #[trigger] r[x].0 != #[trigger] r[y].0 by {
            if y == es.len() {
                assert(r[x].0 == es[x].0);
                assert(r[y].0 == k);
            } else {
                assert(r[x].0 == es[x].0 && r[y].0 == es[y].0);
            }
        }
    }
}

/// Where the search for a key stops: at a member with that key, with none
/// before it from `j` on, or at the end.
proof fn lemma_member_index(es: MapEntries, k: Seq<char>, j: int)
    requires
        0 <= j <= es.len(),
    ensures
        j <= member_index(es, k, j) <= es.len(),
        member_index(es, k, j) < es.len() ==> es[member_index(es, k, j)].0 == k,
        forall|x: int| j <= x < member_index(es, k, j) ==> es[x].0 != k,
    decreases es.len() - j,
{
    if j < es.len() && es[j].0 != k {
        lemma_member_index(es, k, j + 1);
    }
}

/// Reading members into entries with distinct keys keeps them distinct.
proof fn lemma_members_distinct(s: StreamModel, key: Option<Seq<char>>, acc: MapEntries)
    requires
        stream_wf(s),
        getter_bytes_ok(s.bytes),
        keys_distinct(acc),
    ensures
        keys_distinct(spec_object_members(s, key, acc)),
    decreases stream_left(s),
{
    lemma_read_next(s);
    let (v, s1) = spec_read_next(s);
    if !(v is NotExist) {
        match key {
            None => match v {
                ParserValueModel::String(a, e) => {
                    lemma_members_distinct(s1, Some(spec_utf8_lossy(s.bytes.subrange(a + 1, e))), acc);
                },
                _ => {},
            },
            Some(k) => {
                let x = spec_parse_value(s.bytes, v);
                lemma_insert_distinct(acc, k, x);
                lemma_members_distinct(s1, None, members_insert(acc, k, x));
            },
        }
    }
}

/// The law that `as_map` holds each key once, as a map does.
pub proof fn lemma_as_map_keys_distinct(s: StreamModel)
    requires
        stream_wf(s),
        getter_bytes_ok(s.bytes),
    ensures
        keys_distinct(spec_as_map(s)),
    decreases stream_left(s),
{
    lemma_peek_next(s);
    let (c, s1) = stream_peek(s);
    match c {
        None => {},
        Some(b) => {
            if b == chars::LBRACE {
                lemma_members_distinct(stream_next(s1).1, None, Seq::empty());
            } else {
                lemma_as_map_keys_distinct(stream_next(s1).1);
            }
        },
    }
}

/// For each value left in the array the stream `s` is in, what the path
/// `k` finds inside it (where it finds something), as written in a list,
/// each followed by a comma.
pub open spec fn found_list(s: StreamModel, k: Seq<u8>) -> Seq<u8>
    decreases stream_left(s),
    when stream_wf(s) && getter_bytes_ok(s.bytes)
{
    proof {
        lemma_read_next(s);
    }
    let (v, s1) = spec_read_next(s);
    if v is NotExist {
        Seq::empty()
    } else {
        let f = spec_get_from_value(s1, v, k);
        if f is NotExist {
            found_list(s1, k)
        } else {
            spec_write_value(s.bytes, f).push(chars::COMMA) + found_list(s1, k)
        }
    }
}

/// A list's text closed: its last comma dropped, and `]` added.
pub open spec fn close_list(t: Seq<u8>) -> Seq<u8> {
    (if t.len() > 1 {
        t.drop_last()
    } else {
        t
    }).push(chars::RBRACKET)
}

/// The path `#.k`.
pub open spec fn each_path(k: Seq<u8>) -> Seq<u8> {
    seq![chars::HASH, chars::DOT] + k
}

/// The first step of `#.k` is an array step with no query and `k` after
/// it.
proof fn lemma_each_path(k: Seq<u8>)
    ensures
        ({
            let pm = spec_gjson_path(each_path(k));
            &&& pm.ok
            &&& pm.more
            &&& pm.query is None
            &&& pm.next == k
            &&& part_idx(pm.part) is None
            &&& returns_vector(pm)
            &&& !returns_first(pm)
        }),
{
    let p = each_path(k);
    reveal_with_fuel(step_scan, 2);
    assert(p[0] == chars::HASH && p[1] == chars::DOT);
    assert(p.subrange(0, 1) =~= seq![chars::HASH]);
    assert(!chars::is_digit(p[0]));
    assert(!crate::number::all_digits(p.subrange(0, 1)));
    if p.len() > 2 {
        assert(p.subrange(2, p.len() as int) =~= k);
    } else {
        assert(k =~= Seq::<u8>::empty());
    }
}

/// The step `#` with a path `k` after it lists, after the text `acc`,
/// what `k` finds in each value left in the array.
proof fn lemma_each_items(s: StreamModel, k: Seq<u8>, c: nat, acc: Seq<u8>)
    requires
        stream_wf(s),
        getter_bytes_ok(s.bytes),
    ensures
        spec_get_from_array(s, each_path(k), c, acc).0 == ParserValueModel::Vector(
            close_list(acc + found_list(s, k)),
        ),
    decreases stream_left(s),
{
    lemma_each_path(k);
    lemma_read_next(s);
    let p = each_path(k);
    assert(k.len() < p.len());
    let (v, s1) = spec_read_next(s);
    if v is NotExist {
        assert(acc + found_list(s, k) =~= acc);
    } else {
        let f = spec_get_from_value(s1, v, k);
        if f is NotExist {
            lemma_each_items(s1, k, c + 1, acc);
        } else {
            let acc2 = acc + spec_write_value(s.bytes, f).push(chars::COMMA);
            lemma_each_items(s1, k, c + 1, acc2);
            assert(acc2 + found_list(s1, k) =~= acc + found_list(s, k));
        }
    }
}

/// Up to the first bracket, which opens an array, the search of `get`
/// passes bytes; the step `#` then lists what `k` finds in each value.
proof fn lemma_each_scan(s: StreamModel, k: Seq<u8>)
    requires
        stream_wf(s),
        getter_bytes_ok(s.bytes),
        s.started,
        !s.over,
        first_compound(s.bytes, s.pos as int) < s.bytes.len(),
        s.bytes[first_compound(s.bytes, s.pos as int)] == chars::LBRACKET,
    ensures
        ({
            let s2 = stream_next(stream_at_bracket(s)).1;
            spec_by_path_scan(s, each_path(k)).0 == ParserValueModel::Vector(
                close_list(seq![chars::LBRACKET] + found_list(s2, k)),
            )
        }),
    decreases stream_left(s),
{
    lemma_peek_next(s);
    lemma_each_path(k);
    let s2 = stream_next(stream_peek(s).1).1;
    if s.bytes[s.pos as int] == chars::LBRACKET {
        lemma_each_items(s2, k, 0, seq![chars::LBRACKET]);
    } else {
        assert(first_compound(s.bytes, s.pos as int) == first_compound(s.bytes, s.pos + 1int));
        lemma_each_scan(s2, k);
    }
}

/// The stream on the first `[` from the position of `s` on.
pub open spec fn stream_at_bracket(s: StreamModel) -> StreamModel {
    stream_seek(s, first_compound(s.bytes, s.pos as int))
}

/// The law that the path `#.k`, on input whose first bracket opens an
/// array, gives the list of what `k` finds in each value of the array (a
/// value where it finds nothing is left out).
pub proof fn lemma_each_lists_finds(b: Seq<u8>, k: Seq<u8>)
    requires
        b.len() > 0,
        getter_bytes_ok(b),
        first_compound(b, 0) < b.len(),
        b[first_compound(b, 0)] == chars::LBRACKET,
    ensures
        spec_getter_get(b, each_path(k)) == GjsonValueModel::Array(
            spec_utf8_lossy(
                close_list(
                    seq![chars::LBRACKET] + found_list(
                        stream_next(stream_at_bracket(getter_start(b))).1,
                        k,
                    ),
                ),
            ),
        ),
{
    lemma_each_scan(getter_start(b), k);
}

/// Adds the bytes `s` to `buffer`.
fn push_all(buffer: &mut Vec<u8>, s: &[u8])
    ensures
        final(buffer)@ == old(buffer)@ + s@,
{
    let mut k: usize = 0;
    while k < s.len()
        invariant
            k <= s@.len(),
            buffer@ == old(buffer)@ + s@.subrange(0, k as int),
        decreases s@.len() - k,
    {
        buffer.push(s[k]);
        k += 1;
        proof {
            assert(buffer@ =~= old(buffer)@ + s@.subrange(0, k as int));
        }
    }
    proof {
        assert(s@.subrange(0, s@.len() as int) =~= s@);
    }
}

/// Whether the value `v` passes the query `q`; see `query_passes`.
pub fn query_pass(q: &GjsonQuery, v: &GjsonValue) -> (r: bool)
    ensures
        r == query_passes(q.model(), v.model()),
{
    match gjson_query_matches(q, v) {
        Some(b) => b,
        None => match v {
            GjsonValue::Number(a) => match &q.value {
                Some(GjsonValue::Number(t)) => match q.op {
                    Some(op) => order_holds(&op_kind(op), decimal_order(a.as_str().as_bytes(), t.as_str().as_bytes())),
                    None => false,
                },
                _ => false,
            },
            _ => false,
        },
    }
}

/// The getter: a reader over JSON text.
pub struct Getter<'a> {
    source: RefReader<'a>,
}

/// The stream at the start of `b`, before any reading.
pub open spec fn start_stream(b: Seq<u8>) -> StreamModel {
    StreamModel { bytes: b, pos: 0, started: false, over: b.len() == 0 }
}

impl<'a> Getter<'a> {
    /// The reader is consistent and its input fits the machine.
    pub closed spec fn wf(&self) -> bool {
        &&& self.source.wf()
        &&& self.source.model().bytes.len() + 5 <= usize::MAX
    }

    /// The stream the getter reads.
    pub closed spec fn stream(&self) -> StreamModel {
        self.source.model()
    }

    /// A getter at the start of the bytes `v`.
    pub fn new_from_utf8(v: &'a [u8]) -> (g: Getter<'a>)
        requires
            v@.len() + 5 <= usize::MAX,
        ensures
            g.wf(),
            g.stream() == start_stream(v@),
    {
        Getter { source: RefReader::new(v) }
    }

    /// A getter at the start of the text `s`.
    pub fn from_str(s: &'a str) -> (g: Getter<'a>)
        requires
            s.spec_bytes().len() + 5 <= usize::MAX,
        ensures
            g.wf(),
            g.stream() == start_stream(s.spec_bytes()),
    {
        Getter { source: RefReader::new(s.as_bytes()) }
    }

    /// A consistent getter reads a consistent stream.
    proof fn lemma_wf(&self)
        requires
            self.wf(),
        ensures
            stream_wf(self.stream()),
            self.stream().bytes.len() + 5 <= usize::MAX,
    {
        self.source.lemma_reader_stream();
    }

    fn next_byte(&mut self) -> (r: Option<u8>)
        requires
            old(self).wf(),
        ensures
            final(self).wf(),
            (r, final(self).stream()) == stream_next(old(self).stream()),
    {
        self.source.next()
    }

    fn peek(&mut self) -> (r: Option<u8>)
        requires
            old(self).wf(),
        ensures
            final(self).wf(),
            (r, final(self).stream()) == stream_peek(old(self).stream()),
    {
        self.source.peek()
    }

    fn position(&self) -> (r: usize)
        requires
            self.wf(),
        ensures
            r == self.stream().pos,
    {
        self.source.position()
    }

    fn seek(&mut self, new: usize)
        requires
            old(self).wf(),
            new < old(self).stream().bytes.len(),
        ensures
            final(self).wf(),
            final(self).stream() == stream_seek(old(self).stream(), new as int),
    {
        self.source.seek(new);
    }

    fn bytes_slice(&self, start: usize, end: usize) -> (r: &[u8])
        requires
            self.wf(),
            start <= end + 1,
            end < self.stream().bytes.len(),
        ensures
            r@ == self.stream().bytes.subrange(start as int, end + 1),
    {
        self.source.slice(start, end)
    }

    /// What a value read from the input stands for; see `spec_parse_value`.
    fn parse_value(&self, v: &ParserValue) -> (r: GjsonValue)
        requires
            self.wf(),
            pv_fits(self.stream().bytes, v.model()),
        ensures
            r.model() == spec_parse_value(self.stream().bytes, v.model()),
    {
        proof {
            self.lemma_wf();
        }
        match v {
            ParserValue::String(a, e) => GjsonValue::String(utf8_lossy(self.bytes_slice(*a + 1, *e - 1))),
            ParserValue::Object(a, e) => GjsonValue::Object(utf8_lossy(self.bytes_slice(*a, *e))),
            ParserValue::Array(a, e) => GjsonValue::Array(utf8_lossy(self.bytes_slice(*a, *e))),
            ParserValue::Number(a, e) => {
                let raw = self.bytes_slice(*a, *e);
                proof {
                    assert forall|k: int| 0 <= k < raw@.len() implies #[trigger] raw@[k] < 128 by {
                        assert(raw@[k] == self.stream().bytes[*a + k]);
                        assert(is_number_byte(self.stream().bytes[*a + k]));
                    }
                }
                GjsonValue::Number(ascii_string(raw))
            },
            ParserValue::NumberUsize(n) => {
                let d = decimal_bytes(*n);
                proof {
                    lemma_decimal_text_ascii(*n as nat);
                }
                GjsonValue::Number(ascii_string(d.as_slice()))
            },
            ParserValue::Boolean(x) => GjsonValue::Boolean(*x),
            ParserValue::Null => GjsonValue::Null,
            _ => GjsonValue::NotExist,
        }
    }

    /// Adds what the value `v` writes to the text of a list of matches; see
    /// `spec_write_value`.
    fn write_value(&self, buffer: &mut Vec<u8>, v: &ParserValue)
        requires
            self.wf(),
            pv_fits(self.stream().bytes, v.model()),
        ensures
            final(buffer)@ == old(buffer)@ + spec_write_value(self.stream().bytes, v.model()),
    {
        proof {
            self.lemma_wf();
        }
        match v {
            ParserValue::String(a, e) => {
                let n = self.source.length();
                let end = if *e < n {
                    *e
                } else {
                    n - 1
                };
                push_all(buffer, self.bytes_slice(*a, end));
            },
            ParserValue::Object(a, e) => push_all(buffer, self.bytes_slice(*a, *e)),
            ParserValue::Array(a, e) => push_all(buffer, self.bytes_slice(*a, *e)),
            ParserValue::Number(a, e) => push_all(buffer, self.bytes_slice(*a, *e)),
            ParserValue::Vector(t) => push_all(buffer, t.as_slice()),
            ParserValue::Boolean(x) => {
                if *x {
                    buffer.push(chars::LOWER_T);
                    buffer.push(chars::LOWER_R);
                    buffer.push(chars::LOWER_U);
                    buffer.push(chars::LOWER_E);
                } else {
                    buffer.push(chars::LOWER_F);
                    buffer.push(chars::LOWER_A);
                    buffer.push(chars::LOWER_L);
                    buffer.push(chars::LOWER_S);
                    buffer.push(chars::LOWER_E);
                }
                proof {
                    assert(buffer@ =~= old(buffer)@ + spec_write_value(self.stream().bytes, v.model()));
                }
            },
            ParserValue::NumberUsize(n) => {
                let d = decimal_bytes(*n);
                push_all(buffer, d.as_slice());
            },
            ParserValue::Null => {
                buffer.push(chars::LOWER_N);
                buffer.push(chars::LOWER_U);
                buffer.push(chars::LOWER_L);
                buffer.push(chars::LOWER_L);
                proof {
                    assert(buffer@ =~= old(buffer)@ + spec_write_value(self.stream().bytes, v.model()));
                }
            },
            ParserValue::NotExist => {
                proof {
                    assert(buffer@ =~= old(buffer)@ + spec_write_value(self.stream().bytes, v.model()));
                }
            },
        }
    }

    /// Looks the path `p` up from the position; see `spec_get_by_path`.
    fn get_by_path(&mut self, p: &[u8]) -> (r: ParserValue)
        requires
            old(self).wf(),
            getter_bytes_ok(old(self).stream().bytes),
            gpath_ok(p@),
        ensures
            final(self).wf(),
            final(self).stream().bytes == old(self).stream().bytes,
            (r.model(), final(self).stream()) == spec_get_by_path(old(self).stream(), p@),
            pv_fits(old(self).stream().bytes, r.model()),
        decreases p@.len(), stream_left(old(self).stream()), 3nat,
    {
        proof {
            self.lemma_wf();
            lemma_read_next(self.stream());
        }
        let path = gjson_path(p);
        if !path.ok {
            return self.read_next_value();
        }
        loop
            invariant
                self.wf(),
                stream_wf(self.stream()),
                self.stream().bytes == old(self).stream().bytes,
                getter_bytes_ok(self.stream().bytes),
                stream_left(self.stream()) <= stream_left(old(self).stream()),
                spec_by_path_scan(self.stream(), p@) == spec_get_by_path(old(self).stream(), p@),
                path.model() == spec_gjson_path(p@),
                path.ok,
                gpath_ok(p@),
            decreases stream_left(self.stream()),
        {
            proof {
                lemma_peek_next(self.stream());
            }
            let c = self.peek();
            match c {
                None => {
                    return ParserValue::NotExist;
                },
                Some(b) => {
                    self.next_byte();
                    proof {
                        self.lemma_wf();
                    }
                    if b == chars::LBRACE {
                        return self.get_from_object(&path, Ghost(p@));
                    } else if b == chars::LBRACKET {
                        return self.get_from_array(&path, Ghost(p@));
                    }
                },
            }
        }
    }

    /// Looks the step `path` (the first of the path `p`) up in the object
    /// the position is in; see `spec_get_from_object`.
    fn get_from_object(&mut self, path: &GjsonPath, Ghost(p): Ghost<Seq<u8>>) -> (r: ParserValue)
        requires
            old(self).wf(),
            getter_bytes_ok(old(self).stream().bytes),
            gpath_ok(p),
            path.model() == spec_gjson_path(p),
            path.ok,
        ensures
            final(self).wf(),
            final(self).stream().bytes == old(self).stream().bytes,
            (r.model(), final(self).stream()) == spec_get_from_object(old(self).stream(), p, true),
            pv_fits(old(self).stream().bytes, r.model()),
        decreases p.len(), stream_left(old(self).stream()), 1nat,
    {
        let mut key = true;
        proof {
            self.lemma_wf();
            lemma_path_parts_short(p);
        }
        loop
            invariant
                self.wf(),
                stream_wf(self.stream()),
                self.stream().bytes == old(self).stream().bytes,
                getter_bytes_ok(self.stream().bytes),
                stream_left(self.stream()) <= stream_left(old(self).stream()),
                spec_get_from_object(self.stream(), p, key) == spec_get_from_object(old(self).stream(), p, true),
                path.model() == spec_gjson_path(p),
                path.ok,
                p.len() > 0,
                gpath_ok(p),
                path.more ==> path.next@.len() < p.len(),
            decreases stream_left(self.stream()),
        {
            proof {
                lemma_read_next(self.stream());
            }
            let v = self.read_next_value();
            proof {
                self.lemma_wf();
            }
            if !v.value_exists() {
                return v;
            }
            if !key {
                key = true;
            } else {
                match v {
                    ParserValue::String(a, e) => {
                        let k = self.bytes_slice(a + 1, e - 1);
                        if path.is_match(k) {
                            if path.more {
                                return self.get_by_path(path.next);
                            } else {
                                proof {
                                    lemma_read_next(self.stream());
                                }
                                return self.read_next_value();
                            }
                        } else {
                            key = false;
                        }
                    },
                    _ => {
                        return ParserValue::NotExist;
                    },
                }
            }
        }
    }

    /// What the path `p` finds inside the array or object `v`, read before
    /// the position; the position is the same after. See
    /// `spec_get_from_value`.
    fn get_from_value(&mut self, v: &ParserValue, p: &[u8]) -> (r: ParserValue)
        requires
            old(self).wf(),
            getter_bytes_ok(old(self).stream().bytes),
            gpath_ok(p@),
            pv_fits(old(self).stream().bytes, v.model()),
            old(self).stream().started,
        ensures
            final(self).wf(),
            final(self).stream() == old(self).stream(),
            r.model() == spec_get_from_value(old(self).stream(), v.model(), p@),
            pv_fits(old(self).stream().bytes, r.model()),
        decreases p@.len(), old(self).stream().bytes.len() + 2, 0nat,
    {
        proof {
            self.lemma_wf();
        }
        let path = gjson_path(p);
        if !path.ok {
            return ParserValue::NotExist;
        }
        let start = match v {
            ParserValue::Array(a, _) => *a,
            ParserValue::Object(a, _) => *a,
            _ => {
                return ParserValue::NotExist;
            },
        };
        let ghost s0 = self.stream();
        let old_pos = self.position();
        let was_over = self.peek().is_none();
        self.seek(start);
        let r = self.get_by_path(p);
        proof {
            self.lemma_wf();
        }
        self.seek(old_pos);
        if was_over {
            self.next_byte();
        }
        proof {
            assert(self.stream() == s0);
        }
        r
    }

    /// Looks the step `path` (the first of the path `p`) up in the array the
    /// position is in; see `spec_get_from_array`.
    fn get_from_array(&mut self, path: &GjsonPath, Ghost(p): Ghost<Seq<u8>>) -> (r: ParserValue)
        requires
            old(self).wf(),
            getter_bytes_ok(old(self).stream().bytes),
            gpath_ok(p),
            path.model() == spec_gjson_path(p),
            path.ok,
        ensures
            final(self).wf(),
            final(self).stream().bytes == old(self).stream().bytes,
            (r.model(), final(self).stream()) == spec_get_from_array(
                old(self).stream(),
                p,
                0,
                array_start(path.model()),
            ),
            pv_fits(old(self).stream().bytes, r.model()),
        decreases p.len(), stream_left(old(self).stream()), 1nat,
    {
        proof {
            self.lemma_wf();
            lemma_path_parts_short(p);
        }
        let (idx, idx_get) = match part_index(path.part) {
            Ok(Some(i)) => (i, true),
            _ => (0usize, false),
        };
        let (q_on, q_all) = match &path.query {
            Some(q) => (q.on, q.all),
            None => (false, false),
        };
        let return_vector = (q_on && q_all) || (!q_on && path.more);
        let return_first = q_on && !q_all;
        let mut acc: Vec<u8> = Vec::new();
        if return_vector {
            acc.push(chars::LBRACKET);
        }
        proof {
            assert(acc@ =~= array_start(path.model()));
        }
        let mut count: usize = 0;
        let ghost left0 = stream_left(self.stream());
        loop
            invariant_except_break
                spec_get_from_array(self.stream(), p, count as nat, acc@) == spec_get_from_array(
                    old(self).stream(),
                    p,
                    0,
                    array_start(path.model()),
                ),
            invariant
                self.wf(),
                stream_wf(self.stream()),
                self.stream().bytes == old(self).stream().bytes,
                getter_bytes_ok(self.stream().bytes),
                left0 == stream_left(old(self).stream()),
                count + stream_left(self.stream()) <= left0,
                left0 <= self.stream().bytes.len() + 1,
                path.model() == spec_gjson_path(p),
                path.ok,
                p.len() > 0,
                gpath_ok(p),
                path.more ==> path.next@.len() < p.len(),
                path.query matches Some(q) ==> q.path@.len() < p.len(),
                idx_get <==> part_idx(path.part@) is Some,
                idx_get ==> part_idx(path.part@) == Some(idx as nat),
                q_on == arr_query(path.model()).on,
                return_vector == returns_vector(path.model()),
                return_first == returns_first(path.model()),
            ensures
                spec_get_from_array(old(self).stream(), p, 0, array_start(path.model())) == (
                    array_end(path.model(), count as nat, acc@),
                    self.stream(),
                ),
            decreases stream_left(self.stream()),
        {
            if idx_get && idx == count {
                if path.more {
                    return self.get_by_path(path.next);
                }
                proof {
                    lemma_read_next(self.stream());
                }
                return self.read_next_value();
            }
            proof {
                lemma_read_next(self.stream());
            }
            let ghost s0 = self.stream();
            let v = self.read_next_value();
            proof {
                self.lemma_wf();
            }
            if !v.value_exists() {
                break;
            }
            let pass = match &path.query {
                Some(q) => if q.on {
                    let m = if q.path.len() > 0 {
                        let mv = self.get_from_value(&v, q.path);
                        self.parse_value(&mv)
                    } else {
                        self.parse_value(&v)
                    };
                    query_pass(q, &m)
                } else {
                    true
                },
                None => true,
            };
            if pass {
                count += 1;
                let v2 = if path.more {
                    self.get_from_value(&v, path.next)
                } else {
                    v
                };
                if path.more && !v2.value_exists() {
                } else if return_first {
                    return v2;
                } else if return_vector {
                    let ghost acc0 = acc@;
                    self.write_value(&mut acc, &v2);
                    acc.push(chars::COMMA);
                    proof {
                        assert(acc@ =~= acc0 + spec_write_value(s0.bytes, v2.model()).push(chars::COMMA));
                    }
                }
            }
        }
        if return_vector {
            if acc.len() > 1 {
                acc.pop();
            }
            acc.push(chars::RBRACKET);
            ParserValue::Vector(acc)
        } else if return_first {
            ParserValue::NotExist
        } else if idx_get {
            ParserValue::NotExist
        } else {
            ParserValue::NumberUsize(count)
        }
    }

    /// Gets the value at `path`, from the start of the input; see
    /// `spec_getter_get`. A list of matches comes back as an array. The
    /// input must not be empty, and every query of the path must close and
    /// read to an end (`path_check` tells).
    pub fn get(&mut self, path: &str) -> (r: GjsonValue)
        requires
            old(self).wf(),
            old(self).stream().bytes.len() > 0,
            getter_bytes_ok(old(self).stream().bytes),
            gpath_ok(path.spec_bytes()),
        ensures
            final(self).wf(),
            final(self).stream().bytes == old(self).stream().bytes,
            r.model() == spec_getter_get(old(self).stream().bytes, path.spec_bytes()),
    {
        let bytes = path.as_bytes();
        self.seek(0);
        let v = self.get_by_path(bytes);
        if v.is_vector() {
            v.vector_to_value()
        } else {
            self.parse_value(&v)
        }
    }

    /// The values of the first array from the position on; see
    /// `spec_as_array`.
    pub fn as_array(&mut self) -> (r: Vec<GjsonValue>)
        requires
            old(self).wf(),
            getter_bytes_ok(old(self).stream().bytes),
        ensures
            final(self).wf(),
            values_model(r@) == spec_as_array(old(self).stream()),
    {
        let mut arr: Vec<GjsonValue> = Vec::new();
        proof {
            self.lemma_wf();
        }
        loop
            invariant_except_break
                spec_as_array(self.stream()) == spec_as_array(old(self).stream()),
            invariant
                self.wf(),
                stream_wf(self.stream()),
                self.stream().bytes == old(self).stream().bytes,
                getter_bytes_ok(self.stream().bytes),
                arr@.len() == 0,
            ensures
                spec_array_items(self.stream()) == spec_as_array(old(self).stream()),
                arr@.len() == 0,
            decreases stream_left(self.stream()),
        {
            proof {
                lemma_peek_next(self.stream());
            }
            let c = self.peek();
            match c {
                None => {
                    proof {
                        assert(values_model(arr@) =~= Seq::<GjsonValueModel>::empty());
                    }
                    return arr;
                },
                Some(b) => {
                    self.next_byte();
                    proof {
                        self.lemma_wf();
                    }
                    if b == chars::LBRACKET {
                        break;
                    }
                },
            }
        }
        let ghost items = spec_array_items(self.stream());
        loop
            invariant
                self.wf(),
                stream_wf(self.stream()),
                self.stream().bytes == old(self).stream().bytes,
                getter_bytes_ok(self.stream().bytes),
                values_model(arr@) + spec_array_items(self.stream()) == items,
                items == spec_as_array(old(self).stream()),
            decreases stream_left(self.stream()),
        {
            proof {
                lemma_read_next(self.stream());
            }
            let ghost s0 = self.stream();
            let v = self.read_next_value();
            proof {
                self.lemma_wf();
            }
            if !v.value_exists() {
                proof {
                    assert(values_model(arr@) + Seq::<GjsonValueModel>::empty() =~= values_model(arr@));
                }
                return arr;
            }
            let x = self.parse_value(&v);
            let ghost before = arr@;
            arr.push(x);
            proof {
                assert(values_model(arr@) =~= values_model(before) + seq![x.model()]);
                assert(values_model(arr@) + spec_array_items(self.stream()) =~= values_model(before) + (seq![
                    spec_parse_value(s0.bytes, v.model()),
                ] + spec_array_items(self.stream())));
            }
        }
    }

    /// The members of the first object from the position on, as a map
    /// holds them; see `spec_as_map`.
    pub fn as_map(&mut self) -> (r: Vec<(String, GjsonValue)>)
        requires
            old(self).wf(),
            getter_bytes_ok(old(self).stream().bytes),
        ensures
            final(self).wf(),
            members_model(r@) == spec_as_map(old(self).stream()),
    {
        let mut m: Vec<(String, GjsonValue)> = Vec::new();
        proof {
            self.lemma_wf();
        }
        loop
            invariant_except_break
                spec_as_map(self.stream()) == spec_as_map(old(self).stream()),
            invariant
                self.wf(),
                stream_wf(self.stream()),
                self.stream().bytes == old(self).stream().bytes,
                getter_bytes_ok(self.stream().bytes),
                m@.len() == 0,
            ensures
                spec_object_members(self.stream(), None, Seq::empty()) == spec_as_map(old(self).stream()),
                m@.len() == 0,
            decreases stream_left(self.stream()),
        {
            proof {
                lemma_peek_next(self.stream());
            }
            let c = self.peek();
            match c {
                None => {
                    proof {
                        assert(members_model(m@) =~= Seq::<(Seq<char>, GjsonValueModel)>::empty());
                    }
                    return m;
                },
                Some(b) => {
                    self.next_byte();
                    proof {
                        self.lemma_wf();
                    }
                    if b == chars::LBRACE {
                        break;
                    }
                },
            }
        }
        let ghost target = spec_object_members(self.stream(), None, Seq::empty());
        let mut key: Option<String> = None;
        proof {
            assert(members_model(m@) =~= Seq::<(Seq<char>, GjsonValueModel)>::empty());
        }
        loop
            invariant
                self.wf(),
                stream_wf(self.stream()),
                self.stream().bytes == old(self).stream().bytes,
                getter_bytes_ok(self.stream().bytes),
                spec_object_members(self.stream(), key_model(key), members_model(m@)) == target,
                target == spec_as_map(old(self).stream()),
            decreases stream_left(self.stream()),
        {
            proof {
                lemma_read_next(self.stream());
            }
            let v = self.read_next_value();
            proof {
                self.lemma_wf();
            }
            if !v.value_exists() {
                return m;
            }
            match key {
                None => match v {
                    ParserValue::String(a, e) => {
                        key = Some(utf8_lossy(self.bytes_slice(a + 1, e - 1)));
                    },
                    _ => {
                        return m;
                    },
                },
                Some(k) => {
                    let x = self.parse_value(&v);
                    members_put(&mut m, k, x);
                    key = None;
                },
            }
        }
    }

    /// Reads the next value; see `spec_read_next`.
    fn read_next_value(&mut self) -> (r: ParserValue)
        requires
            old(self).wf(),
            getter_bytes_ok(old(self).stream().bytes),
        ensures
            final(self).wf(),
            (r.model(), final(self).stream()) == spec_read_next(old(self).stream()),
    {
        proof {
            self.lemma_wf();
        }
        let ghost target = spec_read_next(self.stream());
        loop
            invariant
                self.wf(),
                stream_wf(self.stream()),
                getter_bytes_ok(self.stream().bytes),
                target == spec_read_next(old(self).stream()),
                spec_read_next(self.stream()) == target,
            decreases stream_left(self.stream()),
        {
            proof {
                lemma_peek_next(self.stream());
                lemma_read_next(self.stream());
            }
            let c = self.peek();
            match c {
                None => {
                    return ParserValue::NotExist;
                },
                Some(b) => {
                    if b == chars::QUOTE {
                        let (start, end) = self.source.read_str_value();
                        return ParserValue::String(start, end);
                    } else if b == chars::LOWER_T || b == chars::LOWER_F {
                        self.source.read_boolean_value();
                        return ParserValue::Boolean(b == chars::LOWER_T);
                    } else if b == chars::LOWER_N {
                        self.source.read_null_value();
                        return ParserValue::Null;
                    } else if b == chars::LBRACE || b == chars::LBRACKET {
                        let (start, end) = self.source.read_json_value();
                        if b == chars::LBRACE {
                            return ParserValue::Object(start, end);
                        } else {
                            return ParserValue::Array(start, end);
                        }
                    } else if chars::DIGIT_0 <= b && b <= chars::DIGIT_9 || b == chars::MINUS || b
                        == chars::DOT {
                        proof {
                            lemma_num_scan(self.stream());
                        }
                        let (start, end) = self.source.read_number_value();
                        return ParserValue::Number(start, end);
                    } else if b == chars::RBRACE || b == chars::RBRACKET {
                        return ParserValue::NotExist;
                    } else {
                        self.next_byte();
                        proof {
                            self.lemma_wf();
                        }
                    }
                },
            }
        }
    }
}

/// The model of the key read last.
pub open spec fn key_model(k: Option<String>) -> Option<Seq<char>> {
    match k {
        Some(s) => Some(s@),
        None => None,
    }
}

/// Puts the member `(k, v)` into `m` as a map does; see `members_insert`.
fn members_put(m: &mut Vec<(String, GjsonValue)>, k: String, v: GjsonValue)
    ensures
        members_model(final(m)@) == members_insert(members_model(old(m)@), k@, v.model()),
{
    let ghost es = members_model(m@);
    let mut i: usize = 0;
    while i < m.len()
        invariant
            i <= m@.len(),
            m@ == old(m)@,
            es == members_model(m@),
            member_index(es, k@, i as int) == member_index(es, k@, 0),
        decreases m@.len() - i,
    {
        let same = crate::util::bytes_eq(m[i].0.as_str().as_bytes(), k.as_str().as_bytes());
        proof {
            vstd::utf8::encode_utf8_decode_utf8(m@[i as int].0@);
            vstd::utf8::encode_utf8_decode_utf8(k@);
        }
        if same {
            let _old = m.remove(i);
            m.insert(i, (k, v));
            proof {
                assert(members_model(m@) =~= es.update(i as int, (k@, v.model())));
            }
            return;
        }
        i += 1;
    }
    let ghost kv = (k@, v.model());
    m.push((k, v));
    proof {
        assert(members_model(m@) =~= es.push(kv));
    }
}

/// Gets the value at `path` in the JSON text `json`; see
/// `spec_getter_get` and `Getter::get`.
pub fn gjson_get(json: &str, path: &str) -> (r: GjsonValue)
    requires
        json.spec_bytes().len() > 0,
        getter_bytes_ok(json.spec_bytes()),
        gpath_ok(path.spec_bytes()),
    ensures
        r.model() == spec_getter_get(json.spec_bytes(), path.spec_bytes()),
{
    let mut g = Getter::new_from_utf8(json.as_bytes());
    g.get(path)
}

/// The first value in the JSON text `json`; see `spec_gjson_parse`.
pub fn gjson_parse(json: &str) -> (r: GjsonValue)
    requires
        getter_bytes_ok(json.spec_bytes()),
    ensures
        r.model() == spec_gjson_parse(json.spec_bytes()),
{
    let mut g = Getter::new_from_utf8(json.as_bytes());
    proof {
        g.lemma_wf();
        lemma_read_next(g.stream());
    }
    let v = g.read_next_value();
    g.parse_value(&v)
}

} // verus!
