//! The queries of the stream getter: a query read from a path
//! (`#(key op value)` or `#[...]`, with `#` after it for all matches), and
//! whether a value passes it. Numbers are kept as their text, and
//! `gjson_query_matches` leaves the comparison of two numbers open; the
//! getter compares them by their exact decimal values.

use crate::chars;
use crate::path::query::{lex_order, op_kind, order_satisfies, spec_op_kind, bytes_order, OpKind};
use crate::element::is_number_byte;
use crate::number::ascii_string;
use crate::text::{spec_utf8_lossy, utf8_lossy};
use crate::utf8_reader::string_skip_end;
use crate::util::{spec_trim, trim_space_u8};
use crate::wild::{is_match_checked, spec_regex_search, wild_regex};
use vstd::prelude::*;
use vstd::utf8::encode_utf8;

verus! {

/// A value of the stream getter: strings decoded, numbers as their text,
/// objects and arrays as their JSON text.
#[derive(Debug, PartialEq, Eq, Clone)]
pub enum GjsonValue {
    String(String),
    Number(String),
    Object(String),
    Array(String),
    Boolean(bool),
    Null,
    NotExist,
}

impl GjsonValue {
    /// Whether the value stands for something found.
    pub fn value_exists(&self) -> (r: bool)
        ensures
            r == !(self is NotExist),
    {
        match self {
            GjsonValue::NotExist => false,
            _ => true,
        }
    }
}

/// A query of the stream getter: whether there is one (`on`), the path
/// of what it compares, its operator as written, the value compared with,
/// and whether all matches are asked for.
pub struct GjsonQuery<'a> {
    pub on: bool,
    pub path: &'a [u8],
    pub op: Option<&'a [u8]>,
    pub value: Option<GjsonValue>,
    pub all: bool,
}

/// The order of two booleans, `false` before `true`: -1, 0 or 1.
pub open spec fn bool_order(a: bool, b: bool) -> int {
    if a == b {
        0
    } else if !a {
        -1
    } else {
        1
    }
}

/// Whether the value `v` passes the query `q`, or nothing where that is not
/// decided here: for two numbers compared by an order or equality operator,
/// and for a wildcard whose expression does not compile. A value that does
/// not exist never passes; a query without an operator passes every other
/// value, one with an operator but no value none; strings compare
/// byte by byte or by wildcard (`%`, `!%`), booleans with `false` first,
/// null only by `=`, `==` (passing) and `!=` (failing); anything else, or
/// values of different kinds, fail.
pub open spec fn query_matches_model(q: GjsonQueryModel, v: GjsonValueModel) -> Option<bool> {
    if v is NotExist {
        Some(false)
    } else {
        match q.op {
            None => Some(true),
            Some(op) => {
                let k = spec_op_kind(op);
                match q.value {
                None => Some(false),
                Some(target) => match v {
                    GjsonValueModel::String(s1) => match target {
                        GjsonValueModel::String(s2) => match k {
                            OpKind::Like => spec_regex_search(wild_regex(s2), s1),
                            OpKind::NotLike => match spec_regex_search(wild_regex(s2), s1) {
                                Some(b) => Some(!b),
                                None => None,
                            },
                            _ => Some(order_satisfies(k, lex_order(encode_utf8(s1), encode_utf8(s2)))),
                        },
                        _ => Some(false),
                    },
                    GjsonValueModel::Number(_) => match target {
                        GjsonValueModel::Number(_) => match k {
                            OpKind::Like | OpKind::NotLike | OpKind::Other => Some(false),
                            _ => None,
                        },
                        _ => Some(false),
                    },
                    GjsonValueModel::Boolean(b1) => match target {
                        GjsonValueModel::Boolean(b2) => Some(order_satisfies(k, bool_order(b1, b2))),
                        _ => Some(false),
                    },
                    GjsonValueModel::Null => match k {
                        OpKind::Eq => Some(true),
                        _ => Some(false),
                    },
                    _ => Some(false),
                },
                }
            },
        }
    }
}

/// `query_matches_model` on a query and a value.
pub open spec fn spec_gjson_query_matches(q: GjsonQuery, v: GjsonValue) -> Option<bool> {
    query_matches_model(q.model(), v.model())
}

/// Whether the value `v` passes the query `q`; see
/// `spec_gjson_query_matches`. A query with an operator but no value to
/// compare with passes nothing.
pub fn gjson_query_matches(q: &GjsonQuery, v: &GjsonValue) -> (r: Option<bool>)
    ensures
        r == spec_gjson_query_matches(*q, *v),
{
    if !v.value_exists() {
        return Some(false);
    }
    let op = match q.op {
        Some(op) => op,
        None => return Some(true),
    };
    let k = op_kind(op);
    let target = match &q.value {
        Some(t) => t,
        None => return Some(false),
    };
    match v {
        GjsonValue::String(s1) => match target {
            GjsonValue::String(s2) => match k {
                OpKind::Like => is_match_checked(s1.as_str(), s2.as_str()),
                OpKind::NotLike => match is_match_checked(s1.as_str(), s2.as_str()) {
                    Some(b) => Some(!b),
                    None => None,
                },
                _ => {
                    let o = bytes_order(s1.as_str().as_bytes(), s2.as_str().as_bytes());
                    Some(order_holds(&k, o))
                },
            },
            _ => Some(false),
        },
        GjsonValue::Number(_) => match target {
            GjsonValue::Number(_) => match k {
                OpKind::Like | OpKind::NotLike | OpKind::Other => Some(false),
                _ => None,
            },
            _ => Some(false),
        },
        GjsonValue::Boolean(b1) => match target {
            GjsonValue::Boolean(b2) => {
                let o: i8 = if *b1 == *b2 {
                    0
                } else if !*b1 {
                    -1
                } else {
                    1
                };
                Some(order_holds(&k, o))
            },
            _ => Some(false),
        },
        GjsonValue::Null => match k {
            OpKind::Eq => Some(true),
            _ => Some(false),
        },
        _ => Some(false),
    }
}

/// Whether the comparison result `o` satisfies the operator `k`; see
/// `order_satisfies`.
pub(crate) fn order_holds(k: &OpKind, o: i8) -> (r: bool)
    ensures
        r == order_satisfies(*k, o as int),
{
    match k {
        OpKind::Eq => o == 0,
        OpKind::Ne => o != 0,
        OpKind::Gt => o > 0,
        OpKind::Ge => o >= 0,
        OpKind::Lt => o < 0,
        OpKind::Le => o <= 0,
        _ => false,
    }
}

/// The model of a `GjsonValue`: texts as characters, a number as the
/// bytes it was written with.
pub enum GjsonValueModel {
    String(Seq<char>),
    Number(Seq<u8>),
    Object(Seq<char>),
    Array(Seq<char>),
    Boolean(bool),
    Null,
    NotExist,
}

impl GjsonValue {
    pub open spec fn model(&self) -> GjsonValueModel {
        match self {
            GjsonValue::String(s) => GjsonValueModel::String(s@),
            GjsonValue::Number(s) => GjsonValueModel::Number(encode_utf8(s@)),
            GjsonValue::Object(s) => GjsonValueModel::Object(s@),
            GjsonValue::Array(s) => GjsonValueModel::Array(s@),
            GjsonValue::Boolean(b) => GjsonValueModel::Boolean(*b),
            GjsonValue::Null => GjsonValueModel::Null,
            GjsonValue::NotExist => GjsonValueModel::NotExist,
        }
    }
}

/// The model of a `GjsonQuery`.
pub struct GjsonQueryModel {
    pub on: bool,
    pub path: Seq<u8>,
    pub op: Option<Seq<u8>>,
    pub value: Option<GjsonValueModel>,
    pub all: bool,
}

impl<'a> GjsonQuery<'a> {
    pub open spec fn model(&self) -> GjsonQueryModel {
        GjsonQueryModel {
            on: self.on,
            path: self.path@,
            op: match self.op {
                Some(o) => Some(o@),
                None => None,
            },
            value: match self.value {
                Some(v) => Some(v.model()),
                None => None,
            },
            all: self.all,
        }
    }
}

/// The model of an optional query.
pub open spec fn query_option_model(r: Option<GjsonQuery>) -> Option<GjsonQueryModel> {
    match r {
        Some(q) => Some(q.model()),
        None => None,
    }
}

/// The bytes that write a query's operator.
pub open spec fn is_query_op(c: u8) -> bool {
    c == chars::BANG || c == chars::EQ || c == chars::LT || c == chars::GT || c == chars::PERCENT
}

/// The scan of a query's text `v` for its closing bracket, from position
/// `o` (the byte last read) at bracket depth `depth`, with `j` the
/// position of the first operator byte at depth one (0 for none so far):
/// a backslash skips the byte after it, a string is skipped as a whole,
/// and the bracket that closes depth one ends it. Returns the position
/// where it ended, the depth there (0 when the bracket closed) and `j`.
pub open spec fn gq_scan(v: Seq<u8>, o: int, depth: int, j: int) -> (int, int, int)
    decreases v.len() - o,
{
    if o < 0 || o + 1 >= v.len() {
        (o, depth, j)
    } else {
        let o2 = o + 1;
        let b = v[o2];
        if is_query_op(b) {
            gq_scan(v, o2, depth, if depth == 1 && j == 0 { o2 } else { j })
        } else if b == chars::BACKSLASH {
            gq_scan(v, if o2 + 1 < v.len() { o2 + 1 } else { o2 }, depth, j)
        } else if b == chars::QUOTE {
            let e = string_skip_end(v, o2 + 1);
            proof {
                lemma_string_skip_end_bounds(v, o2 + 1);
            }
            gq_scan(v, if e > o2 { e } else { o2 }, depth, j)
        } else if b == chars::LBRACKET || b == chars::LPAREN {
            gq_scan(v, o2, depth + 1, j)
        } else if b == chars::RBRACKET || b == chars::RPAREN {
            if depth - 1 == 0 {
                (o2, 0, j)
            } else {
                gq_scan(v, o2, depth - 1, j)
            }
        } else {
            gq_scan(v, o2, depth, j)
        }
    }
}

/// Where the run of digits, minus signs and dots that starts at `q` ends:
/// the first other byte, or the length when the run reaches the end.
pub open spec fn num_run_end(t: Seq<u8>, q: int) -> int
    decreases t.len() - q,
{
    if q < 0 || q >= t.len() {
        t.len() as int
    } else if is_number_byte(t[q]) {
        num_run_end(t, q + 1)
    } else {
        q
    }
}

/// Text that reads as a floating-point number: an optional minus sign,
/// then digits with at most one dot among them, and at least one digit.
pub open spec fn float_literal(s: Seq<u8>) -> bool {
    float_digits(if s.len() > 0 && s[0] == chars::MINUS { s.drop_first() } else { s })
}

/// Digits with at most one dot among them, and at least one digit.
pub open spec fn float_digits(d: Seq<u8>) -> bool {
    &&& exists|k: int| 0 <= k < d.len() && chars::is_digit(#[trigger] d[k])
    &&& forall|k: int| 0 <= k < d.len() ==> chars::is_digit(#[trigger] d[k]) || d[k] == chars::DOT
    &&& forall|k1: int, k2: int|
        #![trigger d[k1], d[k2]]
        0 <= k1 < k2 < d.len() ==> !(d[k1] == chars::DOT && d[k2] == chars::DOT)
}

/// The value of a query read from its text `t` (which starts with the
/// operator), from position `q`, with `k` the position of the last
/// operator byte or space so far: operator bytes and spaces are passed
/// over; `t`, `f` and `n` give a boolean or null, a quote the string up to
/// the closing quote, a digit or minus sign the number that its run of
/// digits, signs and dots writes; anything else, or the end, no value.
pub open spec fn gq_value(t: Seq<u8>, q: int, k: int) -> (GjsonValueModel, int)
    decreases t.len() - q,
{
    if q < 0 || q >= t.len() {
        (GjsonValueModel::NotExist, k)
    } else {
        let b = t[q];
        if is_query_op(b) || b == chars::SPACE {
            if q + 1 < t.len() {
                gq_value(t, q + 1, q)
            } else {
                (GjsonValueModel::NotExist, q)
            }
        } else if b == chars::LOWER_T {
            (GjsonValueModel::Boolean(true), k)
        } else if b == chars::LOWER_F {
            (GjsonValueModel::Boolean(false), k)
        } else if b == chars::LOWER_N {
            (GjsonValueModel::Null, k)
        } else if b == chars::QUOTE {
            let e = string_skip_end(t, q + 1);
            (
                GjsonValueModel::String(
                    spec_utf8_lossy(if q + 1 < e { t.subrange(q + 1, e) } else { Seq::empty() }),
                ),
                k,
            )
        } else if chars::is_digit(b) || b == chars::MINUS {
            (GjsonValueModel::Number(t.subrange(q, num_run_end(t, q))), k)
        } else {
            (GjsonValueModel::NotExist, k)
        }
    }
}

/// The value text `t` reads to an end: a number in it neither runs to the
/// very end of the text (where the reading would not stop) nor fails to
/// read as a floating-point number.
pub open spec fn gq_value_ok(t: Seq<u8>, q: int) -> bool
    decreases t.len() - q,
{
    if q < 0 || q >= t.len() {
        true
    } else {
        let b = t[q];
        if is_query_op(b) || b == chars::SPACE {
            q + 1 < t.len() ==> gq_value_ok(t, q + 1)
        } else if chars::is_digit(b) || b == chars::MINUS {
            num_run_end(t, q) < t.len() && float_literal(t.subrange(q, num_run_end(t, q)))
        } else {
            true
        }
    }
}

/// Where the reading of a query that stands alone in `v` starts: on the
/// bracket after the `#`.
pub open spec fn gq_fresh_start(v: Seq<u8>) -> int {
    if v.len() > 1 {
        1
    } else {
        0
    }
}

/// Where the query text in `v` closes, the depth there and the first
/// operator position, for a scan that starts after position `os`.
pub open spec fn gq_close_from(v: Seq<u8>, os: int) -> (int, int, int) {
    gq_scan(v, os, 1, 0)
}

/// Whether `#` follows the closing bracket at `i`.
pub open spec fn gq_all(v: Seq<u8>, i: int) -> bool {
    i + 1 < v.len() && v[i + 1] == chars::HASH
}

/// The position the reading of the query text stands on after its end:
/// the `#` when there is one, else the closing bracket, or the byte before
/// it when the bracket is the last byte.
pub open spec fn gq_after(v: Seq<u8>, i: int) -> int {
    if i + 1 < v.len() {
        if gq_all(v, i) {
            i + 1
        } else {
            i
        }
    } else {
        i - 1
    }
}

/// The text after the operator: from the operator to the position after
/// the query's end.
pub open spec fn gq_value_text(v: Seq<u8>, j: int, off: int) -> Seq<u8> {
    if j < off {
        v.subrange(j, off)
    } else {
        Seq::empty()
    }
}

/// The query written in `v` and read from after position `os`: nothing
/// when its bracket does not close; else a query whose path is the trimmed
/// text from position 2 up to the first operator at depth one (or up to
/// the closing bracket), whose operator runs from there through the last
/// operator byte or space before the value, whose value is read by
/// `gq_value`, and which asks for all matches when `#` follows the bracket.
pub open spec fn spec_gjson_query_from(v: Seq<u8>, os: int) -> Option<GjsonQueryModel> {
    let s = gq_close_from(v, os);
    let i = s.0;
    let j = s.2;
    if s.1 > 0 {
        None
    } else {
        let all = gq_all(v, i);
        let off = gq_after(v, i);
        if j > 0 {
            let t = gq_value_text(v, j, off);
            let r = gq_value(t, 0, 0);
            Some(
                GjsonQueryModel {
                    on: true,
                    path: spec_trim(if 2 < j <= off { v.subrange(2, j) } else { Seq::empty() }, chars::SPACE),
                    op: Some(t.subrange(0, r.1 + 1)),
                    value: Some(r.0),
                    all,
                },
            )
        } else {
            Some(
                GjsonQueryModel {
                    on: true,
                    path: spec_trim(if 2 < i <= off { v.subrange(2, i) } else { Seq::empty() }, chars::SPACE),
                    op: None,
                    value: None,
                    all,
                },
            )
        }
    }
}

/// The query written in `v` (which starts with `#` and a bracket).
pub open spec fn spec_gjson_query(v: Seq<u8>) -> Option<GjsonQueryModel> {
    spec_gjson_query_from(v, gq_fresh_start(v))
}

/// The query text read from after `os` in `v` can be read: where it has an
/// operator, the text after it is not empty and reads to an end.
pub open spec fn gjson_query_ok_from(v: Seq<u8>, os: int) -> bool {
    let s = gq_close_from(v, os);
    s.1 <= 0 && s.2 > 0 ==> {
        let t = gq_value_text(v, s.2, gq_after(v, s.0));
        t.len() > 0 && gq_value_ok(t, 0)
    }
}

/// The query text `v` can be read: it is not empty, and where it has an
/// operator, the text after it is not empty and reads to an end.
pub open spec fn gjson_query_ok(v: Seq<u8>) -> bool {
    v.len() > 0 && gjson_query_ok_from(v, gq_fresh_start(v))
}

/// A string scan stops no earlier than the byte before where it starts
/// and no later than the last byte.
pub proof fn lemma_string_skip_end_bounds(s: Seq<u8>, k: int)
    requires
        1 <= k,
    ensures
        k - 1 <= string_skip_end(s, k),
        k <= s.len() ==> string_skip_end(s, k) < s.len(),
    decreases s.len() - k,
{
    if k < s.len() && s[k] != chars::QUOTE {
        if s[k] == chars::BACKSLASH {
            if k + 1 < s.len() {
                lemma_string_skip_end_bounds(s, k + 2);
            }
        } else {
            lemma_string_skip_end_bounds(s, k + 1);
        }
    }
}

/// Where the string scan from `k` stops; see `string_skip_end`.
fn string_end(s: &[u8], start: usize) -> (r: usize)
    requires
        1 <= start <= s@.len(),
    ensures
        r == string_skip_end(s@, start as int),
{
    let n = s.len();
    let mut k = start;
    while k < n
        invariant
            1 <= k <= n,
            n == s@.len(),
            string_skip_end(s@, k as int) == string_skip_end(s@, start as int),
        decreases n - k,
    {
        if s[k] == chars::QUOTE {
            return k;
        }
        if s[k] == chars::BACKSLASH {
            if k + 1 < n {
                k = k + 2;
            } else {
                return k;
            }
        } else {
            k = k + 1;
        }
    }
    k - 1
}

/// Where the run of digits, minus signs and dots from `q` ends; see
/// `num_run_end`.
fn num_end(t: &[u8], q: usize) -> (r: usize)
    requires
        q <= t@.len(),
    ensures
        r == num_run_end(t@, q as int),
        q <= r <= t@.len(),
        forall|x: int| q <= x < r ==> is_number_byte(#[trigger] t@[x]),
{
    let m = t.len();
    let mut e = q;
    while e < m && crate::element::number_byte(t[e])
        invariant
            q <= e <= m,
            m == t@.len(),
            num_run_end(t@, e as int) == num_run_end(t@, q as int),
            forall|x: int| q <= x < e ==> is_number_byte(#[trigger] t@[x]),
        decreases m - e,
    {
        e += 1;
    }
    e
}

/// An empty slice of `v`.
fn empty_of<'a>(v: &'a [u8]) -> (r: &'a [u8])
    ensures
        r@ == Seq::<u8>::empty(),
{
    let e = &v[0..0];
    assert(e@ =~= Seq::<u8>::empty());
    e
}

/// Reads the value of a query from the text after its operator, with the
/// position of the last operator byte or space; see `gq_value`.
fn query_value(t: &[u8]) -> (r: (GjsonValue, usize))
    requires
        t@.len() > 0,
        gq_value_ok(t@, 0),
    ensures
        (r.0.model(), r.1 as int) == gq_value(t@, 0, 0),
        r.1 < t@.len(),
{
    let m = t.len();
    let mut q: usize = 0;
    let mut k: usize = 0;
    loop
        invariant
            m == t@.len(),
            q < m,
            k < m,
            gq_value(t@, q as int, k as int) == gq_value(t@, 0, 0),
            gq_value_ok(t@, q as int),
        decreases m - q,
    {
        let b = t[q];
        if b == chars::BANG || b == chars::EQ || b == chars::LT || b == chars::GT || b
            == chars::PERCENT || b == chars::SPACE {
            k = q;
            if q + 1 < m {
                q += 1;
            } else {
                return (GjsonValue::NotExist, k);
            }
        } else if b == chars::LOWER_T {
            return (GjsonValue::Boolean(true), k);
        } else if b == chars::LOWER_F {
            return (GjsonValue::Boolean(false), k);
        } else if b == chars::LOWER_N {
            return (GjsonValue::Null, k);
        } else if b == chars::QUOTE {
            let e = string_end(t, q + 1);
            proof {
                lemma_string_skip_end_bounds(t@, q + 1);
            }
            let s = if q + 1 < e {
                &t[q + 1..e]
            } else {
                empty_of(t)
            };
            return (GjsonValue::String(utf8_lossy(s)), k);
        } else if chars::DIGIT_0 <= b && b <= chars::DIGIT_9 || b == chars::MINUS {
            let e = num_end(t, q);
            let text = &t[q..e];
            proof {
                assert forall|x: int| 0 <= x < text@.len() implies #[trigger] text@[x] < 128 by {
                    assert(text@[x] == t@[q + x]);
                    assert(is_number_byte(t@[q + x]));
                }
            }
            return (GjsonValue::Number(ascii_string(text)), k);
        } else {
            return (GjsonValue::NotExist, k);
        }
    }
}

/// The scan of the query in `v` from after position `os` for its closing
/// bracket; see `gq_close_from`.
pub fn gq_close_scan(v: &[u8], os: usize) -> (r: (usize, usize, usize))
    requires
        os < v@.len(),
    ensures
        (r.0 as int, r.1 as int, r.2 as int) == gq_close_from(v@, os as int),
        os <= r.0 < v@.len(),
        r.2 <= r.0,
        r.1 == 0 ==> r.0 > os,
{
    let n = v.len();
    let mut o: usize = os;
    let mut depth: usize = 1;
    let mut j: usize = 0;
    let ghost target = gq_close_from(v@, os as int);
    loop
        invariant_except_break
            gq_scan(v@, o as int, depth as int, j as int) == target,
            1 <= depth <= o + 1,
        invariant
            n == v@.len(),
            n > 0,
            o < n,
            os <= o,
            j <= o,
            target == gq_close_from(v@, os as int),
        ensures
            (o as int, depth as int, j as int) == target,
            depth == 0 ==> o > os,
        decreases n - o,
    {
        if o + 1 >= n {
            break;
        }
        let o2 = o + 1;
        let b = v[o2];
        if b == chars::BANG || b == chars::EQ || b == chars::LT || b == chars::GT || b
            == chars::PERCENT {
            if depth == 1 && j == 0 {
                j = o2;
            }
            o = o2;
        } else if b == chars::BACKSLASH {
            o = if o2 + 1 < n {
                o2 + 1
            } else {
                o2
            };
        } else if b == chars::QUOTE {
            let e = string_end(v, o2 + 1);
            proof {
                lemma_string_skip_end_bounds(v@, o2 + 1);
            }
            o = if e > o2 {
                e
            } else {
                o2
            };
        } else if b == chars::LBRACKET || b == chars::LPAREN {
            depth += 1;
            o = o2;
        } else if b == chars::RBRACKET || b == chars::RPAREN {
            if depth == 1 {
                depth = 0;
                o = o2;
                break;
            }
            depth -= 1;
            o = o2;
        } else {
            o = o2;
        }
    }
    (o, depth, j)
}

/// Whether the value text `t` of a query reads to an end; see
/// `gq_value_ok`.
pub fn value_text_ok(t: &[u8]) -> (r: bool)
    ensures
        r == gq_value_ok(t@, 0),
{
    let m = t.len();
    if m == 0 {
        return true;
    }
    let mut q: usize = 0;
    loop
        invariant
            m == t@.len(),
            q < m,
            gq_value_ok(t@, q as int) == gq_value_ok(t@, 0),
        decreases m - q,
    {
        let b = t[q];
        if b == chars::BANG || b == chars::EQ || b == chars::LT || b == chars::GT || b
            == chars::PERCENT || b == chars::SPACE {
            if q + 1 < m {
                q += 1;
            } else {
                return true;
            }
        } else if chars::DIGIT_0 <= b && b <= chars::DIGIT_9 || b == chars::MINUS {
            let e = num_end(t, q);
            if e >= m {
                return false;
            }
            return float_text(&t[q..e]);
        } else {
            return true;
        }
    }
}

/// Whether `s` reads as a floating-point number; see `float_literal`.
pub fn float_text(s: &[u8]) -> (r: bool)
    ensures
        r == float_literal(s@),
{
    let n = s.len();
    let d: &[u8] = if n > 0 && s[0] == chars::MINUS {
        &s[1..n]
    } else {
        s
    };
    proof {
        if n > 0 && s@[0] == chars::MINUS {
            assert(d@ =~= s@.drop_first());
        }
        assert(float_literal(s@) == float_digits(d@));
    }
    let m = d.len();
    let mut k: usize = 0;
    let mut digit = false;
    let mut dot = false;
    while k < m
        invariant
            k <= m,
            m == d@.len(),
            float_literal(s@) == float_digits(d@),
            digit <==> exists|i: int| 0 <= i < k && chars::is_digit(#[trigger] d@[i]),
            dot <==> exists|i: int| 0 <= i < k && #[trigger] d@[i] == chars::DOT,
            forall|i: int| 0 <= i < k ==> chars::is_digit(#[trigger] d@[i]) || d@[i] == chars::DOT,
            forall|i1: int, i2: int|
                #![trigger d@[i1], d@[i2]]
                0 <= i1 < i2 < k ==> !(d@[i1] == chars::DOT && d@[i2] == chars::DOT),
        decreases m - k,
    {
        let c = d[k];
        if chars::DIGIT_0 <= c && c <= chars::DIGIT_9 {
            digit = true;
        } else if c == chars::DOT {
            if dot {
                proof {
                    let i1 = choose|i1: int| 0 <= i1 < k && #[trigger] d@[i1] == chars::DOT;
                    assert(d@[i1] == chars::DOT && d@[k as int] == chars::DOT);
                    assert(!float_digits(d@));
                }
                return false;
            }
            dot = true;
        } else {
            proof {
                assert(!(chars::is_digit(d@[k as int]) || d@[k as int] == chars::DOT));
                assert(!float_digits(d@));
            }
            return false;
        }
        k += 1;
    }
    digit
}

/// Reads the query written in `v`, which starts with `#` and a bracket;
/// see `spec_gjson_query`.
pub fn gjson_parse_query<'a>(v: &'a [u8]) -> (r: Option<GjsonQuery<'a>>)
    requires
        gjson_query_ok(v@),
    ensures
        query_option_model(r) == spec_gjson_query(v@),
{
    let n = v.len();
    let os: usize = if n > 1 {
        1
    } else {
        0
    };
    gjson_parse_query_from(v, os).0
}

/// Reads the query in `v` with a scan that starts after position `os`; see
/// `spec_gjson_query_from`. Also returns the position the reading stands
/// on after the query (see `gq_after`).
pub fn gjson_parse_query_from<'a>(v: &'a [u8], os: usize) -> (r: (Option<GjsonQuery<'a>>, usize))
    requires
        os < v@.len(),
        gjson_query_ok_from(v@, os as int),
    ensures
        query_option_model(r.0) == spec_gjson_query_from(v@, os as int),
        gq_close_from(v@, os as int).1 <= 0 ==> r.1 == gq_after(v@, gq_close_from(v@, os as int).0),
        gq_close_from(v@, os as int).1 <= 0 ==> os < gq_close_from(v@, os as int).0 < v@.len(),
{
    let n = v.len();
    let (o, depth, j) = gq_close_scan(v, os);
    if depth > 0 {
        return (None, o);
    }
    let i = o;
    let all = i + 1 < n && v[i + 1] == chars::HASH;
    let off = if i + 1 < n {
        if all {
            i + 1
        } else {
            i
        }
    } else {
        i - 1
    };
    if j > 0 {
        let raw_path = if 2 < j && j <= off {
            &v[2..j]
        } else {
            empty_of(v)
        };
        let t = if j < off {
            &v[j..off]
        } else {
            empty_of(v)
        };
        let (val, k) = query_value(t);
        let op = &t[0..k + 1];
        (Some(GjsonQuery { on: true, path: trim_space_u8(raw_path), op: Some(op), value: Some(val), all }), off)
    } else {
        let raw_path = if 2 < i && i <= off {
            &v[2..i]
        } else {
            empty_of(v)
        };
        (Some(GjsonQuery { on: true, path: trim_space_u8(raw_path), op: None, value: None, all }), off)
    }
}

} // verus!
