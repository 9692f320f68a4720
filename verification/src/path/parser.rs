//! The path parser.

use crate::chars;
use crate::element::{
    false_u8, lemma_number_scan_bounds, lemma_string_scan_bounds, null_u8, number_scan, number_u8,
    string_close, string_u8, true_u8,
};
use crate::path::query::{empty_query_model, Query, QueryModel, QueryValue, QueryValueModel};
use crate::path::sub_selector::{parse_selectors, push_selector, selector_scan, spec_parse_selectors, SelectorModel};
use crate::path::{default_path_model, path_measure, path_wf, Path, PathModel};
use crate::util::{lemma_trim_shape, spec_trim, trim_space_u8};
use crate::Error;
use crate::Result;
use vstd::prelude::*;

verus! {

/// The bytes an operator of a query is written with.
pub open spec fn is_op_byte(c: u8) -> bool {
    c == chars::BANG || c == chars::EQ || c == chars::LT || c == chars::GT || c == chars::PERCENT
}

/// Bytes that open a group in a path.
pub open spec fn is_open_byte(c: u8) -> bool {
    c == chars::LBRACKET || c == chars::LPAREN || c == chars::LBRACE
}

/// Bytes that close a group in a path.
pub open spec fn is_close_byte(c: u8) -> bool {
    c == chars::RBRACKET || c == chars::RPAREN || c == chars::RBRACE
}

/// The value a query compares against, read from the start of `b`, with
/// the number of bytes it takes: `true`, `false` and `null` are taken by
/// their length without looking at the letters (too short an input is an
/// `Eof` error), a string loses its quotes, a number is the run of number
/// bytes. Anything else names no value.
pub open spec fn spec_query_value(b: Seq<u8>) -> core::result::Result<(QueryValueModel, int), Error> {
    if b.len() == 0 {
        Ok((QueryValueModel::NotExist, 0))
    } else {
        let c = b[0];
        if c == chars::LOWER_T {
            if b.len() < 4 {
                Err(Error::Eof)
            } else {
                Ok((QueryValueModel::Boolean(true), 4))
            }
        } else if c == chars::LOWER_F {
            if b.len() < 5 {
                Err(Error::Eof)
            } else {
                Ok((QueryValueModel::Boolean(false), 5))
            }
        } else if c == chars::LOWER_N {
            if b.len() < 4 {
                Err(Error::Eof)
            } else {
                Ok((QueryValueModel::Null, 4))
            }
        } else if c == chars::QUOTE {
            let n = string_close(b, 0);
            if n < 2 {
                Ok((QueryValueModel::NotExist, n))
            } else {
                Ok((QueryValueModel::String(b.subrange(1, n - 1)), n))
            }
        } else if (chars::DIGIT_0 <= c && c <= chars::DIGIT_9) || c == chars::MINUS {
            let n = number_scan(b, 0);
            Ok((QueryValueModel::Number(b.subrange(0, n)), n))
        } else {
            Ok((QueryValueModel::NotExist, 0))
        }
    }
}

pub proof fn lemma_query_value_offset(b: Seq<u8>)
    ensures
        spec_query_value(b) matches Ok((_, n)) ==> 0 <= n <= b.len(),
{
    if b.len() > 0 {
        lemma_string_scan_bounds(b, 1);
        lemma_number_scan_bounds(b, 0);
    }
}

/// Reads the value a query compares against; see `spec_query_value`.
pub fn parser_query_value(bytes: &[u8]) -> (r: Result<(QueryValue, usize)>)
    ensures
        match r {
            Ok((v, n)) => spec_query_value(bytes@) == Ok::<(QueryValueModel, int), Error>(
                (v.model(), n as int),
            ),
            Err(e) => spec_query_value(bytes@) == Err::<(QueryValueModel, int), Error>(e),
        },
{
    if bytes.len() == 0 {
        return Ok((QueryValue::NotExist, 0));
    }
    let c = bytes[0];
    if c == chars::LOWER_T {
        true_u8(bytes)?;
        Ok((QueryValue::Boolean(true), 4))
    } else if c == chars::LOWER_F {
        false_u8(bytes)?;
        Ok((QueryValue::Boolean(false), 5))
    } else if c == chars::LOWER_N {
        null_u8(bytes)?;
        Ok((QueryValue::Null, 4))
    } else if c == chars::QUOTE {
        proof {
            lemma_string_scan_bounds(bytes@, 1);
        }
        let (s, _rest, _esc) = string_u8(bytes)?;
        if s.len() < 2 {
            Ok((QueryValue::NotExist, s.len()))
        } else {
            let inner = &s[1..s.len() - 1];
            assert(inner@ =~= bytes@.subrange(1, s@.len() - 1));
            Ok((QueryValue::String(inner), s.len()))
        }
    } else if (chars::DIGIT_0 <= c && c <= chars::DIGIT_9) || c == chars::MINUS {
        proof {
            lemma_number_scan_bounds(bytes@, 0);
        }
        let (n, _rest) = number_u8(bytes)?;
        Ok((QueryValue::Number(n), n.len()))
    } else {
        Ok((QueryValue::NotExist, 0))
    }
}

/// Where the scan of a query stopped and what it saw: the position it
/// stopped at, the end of the query's path when it met the closing bracket,
/// whether a `#` asked for every match, where the operator stands, and the
/// value last read after it.
pub struct QueryScan {
    pub i: int,
    pub end: int,
    pub all: bool,
    pub op_exist: bool,
    pub op_start: int,
    pub op_end: int,
    pub value: Option<QueryValueModel>,
}

/// The scan of `parse_query` from position `i` at bracket depth `depth`.
/// Operator bytes at depth one make up the operator (the first one starts
/// it, each later one moves its end by one); after an operator, any other
/// byte that is not a bracket or a space starts a value. The bracket that
/// brings the depth to zero ends the scan.
pub open spec fn query_scan(
    w: Seq<u8>,
    i: int,
    depth: int,
    op_exist: bool,
    op_start: int,
    op_end: int,
    value: Option<QueryValueModel>,
) -> core::result::Result<QueryScan, Error>
    decreases w.len() + 1 - i,
{
    if i < 0 || i >= w.len() {
        Ok(QueryScan { i, end: 0, all: false, op_exist, op_start, op_end, value })
    } else {
        let c = w[i];
        if is_op_byte(c) {
            if depth == 1 {
                if !op_exist {
                    query_scan(w, i + 1, depth, true, i, i, value)
                } else {
                    query_scan(w, i + 1, depth, op_exist, op_start, op_end + 1, value)
                }
            } else {
                query_scan(w, i + 1, depth, op_exist, op_start, op_end, value)
            }
        } else if c == chars::LBRACKET || c == chars::LPAREN {
            query_scan(w, i + 1, depth + 1, op_exist, op_start, op_end, value)
        } else if c == chars::RBRACKET || c == chars::RPAREN {
            if depth - 1 == 0 {
                if i + 1 < w.len() && w[i + 1] == chars::HASH {
                    Ok(QueryScan { i: i + 1, end: i, all: true, op_exist, op_start, op_end, value })
                } else if i + 1 < w.len() {
                    Ok(QueryScan { i, end: i - 1, all: false, op_exist, op_start, op_end, value })
                } else {
                    Ok(QueryScan { i, end: i, all: false, op_exist, op_start, op_end, value })
                }
            } else {
                query_scan(w, i + 1, depth - 1, op_exist, op_start, op_end, value)
            }
        } else if c == chars::SPACE {
            query_scan(w, i + 1, depth, op_exist, op_start, op_end, value)
        } else if op_exist {
            match spec_query_value(w.subrange(i, w.len() as int)) {
                Err(e) => Err(e),
                Ok((val, off)) => {
                    proof {
                        lemma_query_value_offset(w.subrange(i, w.len() as int));
                    }
                    let value2 = if !(val is NotExist) {
                        Some(val)
                    } else {
                        value
                    };
                    let i2 = if off > 1 {
                        i + off - 1
                    } else {
                        i
                    };
                    query_scan(w, i2 + 1, depth, op_exist, op_start, op_end, value2)
                },
            }
        } else {
            query_scan(w, i + 1, depth, op_exist, op_start, op_end, value)
        }
    }
}

/// A query that closes at its very first byte with another byte, not a
/// `#`, after it: reading it would step before its start.
pub open spec fn query_stuck(w: Seq<u8>) -> bool {
    &&& w.len() > 1
    &&& (w[0] == chars::RBRACKET || w[0] == chars::RPAREN)
    &&& w[1] != chars::HASH
}

/// A query that closes at its very first byte without a `#` after it
/// (`#()`, at the end of a path or before more of it): reading it ends
/// where it started, so a path holding it cannot be read on.
pub open spec fn query_closes_at_once(w: Seq<u8>) -> bool {
    &&& w.len() > 0
    &&& (w[0] == chars::RBRACKET || w[0] == chars::RPAREN)
    &&& !(w.len() > 1 && w[1] == chars::HASH)
}

/// The query written at the start of `w` (just after its opening bracket)
/// and where its scan stopped: the path is the trimmed text before the
/// operator, or before the closing bracket, or the whole input.
pub open spec fn spec_parse_query(w: Seq<u8>) -> core::result::Result<(QueryModel, int), Error> {
    if w.len() == 0 {
        Ok((empty_query_model(), 0))
    } else {
        match query_scan(w, 0, 1, false, 0, 0, None) {
            Err(e) => Err(e),
            Ok(s) => Ok(
                (
                    QueryModel {
                        on: true,
                        path: if s.op_exist {
                            spec_trim(w.subrange(0, s.op_start), chars::SPACE)
                        } else if s.end > 0 {
                            spec_trim(w.subrange(0, s.end + 1), chars::SPACE)
                        } else {
                            spec_trim(w, chars::SPACE)
                        },
                        op: if s.op_exist {
                            Some(w.subrange(s.op_start, s.op_end + 1))
                        } else {
                            None
                        },
                        value: s.value,
                        all: s.all,
                    },
                    s.i,
                ),
            ),
        }
    }
}

pub proof fn lemma_query_scan_bounds(
    w: Seq<u8>,
    i: int,
    depth: int,
    op_exist: bool,
    op_start: int,
    op_end: int,
    value: Option<QueryValueModel>,
)
    requires
        0 <= i <= w.len(),
        op_exist ==> 0 <= op_start <= op_end < i,
    ensures
        query_scan(w, i, depth, op_exist, op_start, op_end, value) matches Ok(s) ==> {
            &&& i <= s.i <= w.len()
            &&& s.op_exist ==> 0 <= s.op_start <= s.op_end < s.i
            &&& s.op_exist ==> s.op_end < w.len()
            &&& -1 <= s.end
            &&& (s.end < w.len() || s.end == 0)
        },
    decreases w.len() + 1 - i,
{
    if i < w.len() {
        let c = w[i];
        if is_op_byte(c) {
            if depth == 1 {
                if !op_exist {
                    lemma_query_scan_bounds(w, i + 1, depth, true, i, i, value);
                } else {
                    lemma_query_scan_bounds(w, i + 1, depth, op_exist, op_start, op_end + 1, value);
                }
            } else {
                lemma_query_scan_bounds(w, i + 1, depth, op_exist, op_start, op_end, value);
            }
        } else if c == chars::LBRACKET || c == chars::LPAREN {
            lemma_query_scan_bounds(w, i + 1, depth + 1, op_exist, op_start, op_end, value);
        } else if c == chars::RBRACKET || c == chars::RPAREN {
            if depth - 1 != 0 {
                lemma_query_scan_bounds(w, i + 1, depth - 1, op_exist, op_start, op_end, value);
            }
        } else if c == chars::SPACE {
            lemma_query_scan_bounds(w, i + 1, depth, op_exist, op_start, op_end, value);
        } else if op_exist {
            lemma_query_value_offset(w.subrange(i, w.len() as int));
            match spec_query_value(w.subrange(i, w.len() as int)) {
                Err(e) => {},
                Ok((val, off)) => {
                    let value2 = if !(val is NotExist) {
                        Some(val)
                    } else {
                        value
                    };
                    let i2 = if off > 1 {
                        i + off - 1
                    } else {
                        i
                    };
                    lemma_query_scan_bounds(w, i2 + 1, depth, op_exist, op_start, op_end, value2);
                },
            }
        } else {
            lemma_query_scan_bounds(w, i + 1, depth, op_exist, op_start, op_end, value);
        }
    }
}

/// Where the query's scan stops: never past the input, and past its start
/// unless the query closes at once.
pub proof fn lemma_parse_query_offset(w: Seq<u8>)
    requires
        !query_closes_at_once(w),
    ensures
        spec_parse_query(w) matches Ok((q, off)) ==> 0 <= off <= w.len() && (q.on ==> off >= 1),
{
    if w.len() > 0 {
        lemma_query_scan_bounds(w, 0, 1, false, 0, 0, None);
        let c = w[0];
        if !(c == chars::RBRACKET || c == chars::RPAREN) {
            if is_op_byte(c) {
                lemma_query_scan_bounds(w, 1, 1, true, 0, 0, None);
            } else if c == chars::LBRACKET || c == chars::LPAREN {
                lemma_query_scan_bounds(w, 1, 2, false, 0, 0, None);
            } else {
                lemma_query_scan_bounds(w, 1, 1, false, 0, 0, None);
            }
        }
    }
}

/// Reads the query that `v` holds (it starts just after the opening
/// bracket); see `spec_parse_query`.
pub fn parse_query(v: &[u8]) -> (r: Result<(Query, usize)>)
    requires
        !query_stuck(v@),
    ensures
        match r {
            Ok((q, n)) => spec_parse_query(v@) == Ok::<(QueryModel, int), Error>((q.model(), n as int)),
            Err(e) => spec_parse_query(v@) == Err::<(QueryModel, int), Error>(e),
        },
{
    if v.len() == 0 {
        return Ok((Query::empty(), 0));
    }
    let len = v.len();
    let mut q = Query::empty();
    let mut depth: u128 = 1;
    let mut end: usize = 0;
    let mut all = false;
    let mut op_exist = false;
    let mut op_start: usize = 0;
    let mut op_end: usize = 0;
    let mut value: Option<QueryValue> = None;
    let mut i: usize = 0;
    let mut done = false;
    proof {
        lemma_query_scan_bounds(v@, 0, 1, false, 0, 0, None);
    }
    while i < len && !done
        invariant
            len == v@.len(),
            i <= len,
            depth <= i + 1,
            !done ==> 1 <= depth,
            !done ==> end == 0 && !all,
            done ==> end < len,
            op_exist ==> op_start <= op_end < i,
            !done ==> query_scan(v@, i as int, depth as int, op_exist, op_start as int, op_end as int,
                match value { Some(x) => Some(x.model()), None => None })
                == query_scan(v@, 0, 1, false, 0, 0, None),
            done ==> query_scan(v@, 0, 1, false, 0, 0, None) == Ok::<QueryScan, Error>(QueryScan {
                i: i as int,
                end: end as int,
                all,
                op_exist,
                op_start: op_start as int,
                op_end: op_end as int,
                value: match value { Some(x) => Some(x.model()), None => None },
            }),
            !query_stuck(v@),
            i == 0 && !done ==> depth == 1 && !op_exist,
        decreases len - i, if done { 0int } else { 1int },
    {
        let c = v[i];
        if c == chars::BANG || c == chars::EQ || c == chars::LT || c == chars::GT || c == chars::PERCENT {
            if depth == 1 {
                if !op_exist {
                    op_exist = true;
                    op_start = i;
                    op_end = i;
                } else {
                    op_end += 1;
                }
            }
            i += 1;
        } else if c == chars::LBRACKET || c == chars::LPAREN {
            depth += 1;
            i += 1;
        } else if c == chars::RBRACKET || c == chars::RPAREN {
            let ghost i0 = i as int;
            let ghost d0 = depth as int;
            let ghost vm = match value { Some(x) => Some(x.model()), None => None };
            assert(query_scan(v@, i0, d0, op_exist, op_start as int, op_end as int, vm)
                == query_scan(v@, 0, 1, false, 0, 0, None));
            depth -= 1;
            if depth == 0 {
                if i + 1 < len && v[i + 1] == chars::HASH {
                    all = true;
                    end = i;
                    i += 1;
                } else if i + 1 < len {
                    end = i - 1;
                } else {
                    end = i;
                }
                done = true;
                assert(query_scan(v@, i0, d0, op_exist, op_start as int, op_end as int, vm)
                    == Ok::<QueryScan, Error>(QueryScan {
                    i: i as int,
                    end: end as int,
                    all,
                    op_exist,
                    op_start: op_start as int,
                    op_end: op_end as int,
                    value: vm,
                }));
            } else {
                i += 1;
            }
        } else if c == chars::SPACE {
            i += 1;
        } else if op_exist {
            proof {
                lemma_query_value_offset(v@.subrange(i as int, len as int));
            }
            let (val, offset) = parser_query_value(&v[i..len])?;
            if val.value_exists() {
                value = Some(val);
            }
            if offset > 1 {
                i += offset - 1;
            }
            i += 1;
        } else {
            i += 1;
        }
    }
    q.on = true;
    q.all = all;
    q.value = value;
    if op_exist {
        q.path = trim_space_u8(&v[0..op_start]);
        q.op = Some(&v[op_start..op_end + 1]);
    } else if end > 0 {
        q.path = trim_space_u8(&v[0..end + 1]);
    } else {
        q.path = trim_space_u8(v);
    }
    Ok((q, i))
}

/// The scan of `parse` from position `i` at group depth `depth`, with the
/// path `p` built so far. A backslash skips the byte after it and marks the
/// key as escaped; a dot at depth zero (not at the start) ends the step; a
/// `*` or `?` marks a wildcard; a `#` at depth zero marks an array step;
/// the bracket that opens a group at depth one reads a query (after a `#`)
/// or a selector group. Closing brackets do not lower the depth.
pub open spec fn parse_scan(v: Seq<u8>, i: int, depth: int, p: PathModel) -> core::result::Result<
    PathModel,
    Error,
>
    decreases v.len() + 2 - i,
{
    if i < 0 || i >= v.len() {
        Ok(PathModel { part: v, more: false, ok: true, ..p })
    } else {
        let c = v[i];
        if c == chars::BACKSLASH {
            parse_scan(v, i + 2, depth, PathModel { esc: true, ..p })
        } else if is_close_byte(c) {
            parse_scan(v, i + 1, depth, p)
        } else if c == chars::DOT {
            if depth == 0 && i > 0 {
                Ok(
                    PathModel {
                        part: v.subrange(0, i),
                        ok: true,
                        more: true,
                        next: v.subrange(i + 1, v.len() as int),
                        ..p
                    },
                )
            } else {
                parse_scan(v, i + 1, depth, p)
            }
        } else if c == chars::STAR || c == chars::QUESTION {
            parse_scan(v, i + 1, depth, PathModel { wild: true, ..p })
        } else if c == chars::HASH {
            parse_scan(v, i + 1, depth, if depth == 0 { PathModel { arrch: true, ..p } } else { p })
        } else if is_open_byte(c) {
            if depth + 1 == 1 {
                if p.arrch {
                    let w = v.subrange(i + 1, v.len() as int);
                    if query_closes_at_once(w) {
                        Err(Error::Path)
                    } else {
                        match spec_parse_query(w) {
                            Err(e) => Err(e),
                            Ok((q, off)) => {
                                proof {
                                    lemma_parse_query_offset(w);
                                }
                                let i2 = if q.on {
                                    i + off
                                } else {
                                    i + 1
                                };
                                parse_scan(v, i2, 0, PathModel { query: Some(q), ..p })
                            },
                        }
                    }
                } else {
                    let (sels, off, ok) = spec_parse_selectors(v.subrange(i, v.len() as int));
                    if ok {
                        proof {
                            lemma_parse_selectors_offset(v.subrange(i, v.len() as int));
                        }
                        parse_scan(
                            v,
                            i + off,
                            0,
                            PathModel {
                                selectors: Some(sels),
                                arrsel: if c != chars::LBRACE {
                                    true
                                } else {
                                    p.arrsel
                                },
                                ..p
                            },
                        )
                    } else {
                        parse_scan(v, i + 1, depth + 1, p)
                    }
                }
            } else {
                parse_scan(v, i + 1, depth + 1, p)
            }
        } else {
            parse_scan(v, i + 1, depth, p)
        }
    }
}

/// The path that `v` spells; see `parse_scan`. The empty path matches
/// nothing.
pub open spec fn spec_parse(v: Seq<u8>) -> core::result::Result<PathModel, Error> {
    if v.len() == 0 {
        Ok(default_path_model())
    } else {
        parse_scan(v, 0, 0, default_path_model())
    }
}

pub proof fn lemma_selector_scan_bounds(
    v: Seq<u8>,
    i: int,
    depth: int,
    start: int,
    colon: int,
    sels: Seq<SelectorModel>,
)
    requires
        0 <= i,
    ensures
        selector_scan(v, i, depth, start, colon, sels).2 ==> i <= selector_scan(
            v,
            i,
            depth,
            start,
            colon,
            sels,
        ).1 < v.len(),
    decreases v.len() + 2 - i,
{
    if i < v.len() {
        let c = v[i];
        if c == chars::BACKSLASH {
            lemma_selector_scan_bounds(v, i + 2, depth, start, colon, sels);
        } else if c == chars::QUOTE {
            let n = string_close(v.subrange(i, v.len() as int), 0);
            if n >= 1 {
                lemma_selector_scan_bounds(v, i + n, depth, start, colon, sels);
            }
        } else if c == chars::COLON {
            lemma_selector_scan_bounds(v, i + 1, depth, start, if depth == 1 { i } else { colon }, sels);
        } else if c == chars::COMMA {
            if depth == 1 {
                lemma_selector_scan_bounds(
                    v,
                    i + 1,
                    depth,
                    i + 1,
                    0,
                    crate::path::sub_selector::push_selector(v, start, i, colon, sels),
                );
            } else {
                lemma_selector_scan_bounds(v, i + 1, depth, start, colon, sels);
            }
        } else if is_open_byte(c) {
            lemma_selector_scan_bounds(v, i + 1, depth + 1, if depth + 1 == 1 { i + 1 } else { start }, colon, sels);
        } else if is_close_byte(c) {
            if depth - 1 != 0 {
                lemma_selector_scan_bounds(v, i + 1, depth - 1, start, colon, sels);
            }
        } else {
            lemma_selector_scan_bounds(v, i + 1, depth, start, colon, sels);
        }
    }
}

/// A selector group opened at the first byte closes after it and within
/// the input.
pub proof fn lemma_parse_selectors_offset(v: Seq<u8>)
    requires
        v.len() > 0,
        is_open_byte(v[0]),
    ensures
        spec_parse_selectors(v).2 ==> 1 <= spec_parse_selectors(v).1 < v.len(),
{
    lemma_selector_scan_bounds(v, 1, 1, 1, 0, Seq::empty());
}

/// Parses the first step of the path `v`; see `spec_parse`. A query that
/// closes right after its opening bracket (as in `#()`) is refused with a
/// `Path` error.
#[verifier::spinoff_prover]
#[verifier::rlimit(50)]
pub fn parse(v: &[u8]) -> (r: Result<Path>)
    ensures
        match r {
            Ok(p) => spec_parse(v@) == Ok::<PathModel, Error>(p@),
            Err(e) => spec_parse(v@) == Err::<PathModel, Error>(e),
        },
{
    if v.len() == 0 {
        return Ok(Path::default());
    }
    let len = v.len();
    let mut p = Path::default();
    let mut depth: usize = 0;
    let mut i: usize = 0;
    while i < len
        invariant
            len == v@.len(),
            i <= len,
            depth <= i,
            parse_scan(v@, i as int, depth as int, p@) == spec_parse(v@),
        decreases len - i,
    {
        let c = v[i];
        if c == chars::BACKSLASH {
            let ghost i0 = i as int;
            p.esc = true;
            if len - i >= 2 {
                i += 2;
            } else {
                i = len;
                assert(parse_scan(v@, i0 + 2, depth as int, p@) == parse_scan(v@, i as int, depth as int, p@));
            }
        } else if c == chars::RBRACKET || c == chars::RPAREN || c == chars::RBRACE {
            i += 1;
        } else if c == chars::DOT {
            if depth == 0 && i > 0 {
                p.part = &v[0..i];
                p.ok = true;
                p.more = true;
                p.next = &v[i + 1..len];
                return Ok(p);
            }
            i += 1;
        } else if c == chars::STAR || c == chars::QUESTION {
            p.wild = true;
            i += 1;
        } else if c == chars::HASH {
            if depth == 0 {
                p.arrch = true;
            }
            i += 1;
        } else if c == chars::LBRACKET || c == chars::LPAREN || c == chars::LBRACE {
            depth += 1;
            if depth == 1 {
                if p.arrch {
                    let w = &v[i + 1..len];
                    if w.len() > 0 && (w[0] == chars::RBRACKET || w[0] == chars::RPAREN) && !(w.len()
                        > 1 && w[1] == chars::HASH) {
                        return Err(Error::Path);
                    }
                    proof {
                        lemma_parse_query_offset(w@);
                    }
                    let (query, offset) = parse_query(w)?;
                    let on = query.on;
                    p.query = Some(query);
                    if on {
                        i += offset;
                    } else {
                        i += 1;
                    }
                    depth = 0;
                } else {
                    proof {
                        lemma_parse_selectors_offset(v@.subrange(i as int, len as int));
                    }
                    let (selectors, offset, ok) = parse_selectors(&v[i..len]);
                    if ok {
                        if c != chars::LBRACE {
                            p.arrsel = true;
                        }
                        p.selectors = Some(selectors);
                        i += offset;
                        depth = 0;
                    } else {
                        i += 1;
                    }
                }
            } else {
                i += 1;
            }
        } else {
            i += 1;
        }
    }
    p.part = v;
    p.more = false;
    p.ok = true;
    Ok(p)
}

proof fn lemma_trim_len(v: Seq<u8>, b: u8)
    ensures
        spec_trim(v, b).len() <= v.len(),
{
    if v.len() > 0 {
        lemma_trim_shape(v, b);
    }
}

/// The path of a query lies within the query's text.
proof fn lemma_parse_query_path_len(w: Seq<u8>)
    ensures
        spec_parse_query(w) matches Ok((q, _)) ==> q.path.len() <= w.len(),
{
    if w.len() > 0 {
        lemma_query_scan_bounds(w, 0, 1, false, 0, 0, None);
        match query_scan(w, 0, 1, false, 0, 0, None) {
            Ok(sc) => {
                if sc.op_exist {
                    lemma_trim_len(w.subrange(0, sc.op_start), chars::SPACE);
                } else if sc.end > 0 {
                    lemma_trim_len(w.subrange(0, sc.end + 1), chars::SPACE);
                } else {
                    lemma_trim_len(w, chars::SPACE);
                }
            },
            Err(_) => {},
        }
    }
}

#[verifier::spinoff_prover]
#[verifier::rlimit(30)]
proof fn lemma_selector_paths(
    v: Seq<u8>,
    i: int,
    depth: int,
    start: int,
    colon: int,
    sels: Seq<SelectorModel>,
)
    requires
        0 <= start <= i,
        depth >= 1 ==> start >= 1,
        colon == 0 || (start <= colon < i && depth >= 1),
        forall|k: int| 0 <= k < sels.len() ==> #[trigger] sels[k].1.len() + 2 <= v.len(),
    ensures
        selector_scan(v, i, depth, start, colon, sels).2 ==> forall|k: int|
            0 <= k < selector_scan(v, i, depth, start, colon, sels).0.len()
                ==> #[trigger] selector_scan(v, i, depth, start, colon, sels).0[k].1.len() + 2 <= v.len(),
    decreases v.len() + 2 - i,
{
    if 0 <= i < v.len() {
        let c = v[i];
        if c == chars::BACKSLASH {
            lemma_selector_paths(v, i + 2, depth, start, colon, sels);
        } else if c == chars::QUOTE {
            let n = string_close(v.subrange(i, v.len() as int), 0);
            if n >= 1 {
                lemma_selector_paths(v, i + n, depth, start, colon, sels);
            }
        } else if c == chars::COLON {
            lemma_selector_paths(v, i + 1, depth, start, if depth == 1 { i } else { colon }, sels);
        } else if c == chars::COMMA {
            if depth == 1 {
                let s2 = push_selector(v, start, i, colon, sels);
                assert forall|k: int| 0 <= k < s2.len() implies #[trigger] s2[k].1.len() + 2 <= v.len() by {
                    if k < sels.len() {
                        assert(s2[k] == sels[k]);
                    }
                }
                lemma_selector_paths(v, i + 1, depth, i + 1, 0, s2);
            } else {
                lemma_selector_paths(v, i + 1, depth, start, colon, sels);
            }
        } else if is_open_byte(c) {
            lemma_selector_paths(v, i + 1, depth + 1, if depth + 1 == 1 { i + 1 } else { start }, colon, sels);
        } else if is_close_byte(c) {
            if depth - 1 == 0 {
                let s2 = push_selector(v, start, i, colon, sels);
                assert forall|k: int| 0 <= k < s2.len() implies #[trigger] s2[k].1.len() + 2 <= v.len() by {
                    if k < sels.len() {
                        assert(s2[k] == sels[k]);
                    }
                }
            } else {
                lemma_selector_paths(v, i + 1, depth - 1, start, colon, sels);
            }
        } else {
            lemma_selector_paths(v, i + 1, depth, start, colon, sels);
        }
    }
}

proof fn lemma_parse_scan_wf(v: Seq<u8>, i: int, depth: int, p: PathModel)
    requires
        0 <= i,
        p.arrch ==> i >= 1,
        p.next.len() == 0,
        p.query matches Some(q) ==> q.path.len() + 2 <= v.len(),
        p.selectors matches Some(s) ==> forall|k: int| 0 <= k < s.len() ==> #[trigger] s[k].1.len() + 2 <= v.len(),
    ensures
        parse_scan(v, i, depth, p) matches Ok(r) ==> path_wf(r) && path_measure(r) <= v.len() + 1,
    decreases v.len() + 2 - i,
{
    if i < v.len() {
        let c = v[i];
        if c == chars::BACKSLASH {
            lemma_parse_scan_wf(v, i + 2, depth, PathModel { esc: true, ..p });
        } else if is_close_byte(c) {
            lemma_parse_scan_wf(v, i + 1, depth, p);
        } else if c == chars::DOT {
            if !(depth == 0 && i > 0) {
                lemma_parse_scan_wf(v, i + 1, depth, p);
            }
        } else if c == chars::STAR || c == chars::QUESTION {
            lemma_parse_scan_wf(v, i + 1, depth, PathModel { wild: true, ..p });
        } else if c == chars::HASH {
            lemma_parse_scan_wf(v, i + 1, depth, if depth == 0 { PathModel { arrch: true, ..p } } else { p });
        } else if is_open_byte(c) {
            if depth + 1 == 1 {
                if p.arrch {
                    let w = v.subrange(i + 1, v.len() as int);
                    if !query_closes_at_once(w) {
                        lemma_parse_query_offset(w);
                        lemma_parse_query_path_len(w);
                        match spec_parse_query(w) {
                            Ok((q, off)) => {
                                let i2 = if q.on { i + off } else { i + 1 };
                                lemma_parse_scan_wf(v, i2, 0, PathModel { query: Some(q), ..p });
                            },
                            Err(_) => {},
                        }
                    }
                } else {
                    let t = v.subrange(i, v.len() as int);
                    let (sels, off, ok) = spec_parse_selectors(t);
                    if ok {
                        lemma_parse_selectors_offset(t);
                        lemma_selector_paths(t, 0, 0, 0, 0, Seq::empty());
                        let p2 = PathModel {
                            selectors: Some(sels),
                            arrsel: if c != chars::LBRACE { true } else { p.arrsel },
                            ..p
                        };
                        lemma_parse_scan_wf(v, i + off, 0, p2);
                    } else {
                        lemma_parse_scan_wf(v, i + 1, depth + 1, p);
                    }
                }
            } else {
                lemma_parse_scan_wf(v, i + 1, depth + 1, p);
            }
        } else {
            lemma_parse_scan_wf(v, i + 1, depth, p);
        }
    }
}

/// Every step the parser makes is well formed, and its measure is at most
/// one more than the length of the text it was parsed from.
pub proof fn lemma_parse_wf(v: Seq<u8>)
    ensures
        spec_parse(v) matches Ok(p) ==> path_wf(p) && path_measure(p) <= v.len() + 1,
{
    if v.len() > 0 {
        lemma_parse_scan_wf(v, 0, 0, default_path_model());
    }
}

proof fn lemma_parse_scan_split(v: Seq<u8>, i: int, depth: int, p: PathModel)
    requires
        0 <= i,
        !p.more,
        p.next.len() == 0,
    ensures
        parse_scan(v, i, depth, p) matches Ok(r) ==> {
            &&& r.ok
            &&& r.more ==> r.part.len() > 0 && v == r.part + seq![chars::DOT] + r.next
            &&& !r.more ==> r.part == v && r.next.len() == 0
        },
    decreases v.len() + 2 - i,
{
    if i < v.len() {
        let c = v[i];
        if c == chars::BACKSLASH {
            lemma_parse_scan_split(v, i + 2, depth, PathModel { esc: true, ..p });
        } else if is_close_byte(c) {
            lemma_parse_scan_split(v, i + 1, depth, p);
        } else if c == chars::DOT {
            if depth == 0 && i > 0 {
                assert(v =~= v.subrange(0, i) + seq![chars::DOT] + v.subrange(i + 1, v.len() as int));
            } else {
                lemma_parse_scan_split(v, i + 1, depth, p);
            }
        } else if c == chars::STAR || c == chars::QUESTION {
            lemma_parse_scan_split(v, i + 1, depth, PathModel { wild: true, ..p });
        } else if c == chars::HASH {
            lemma_parse_scan_split(v, i + 1, depth, if depth == 0 { PathModel { arrch: true, ..p } } else { p });
        } else if is_open_byte(c) {
            if depth + 1 == 1 {
                if p.arrch {
                    let w = v.subrange(i + 1, v.len() as int);
                    if !query_closes_at_once(w) {
                        lemma_parse_query_offset(w);
                        match spec_parse_query(w) {
                            Ok((q, off)) => {
                                let i2 = if q.on { i + off } else { i + 1 };
                                lemma_parse_scan_split(v, i2, 0, PathModel { query: Some(q), ..p });
                            },
                            Err(_) => {},
                        }
                    }
                } else {
                    let t = v.subrange(i, v.len() as int);
                    let (sels, off, ok) = spec_parse_selectors(t);
                    if ok {
                        lemma_parse_selectors_offset(t);
                        lemma_parse_scan_split(
                            v,
                            i + off,
                            0,
                            PathModel {
                                selectors: Some(sels),
                                arrsel: if c != chars::LBRACE { true } else { p.arrsel },
                                ..p
                            },
                        );
                    } else {
                        lemma_parse_scan_split(v, i + 1, depth + 1, p);
                    }
                }
            } else {
                lemma_parse_scan_split(v, i + 1, depth + 1, p);
            }
        } else {
            lemma_parse_scan_split(v, i + 1, depth, p);
        }
    }
}

/// The law that a path is its first key, a dot and the rest: a parsed step
/// with more after it splits the path at a dot after a non-empty key, and
/// a step without more is the whole path.
pub proof fn lemma_parse_split(v: Seq<u8>)
    requires
        v.len() > 0,
    ensures
        spec_parse(v) matches Ok(p) ==> {
            &&& p.ok
            &&& p.more ==> p.part.len() > 0 && v == p.part + seq![chars::DOT] + p.next
            &&& !p.more ==> p.part == v && p.next.len() == 0
        },
{
    lemma_parse_scan_split(v, 0, 0, default_path_model());
}

/// The law that the empty path matches nothing.
pub proof fn lemma_parse_empty()
    ensures
        spec_parse(Seq::empty()) == Ok::<PathModel, Error>(default_path_model()),
{
}

} // verus!
