//! Array queries: the `#(...)` and `#[...]` parts of a path.

use crate::chars;
use crate::decimal::{decimal_order, decimal_order_spec};
use crate::element::{string_text, Element, ElementModel};
use crate::number::number_text_end;
use crate::path::parser::{parse, spec_parse};
use crate::path::{default_path_model, Path, PathModel};
use crate::value::Value;
use crate::wild::{is_match_u8, spec_wild_match};
use crate::Error;
use crate::Result;
use vstd::prelude::*;
use vstd::string::StringSliceAdditionalSpecFns;
use vstd::utf8::encode_utf8;

verus! {

/// The value a query compares against. A number is kept as the bytes it
/// was written with.
#[derive(Debug, Clone, Copy)]
pub enum QueryValue<'a> {
    String(&'a [u8]),
    Number(&'a [u8]),
    Boolean(bool),
    Null,
    NotExist,
}

/// The model of a `QueryValue`.
pub enum QueryValueModel {
    String(Seq<u8>),
    Number(Seq<u8>),
    Boolean(bool),
    Null,
    NotExist,
}

impl<'a> QueryValue<'a> {
    pub open spec fn model(&self) -> QueryValueModel {
        match self {
            QueryValue::String(s) => QueryValueModel::String(s@),
            QueryValue::Number(s) => QueryValueModel::Number(s@),
            QueryValue::Boolean(b) => QueryValueModel::Boolean(*b),
            QueryValue::Null => QueryValueModel::Null,
            QueryValue::NotExist => QueryValueModel::NotExist,
        }
    }

    /// Whether the query names a value at all.
    pub fn value_exists(&self) -> (r: bool)
        ensures
            r == !(self is NotExist),
    {
        !matches!(self, QueryValue::NotExist)
    }
}

/// A query on the elements of an array: `on` says one was written, `path`
/// picks the part of each element that is compared, `op` and `value` say
/// how, and `all` asks for every match instead of the first.
#[derive(Debug, Clone, Copy)]
pub struct Query<'a> {
    pub on: bool,
    pub path: &'a [u8],
    pub op: Option<&'a [u8]>,
    pub value: Option<QueryValue<'a>>,
    pub all: bool,
}

/// The model of a `Query`.
pub struct QueryModel {
    pub on: bool,
    pub path: Seq<u8>,
    pub op: Option<Seq<u8>>,
    pub value: Option<QueryValueModel>,
    pub all: bool,
}

/// The query of a path that has none.
pub open spec fn empty_query_model() -> QueryModel {
    QueryModel { on: false, path: Seq::empty(), op: None, value: None, all: false }
}

impl<'a> Query<'a> {
    pub open spec fn model(&self) -> QueryModel {
        QueryModel {
            on: self.on,
            path: self.path@,
            op: match self.op {
                Some(o) => Some(o@),
                None => None,
            },
            value: match self.value {
                Some(v) => Some(v.model()),
                None => None,
            },
            all: self.all,
        }
    }

    /// The query that is not there.
    pub fn empty() -> (q: Query<'a>)
        ensures
            q.model() == empty_query_model(),
    {
        let e: &[u8] = &[];
        proof {
            assert(e@ =~= Seq::<u8>::empty());
        }
        Query { on: false, path: e, op: None, value: None, all: false }
    }

    /// Whether the query compares a part of each element.
    pub fn has_path(&self) -> (r: bool)
        ensures
            r == (self.path@.len() > 0),
    {
        self.path.len() > 0
    }

    /// The path of the compared part, parsed; a query without one gives the
    /// path that matches nothing.
    pub fn get_path(&self) -> (r: Result<Path<'a>>)
        ensures
            self.path@.len() > 0 ==> (match r {
                Ok(p) => spec_parse(self.path@) == Ok::<PathModel, Error>(p@),
                Err(e) => spec_parse(self.path@) == Err::<PathModel, Error>(e),
            }),
            self.path@.len() == 0 ==> (r matches Ok(p) && p@ == default_path_model()),
    {
        if self.has_path() {
            parse(self.path)
        } else {
            Ok(Path::default())
        }
    }

    pub fn set_path(&mut self, v: &'a [u8])
        ensures
            final(self).model() == (QueryModel { path: v@, ..old(self).model() }),
    {
        self.path = v;
    }

    pub fn set_op(&mut self, op: &'a [u8])
        ensures
            final(self).model() == (QueryModel { op: Some(op@), ..old(self).model() }),
    {
        self.op = Some(op);
    }

    pub fn set_val(&mut self, val: QueryValue<'a>)
        ensures
            final(self).model() == (QueryModel { value: Some(val.model()), ..old(self).model() }),
    {
        self.value = Some(val);
    }

    pub fn set_all(&mut self, all: bool)
        ensures
            final(self).model() == (QueryModel { all: all, ..old(self).model() }),
    {
        self.all = all;
    }

    pub fn set_on(&mut self, on: bool)
        ensures
            final(self).model() == (QueryModel { on: on, ..old(self).model() }),
    {
        self.on = on;
    }
}

/// The comparison a query's operator asks for.
pub enum OpKind {
    Eq,
    Ne,
    Gt,
    Ge,
    Lt,
    Le,
    Like,
    NotLike,
    Other,
}

/// The comparison written as `op`: `=` and `==` ask for equality, `!=`
/// for inequality, `<`, `<=`, `>`, `>=` for order, `%` and `!%` for a
/// wildcard match or its absence; anything else for no comparison.
pub open spec fn spec_op_kind(op: Seq<u8>) -> OpKind {
    if op == seq![chars::EQ] || op == seq![chars::EQ, chars::EQ] {
        OpKind::Eq
    } else if op == seq![chars::BANG, chars::EQ] {
        OpKind::Ne
    } else if op == seq![chars::GT] {
        OpKind::Gt
    } else if op == seq![chars::GT, chars::EQ] {
        OpKind::Ge
    } else if op == seq![chars::LT] {
        OpKind::Lt
    } else if op == seq![chars::LT, chars::EQ] {
        OpKind::Le
    } else if op == seq![chars::PERCENT] {
        OpKind::Like
    } else if op == seq![chars::BANG, chars::PERCENT] {
        OpKind::NotLike
    } else {
        OpKind::Other
    }
}

/// Reads the operator of a query; see `spec_op_kind`.
pub fn op_kind(op: &[u8]) -> (r: OpKind)
    ensures
        r == spec_op_kind(op@),
{
    if op.len() == 1 {
        let c = op[0];
        proof {
            assert(op@ =~= seq![c]);
        }
        if c == chars::EQ {
            OpKind::Eq
        } else if c == chars::GT {
            OpKind::Gt
        } else if c == chars::LT {
            OpKind::Lt
        } else if c == chars::PERCENT {
            OpKind::Like
        } else {
            OpKind::Other
        }
    } else if op.len() == 2 {
        let c = op[0];
        let d = op[1];
        proof {
            assert(op@ =~= seq![c, d]);
        }
        if c == chars::EQ && d == chars::EQ {
            OpKind::Eq
        } else if c == chars::BANG && d == chars::EQ {
            OpKind::Ne
        } else if c == chars::GT && d == chars::EQ {
            OpKind::Ge
        } else if c == chars::LT && d == chars::EQ {
            OpKind::Le
        } else if c == chars::BANG && d == chars::PERCENT {
            OpKind::NotLike
        } else {
            OpKind::Other
        }
    } else {
        proof {
            assert(op@.len() != 1 && op@.len() != 2);
            assert(op@ != seq![chars::EQ]);
            assert(op@ != seq![chars::EQ, chars::EQ]);
        }
        OpKind::Other
    }
}

/// Lexicographic order of byte strings from position `i`: -1, 0 or 1.
pub open spec fn lex_order_from(a: Seq<u8>, b: Seq<u8>, i: int) -> int
    decreases a.len() - i,
{
    if i >= a.len() {
        if i >= b.len() {
            0
        } else {
            -1
        }
    } else if i >= b.len() {
        1
    } else if a[i] < b[i] {
        -1
    } else if a[i] > b[i] {
        1
    } else {
        lex_order_from(a, b, i + 1)
    }
}

/// Lexicographic order of byte strings: -1, 0 or 1.
pub open spec fn lex_order(a: Seq<u8>, b: Seq<u8>) -> int {
    lex_order_from(a, b, 0)
}

/// Where `a` and `b` agree from `j` up to `i`, the order from `j` is the
/// order from `i`.
proof fn lemma_lex_order_skip(a: Seq<u8>, b: Seq<u8>, j: int, i: int)
    requires
        0 <= j <= i,
        i <= a.len(),
        i <= b.len(),
        forall|k: int| j <= k < i ==> a[k] == b[k],
    ensures
        lex_order_from(a, b, j) == lex_order_from(a, b, i),
    decreases i - j,
{
    if j < i {
        lemma_lex_order_skip(a, b, j + 1, i);
    }
}

/// The law that `bytes_order` is the lexicographic byte order: where `a`
/// and `b` first differ at `i` with `a[i] < b[i]`, `a` comes first whatever
/// their lengths; a proper prefix comes before its extension; equal
/// strings are equal; and swapping the two flips the order.
pub proof fn lemma_lex_order_is_lexicographic(a: Seq<u8>, b: Seq<u8>, i: int)
    ensures
        0 <= i < a.len() && i < b.len() && a.subrange(0, i) == b.subrange(0, i) && a[i] < b[i] ==> lex_order(
            a,
            b,
        ) == -1 && lex_order(b, a) == 1,
        a.len() < b.len() && b.subrange(0, a.len() as int) == a ==> lex_order(a, b) == -1 && lex_order(b, a)
            == 1,
        lex_order(a, a) == 0,
{
    if 0 <= i < a.len() && i < b.len() && a.subrange(0, i) == b.subrange(0, i) && a[i] < b[i] {
        assert forall|k: int| 0 <= k < i implies a[k] == b[k] by {
            assert(a.subrange(0, i)[k] == b.subrange(0, i)[k]);
        }
        lemma_lex_order_skip(a, b, 0, i);
        lemma_lex_order_skip(b, a, 0, i);
    }
    if a.len() < b.len() && b.subrange(0, a.len() as int) == a {
        assert forall|k: int| 0 <= k < a.len() implies a[k] == b[k] by {
            assert(b.subrange(0, a.len() as int)[k] == b[k]);
        }
        lemma_lex_order_skip(a, b, 0, a.len() as int);
        lemma_lex_order_skip(b, a, 0, a.len() as int);
    }
    lemma_lex_order_skip(a, a, 0, a.len() as int);
}

/// Orders two byte strings lexicographically; see `lex_order`.
pub fn bytes_order(a: &[u8], b: &[u8]) -> (r: i8)
    ensures
        r as int == lex_order(a@, b@),
{
    let mut i: usize = 0;
    loop
        invariant
            i <= a@.len(),
            i <= b@.len(),
            lex_order_from(a@, b@, i as int) == lex_order(a@, b@),
        decreases a@.len() - i,
    {
        if i >= a.len() {
            if i >= b.len() {
                return 0;
            } else {
                return -1;
            }
        } else if i >= b.len() {
            return 1;
        } else if a[i] < b[i] {
            return -1;
        } else if a[i] > b[i] {
            return 1;
        }
        i += 1;
    }
}

/// Whether an order (-1, 0 or 1) satisfies the comparison `k`.
pub open spec fn order_satisfies(k: OpKind, c: int) -> bool {
    match k {
        OpKind::Eq => c == 0,
        OpKind::Ne => c != 0,
        OpKind::Gt => c > 0,
        OpKind::Ge => c >= 0,
        OpKind::Lt => c < 0,
        OpKind::Le => c <= 0,
        _ => false,
    }
}

/// The text of a number as `Number::from_bytes` takes it.
pub open spec fn number_text(b: Seq<u8>) -> Seq<u8> {
    b.subrange(0, number_text_end(b, 1))
}

/// Whether an element passes a query. A query without an operator or a
/// value lets every element pass. Strings compare by their decoded bytes
/// (in order, or by wildcard), numbers by their exact decimal value,
/// booleans and null by equality; an element of another kind than the
/// value fails.
pub open spec fn spec_match_element(q: QueryModel, m: ElementModel) -> bool {
    match q.value {
        None => true,
        Some(target) => match q.op {
            None => true,
            Some(op) => {
                let k = spec_op_kind(op);
                match target {
                    QueryValueModel::String(qs) => match m {
                        ElementModel::String(b, esc) => {
                            let s = encode_utf8(string_text(b, esc));
                            match k {
                                OpKind::Like => spec_wild_match(s, qs),
                                OpKind::NotLike => !spec_wild_match(s, qs),
                                _ => order_satisfies(k, lex_order(s, qs)),
                            }
                        },
                        _ => false,
                    },
                    QueryValueModel::Number(qn) => match m {
                        ElementModel::Number(b) => order_satisfies(
                            k,
                            decimal_order_spec(number_text(b), number_text(qn)),
                        ),
                        _ => false,
                    },
                    QueryValueModel::Boolean(qb) => match m {
                        ElementModel::Boolean(b) => match k {
                            OpKind::Eq => (b[0] == chars::LOWER_T) == qb,
                            OpKind::Ne => (b[0] == chars::LOWER_T) != qb,
                            _ => false,
                        },
                        _ => false,
                    },
                    QueryValueModel::Null => match k {
                        OpKind::Eq => m is Null,
                        OpKind::Ne => !(m is Null),
                        _ => false,
                    },
                    QueryValueModel::NotExist => false,
                }
            },
        },
    }
}

/// The length of the text `Number::from_bytes` takes from `v`.
fn number_text_len(v: &[u8]) -> (r: usize)
    ensures
        r == number_text_end(v@, 1),
        r <= v@.len(),
{
    if v.len() == 0 {
        return 0;
    }
    let mut i: usize = 1;
    while i < v.len() && ((chars::DIGIT_0 <= v[i] && v[i] <= chars::DIGIT_9) || v[i] == chars::DOT)
        invariant
            1 <= i <= v@.len(),
            number_text_end(v@, i as int) == number_text_end(v@, 1),
        decreases v@.len() - i,
    {
        i += 1;
    }
    i
}

fn order_ok(k: &OpKind, c: i8) -> (r: bool)
    ensures
        r == order_satisfies(*k, c as int),
{
    match k {
        OpKind::Eq => c == 0,
        OpKind::Ne => c != 0,
        OpKind::Gt => c > 0,
        OpKind::Ge => c >= 0,
        OpKind::Lt => c < 0,
        OpKind::Le => c <= 0,
        _ => false,
    }
}

impl<'a> Query<'a> {
    /// Whether `element` passes the query; see `spec_match_element`.
    pub fn match_element(&self, element: &Element) -> (r: bool)
        requires
            element.wf(),
        ensures
            r == spec_match_element(self.model(), element.model()),
    {
        let target = match self.value {
            None => {
                return true;
            },
            Some(t) => t,
        };
        let op = match self.op {
            None => {
                return true;
            },
            Some(o) => o,
        };
        let k = op_kind(op);
        match target {
            QueryValue::String(q) => match element {
                Element::String(_, _) => {
                    let v = element.to_value();
                    match v {
                        Value::String(s) => {
                            let sb = s.as_str().as_bytes();
                            match k {
                                OpKind::Like => is_match_u8(sb, q),
                                OpKind::NotLike => !is_match_u8(sb, q),
                                _ => order_ok(&k, bytes_order(sb, q)),
                            }
                        },
                        _ => false,
                    }
                },
                _ => false,
            },
            QueryValue::Number(q) => match element {
                Element::Number(b) => {
                    let ta = &b[0..number_text_len(b)];
                    let tb = &q[0..number_text_len(q)];
                    order_ok(&k, decimal_order(ta, tb))
                },
                _ => false,
            },
            QueryValue::Boolean(qb) => match element {
                Element::Boolean(b) => {
                    let t = b[0] == chars::LOWER_T;
                    match k {
                        OpKind::Eq => t == qb,
                        OpKind::Ne => t != qb,
                        _ => false,
                    }
                },
                _ => false,
            },
            QueryValue::Null => {
                let is_null = matches!(element, Element::Null(_));
                match k {
                    OpKind::Eq => is_null,
                    OpKind::Ne => !is_null,
                    _ => false,
                }
            },
            QueryValue::NotExist => false,
        }
    }
}

} // verus!
