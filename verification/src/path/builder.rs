//! Building a path field by field.

use crate::path::query::{Query, QueryModel};
use crate::path::sub_selector::{selectors_model, SelectorModel, SubSelector};
use crate::path::{Path, PathModel};
use crate::Result;
use vstd::prelude::*;

verus! {

/// Collects the fields of a path; fields left unset take their default.
pub struct Builder<'a> {
    ok: Option<bool>,
    ident: Option<&'a [u8]>,
    next: Option<&'a [u8]>,
    more: Option<bool>,
    wild: Option<bool>,
    arrch: Option<bool>,
    query: Option<Query<'a>>,
    selectors: Option<Vec<SubSelector<'a>>>,
    arrsel: Option<bool>,
    esc: Option<bool>,
}

/// The model of a `Builder`: each field, when set.
pub struct BuilderModel {
    pub ok: Option<bool>,
    pub ident: Option<Seq<u8>>,
    pub next: Option<Seq<u8>>,
    pub more: Option<bool>,
    pub wild: Option<bool>,
    pub arrch: Option<bool>,
    pub query: Option<QueryModel>,
    pub selectors: Option<Seq<SelectorModel>>,
    pub arrsel: Option<bool>,
    pub esc: Option<bool>,
}

/// A builder with nothing set.
pub open spec fn empty_builder_model() -> BuilderModel {
    BuilderModel {
        ok: None,
        ident: None,
        next: None,
        more: None,
        wild: None,
        arrch: None,
        query: None,
        selectors: None,
        arrsel: None,
        esc: None,
    }
}

/// A flag that was set, or `false`.
pub open spec fn flag_or_false(b: Option<bool>) -> bool {
    match b {
        Some(x) => x,
        None => false,
    }
}

/// Bytes that were set, or nothing.
pub open spec fn bytes_or_empty(b: Option<Seq<u8>>) -> Seq<u8> {
    match b {
        Some(x) => x,
        None => Seq::empty(),
    }
}

/// The path a builder with model `m` builds.
pub open spec fn built_path(m: BuilderModel) -> PathModel {
    PathModel {
        ok: flag_or_false(m.ok),
        part: bytes_or_empty(m.ident),
        next: bytes_or_empty(m.next),
        query: m.query,
        selectors: m.selectors,
        arrsel: flag_or_false(m.arrsel),
        more: flag_or_false(m.more),
        wild: flag_or_false(m.wild),
        arrch: flag_or_false(m.arrch),
        esc: flag_or_false(m.esc),
    }
}

fn bool_or_false(b: Option<bool>) -> (r: bool)
    ensures
        r == flag_or_false(b),
{
    match b {
        Some(x) => x,
        None => false,
    }
}

fn slice_or_empty<'a>(b: Option<&'a [u8]>) -> (r: &'a [u8])
    ensures
        r@ == bytes_or_empty(
            match b {
                Some(x) => Some(x@),
                None => None,
            },
        ),
{
    match b {
        Some(x) => x,
        None => {
            let e: &[u8] = &[];
            assert(e@ =~= Seq::<u8>::empty());
            e
        },
    }
}

impl<'a> Default for Builder<'a> {
    fn default() -> (b: Builder<'a>)
        ensures
            b.model() == empty_builder_model(),
    {
        Builder {
            ok: None,
            ident: None,
            next: None,
            more: None,
            wild: None,
            arrch: None,
            query: None,
            selectors: None,
            arrsel: None,
            esc: None,
        }
    }
}

impl<'a> Builder<'a> {
    pub closed spec fn model(&self) -> BuilderModel {
        BuilderModel {
            ok: self.ok,
            ident: match self.ident {
                Some(x) => Some(x@),
                None => None,
            },
            next: match self.next {
                Some(x) => Some(x@),
                None => None,
            },
            more: self.more,
            wild: self.wild,
            arrch: self.arrch,
            query: match self.query {
                Some(q) => Some(q.model()),
                None => None,
            },
            selectors: match self.selectors {
                Some(v) => Some(selectors_model(v@)),
                None => None,
            },
            arrsel: self.arrsel,
            esc: self.esc,
        }
    }

    /// The path with the fields set so far; it always succeeds.
    pub fn build(self) -> (r: Result<Path<'a>>)
        ensures
            r matches Ok(p) && p@ == built_path(self.model()),
    {
        Ok(
            Path {
                ok: bool_or_false(self.ok),
                part: slice_or_empty(self.ident),
                next: slice_or_empty(self.next),
                query: self.query,
                selectors: self.selectors,
                arrsel: bool_or_false(self.arrsel),
                more: bool_or_false(self.more),
                wild: bool_or_false(self.wild),
                arrch: bool_or_false(self.arrch),
                esc: bool_or_false(self.esc),
            },
        )
    }

    pub fn ident(self, ident: &'a [u8]) -> (r: Self)
        ensures
            r.model() == (BuilderModel { ident: Some(ident@), ..self.model() }),
    {
        Builder { ident: Some(ident), ..self }
    }

    pub fn more(self, more: bool) -> (r: Self)
        ensures
            r.model() == (BuilderModel { more: Some(more), ..self.model() }),
    {
        Builder { more: Some(more), ..self }
    }

    pub fn next(self, next: &'a [u8]) -> (r: Self)
        ensures
            r.model() == (BuilderModel { next: Some(next@), ..self.model() }),
    {
        Builder { next: Some(next), ..self }
    }

    pub fn wild(self, wild: bool) -> (r: Self)
        ensures
            r.model() == (BuilderModel { wild: Some(wild), ..self.model() }),
    {
        Builder { wild: Some(wild), ..self }
    }

    pub fn ok(self, ok: bool) -> (r: Self)
        ensures
            r.model() == (BuilderModel { ok: Some(ok), ..self.model() }),
    {
        Builder { ok: Some(ok), ..self }
    }

    pub fn esc(self, esc: bool) -> (r: Self)
        ensures
            r.model() == (BuilderModel { esc: Some(esc), ..self.model() }),
    {
        Builder { esc: Some(esc), ..self }
    }

    pub fn arrch(self, arrch: bool) -> (r: Self)
        ensures
            r.model() == (BuilderModel { arrch: Some(arrch), ..self.model() }),
    {
        Builder { arrch: Some(arrch), ..self }
    }

    pub fn query(self, query: Query<'a>) -> (r: Self)
        ensures
            r.model() == (BuilderModel { query: Some(query.model()), ..self.model() }),
    {
        Builder { query: Some(query), ..self }
    }

    pub fn selector(self, sels: Vec<SubSelector<'a>>) -> (r: Self)
        ensures
            r.model() == (BuilderModel { selectors: Some(selectors_model(sels@)), ..self.model() }),
    {
        Builder { selectors: Some(sels), ..self }
    }

    pub fn arrsel(self, arrsel: bool) -> (r: Self)
        ensures
            r.model() == (BuilderModel { arrsel: Some(arrsel), ..self.model() }),
    {
        Builder { arrsel: Some(arrsel), ..self }
    }
}

} // verus!
