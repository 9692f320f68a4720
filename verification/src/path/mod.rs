//! Paths: parsing the path language and matching keys against it.

pub mod builder;
pub mod parser;
pub mod query;
pub mod sub_selector;

use crate::path::builder::{empty_builder_model, Builder};
use crate::path::parser::{parse, spec_parse};
use crate::path::query::{empty_query_model, Query, QueryModel};
use crate::path::sub_selector::{selectors_model, SelectorModel, SubSelector};
use crate::text::{spec_utf8_lossy, utf8_lossy};
use crate::unescape::{spec_unescape, unescape_bytes};
use crate::util::{bytes_eq, equal_escape_u8, spec_equal_escape};
use crate::wild::{is_match_u8, spec_wild_match};
use crate::Error;
use crate::Result;
use vstd::prelude::*;
use vstd::utf8::encode_utf8;

verus! {

/// One step of a path: the key `part` to look up, and what follows it.
/// `more` says a further step follows in `next`; `query` and `selectors`
/// hold an array query or a selector group written in the step; `wild`
/// marks wildcards in the key, `esc` backslash escapes, and `arrch` a `#`
/// that asks for the array's elements or their count.
pub struct Path<'a> {
    pub ok: bool,
    pub part: &'a [u8],
    pub next: &'a [u8],
    pub query: Option<Query<'a>>,
    pub selectors: Option<Vec<SubSelector<'a>>>,
    pub arrsel: bool,
    pub more: bool,
    pub wild: bool,
    pub arrch: bool,
    pub esc: bool,
}

/// The model of a `Path`.
pub struct PathModel {
    pub ok: bool,
    pub part: Seq<u8>,
    pub next: Seq<u8>,
    pub query: Option<QueryModel>,
    pub selectors: Option<Seq<SelectorModel>>,
    pub arrsel: bool,
    pub more: bool,
    pub wild: bool,
    pub arrch: bool,
    pub esc: bool,
}

/// The path that matches nothing.
pub open spec fn default_path_model() -> PathModel {
    PathModel {
        ok: false,
        part: Seq::empty(),
        next: Seq::empty(),
        query: None,
        selectors: None,
        arrsel: false,
        more: false,
        wild: false,
        arrch: false,
        esc: false,
    }
}

impl<'a> View for Path<'a> {
    type V = PathModel;

    open spec fn view(&self) -> PathModel {
        PathModel {
            ok: self.ok,
            part: self.part@,
            next: self.next@,
            query: match self.query {
                Some(q) => Some(q.model()),
                None => None,
            },
            selectors: match self.selectors {
                Some(v) => Some(selectors_model(v@)),
                None => None,
            },
            arrsel: self.arrsel,
            more: self.more,
            wild: self.wild,
            arrch: self.arrch,
            esc: self.esc,
        }
    }
}

impl<'a> Default for Path<'a> {
    fn default() -> (p: Path<'a>)
        ensures
            p@ == default_path_model(),
    {
        let e: &[u8] = &[];
        proof {
            assert(e@ =~= Seq::<u8>::empty());
        }
        Path {
            ok: false,
            part: e,
            next: e,
            query: None,
            selectors: None,
            arrsel: false,
            more: false,
            wild: false,
            arrch: false,
            esc: false,
        }
    }
}

/// A size of a step that every step parsed from a part of it undercuts:
/// the lengths of its key and of the rest of the path.
pub open spec fn path_measure(p: PathModel) -> nat {
    p.part.len() + p.next.len() + 1
}

/// A step as the parser makes it: a step with more after it has a key,
/// and the paths of its query and selectors are shorter than the step's
/// measure.
pub open spec fn path_wf(p: PathModel) -> bool {
    &&& p.more ==> p.part.len() >= 1
    &&& !p.more ==> p.next.len() == 0
    &&& (p.query matches Some(q) ==> q.path.len() + 1 < path_measure(p))
    &&& (p.selectors matches Some(s) ==> forall|k: int|
        0 <= k < s.len() ==> #[trigger] s[k].1.len() + 1 < path_measure(p))
}

/// The query a path is matched with: its own, or the empty one.
pub open spec fn borrowed_query(p: PathModel) -> QueryModel {
    match p.query {
        Some(q) => q,
        None => empty_query_model(),
    }
}

/// Whether the key `key` (escaped when `key_esc`) is the one the step
/// names: a wildcard step matches by its pattern, an escaped key is decoded
/// before it is compared, an escaped step compares with backslashes taken
/// as escapes, and otherwise the bytes must be equal.
pub open spec fn spec_is_match(p: PathModel, key: Seq<u8>, key_esc: bool) -> bool {
    if p.wild {
        spec_wild_match(key, p.part)
    } else if key_esc {
        encode_utf8(spec_utf8_lossy(spec_unescape(key, 0))) == p.part
    } else if p.esc {
        spec_equal_escape(key, p.part, 0, 0)
    } else {
        key == p.part
    }
}

/// The law that a plain step (no wildcard, no escape) matches an unescaped
/// key exactly when the key's bytes are the step's bytes: the step's own
/// text matches, and a key of another length (one that only starts with
/// the step, say) does not.
pub proof fn lemma_plain_step_matches_exactly(p: PathModel, key: Seq<u8>)
    requires
        !p.wild,
        !p.esc,
    ensures
        spec_is_match(p, key, false) <==> key == p.part,
        spec_is_match(p, p.part, false),
        key.len() != p.part.len() ==> !spec_is_match(p, key, false),
{
}

/// The step after `p`: parsed from its `next`, or the path that matches
/// nothing when there is none.
pub open spec fn spec_parse_next(p: PathModel) -> core::result::Result<PathModel, Error> {
    if p.next.len() == 0 {
        Ok(default_path_model())
    } else {
        spec_parse(p.next)
    }
}

impl<'a> Path<'a> {
    /// Parses the first step of the path `v`; see `spec_parse`.
    pub fn from_slice(v: &'a [u8]) -> (r: Result<Path<'a>>)
        ensures
            match r {
                Ok(p) => spec_parse(v@) == Ok::<PathModel, Error>(p@),
                Err(e) => spec_parse(v@) == Err::<PathModel, Error>(e),
            },
    {
        parse(v)
    }

    /// A builder for a path given field by field.
    pub fn builder() -> (b: Builder<'a>)
        ensures
            b.model() == empty_builder_model(),
    {
        Builder::default()
    }

    /// Whether `key` is the key this step names; see `spec_is_match`.
    pub fn is_match(&self, key: &[u8], key_esc: bool) -> (r: bool)
        ensures
            r == spec_is_match(self@, key@, key_esc),
    {
        if self.wild {
            is_match_u8(key, self.part)
        } else if key_esc {
            let u = unescape_bytes(key);
            let s = utf8_lossy(u.as_slice());
            bytes_eq(s.as_str().as_bytes(), self.part)
        } else if self.esc {
            equal_escape_u8(key, self.part)
        } else {
            bytes_eq(key, self.part)
        }
    }

    /// Parses the step after this one; see `spec_parse_next`.
    pub fn parse_next(&self) -> (r: Result<Path<'a>>)
        ensures
            match r {
                Ok(p) => spec_parse_next(self@) == Ok::<PathModel, Error>(p@),
                Err(e) => spec_parse_next(self@) == Err::<PathModel, Error>(e),
            },
    {
        if self.next.len() == 0 {
            Ok(Path::default())
        } else {
            Path::from_slice(self.next)
        }
    }

    /// Whether the step holds a query.
    pub fn has_query(&self) -> (r: bool)
        ensures
            r == (self@.query is Some),
    {
        self.query.is_some()
    }

    /// The step's query, or the empty one.
    pub fn borrow_query(&self) -> (q: Query<'a>)
        ensures
            q.model() == borrowed_query(self@),
    {
        match self.query {
            Some(q) => q,
            None => Query::empty(),
        }
    }

    /// Whether the step holds a selector group.
    pub fn has_selectors(&self) -> (r: bool)
        ensures
            r == (self@.selectors is Some),
    {
        self.selectors.is_some()
    }

    /// The step's selectors; none when it has no group.
    pub fn borrow_selectors(&self) -> (r: &[SubSelector<'a>])
        ensures
            self@.selectors is Some ==> selectors_model(r@) == self@.selectors->0,
            self@.selectors is None ==> r@.len() == 0,
    {
        match &self.selectors {
            Some(v) => v.as_slice(),
            None => {
                let e: &[SubSelector<'a>] = &[];
                e
            },
        }
    }
}

} // verus!
