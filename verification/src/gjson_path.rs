//! The paths of the stream getter: a path is read one step at a time, up
//! to its first unescaped dot; the step may hold wildcards (`*`, `?`) and,
//! after a `#`, a query in brackets.

use crate::chars;
use crate::gjson::{
    gq_close_scan, gq_value_text, value_text_ok, gq_scan, is_query_op, lemma_string_skip_end_bounds, gjson_parse_query_from, gjson_query_ok_from, gq_after, gq_close_from, query_option_model,
    spec_gjson_query_from, GjsonQuery, GjsonQueryModel,
};
use crate::utf8_reader::string_skip_end;
use crate::util::{equal_escape_u8, lemma_trim_shape, spec_equal_escape};
use crate::wild::{is_match_u8, spec_wild_match};
use vstd::prelude::*;

verus! {

/// Where the query after the bracket at `k` is read from: the reader moves
/// back two bytes (where it can) and then reads two bytes on (where there
/// are any).
pub open spec fn gq_start(v: Seq<u8>, k: int) -> int {
    let b = if k >= 2 {
        k - 2
    } else {
        k
    };
    let b1 = if b + 1 < v.len() {
        b + 1
    } else {
        b
    };
    if b1 + 1 < v.len() {
        b1 + 1
    } else {
        b1
    }
}

/// The position `x` to read next, kept within the end of `v`.
pub open spec fn next_pos(v: Seq<u8>, x: int) -> int {
    if x < v.len() {
        x
    } else {
        v.len() as int
    }
}

/// What the scan of a step found: the position of the dot that ends it
/// (-1 for none), whether it holds a wildcard, whether it holds a `#`, and
/// the last query read in it.
pub struct StepScan {
    pub dot: int,
    pub wild: bool,
    pub arrch: bool,
    pub query: Option<GjsonQueryModel>,
}

/// The scan of the step in `v` from the byte at `k`: a backslash skips the
/// byte after it, a dot ends the step, `*` and `?` mark a wildcard, `#`
/// marks an array step, and after a `#` a bracket starts a query, after
/// which the scan goes on where the query's reading stopped.
pub open spec fn step_scan(v: Seq<u8>, k: int, wild: bool, arrch: bool, q: Option<GjsonQueryModel>) -> StepScan
    decreases v.len() - k,
{
    if k < 0 || k >= v.len() {
        StepScan { dot: -1, wild, arrch, query: q }
    } else {
        let b = v[k];
        if b == chars::BACKSLASH {
            step_scan(v, next_pos(v, k + 2), wild, arrch, q)
        } else if b == chars::DOT {
            StepScan { dot: k, wild, arrch, query: q }
        } else if b == chars::STAR || b == chars::QUESTION {
            step_scan(v, k + 1, true, arrch, q)
        } else if b == chars::HASH {
            step_scan(v, k + 1, wild, true, q)
        } else if (b == chars::LBRACKET || b == chars::LPAREN) && arrch {
            let os = gq_start(v, k);
            let c = gq_close_from(v, os);
            if c.1 > 0 {
                StepScan { dot: -1, wild, arrch, query: None }
            } else {
                let off = gq_after(v, c.0);
                step_scan(
                    v,
                    next_pos(
                        v,
                        if off >= k {
                            off + 1
                        } else {
                            k + 1
                        },
                    ),
                    wild,
                    arrch,
                    spec_gjson_query_from(v, os),
                )
            }
        } else {
            step_scan(v, k + 1, wild, arrch, q)
        }
    }
}

/// Every query the scan of the step from `k` meets closes and can be read.
pub open spec fn step_ok(v: Seq<u8>, k: int, arrch: bool) -> bool
    decreases v.len() - k,
{
    if k < 0 || k >= v.len() {
        true
    } else {
        let b = v[k];
        if b == chars::BACKSLASH {
            step_ok(v, next_pos(v, k + 2), arrch)
        } else if b == chars::DOT {
            true
        } else if b == chars::HASH {
            step_ok(v, k + 1, true)
        } else if (b == chars::LBRACKET || b == chars::LPAREN) && arrch {
            let os = gq_start(v, k);
            let c = gq_close_from(v, os);
            let off = gq_after(v, c.0);
            &&& c.1 <= 0
            &&& gjson_query_ok_from(v, os)
            &&& step_ok(
                v,
                next_pos(
                    v,
                    if off >= k {
                        off + 1
                    } else {
                        k + 1
                    },
                ),
                arrch,
            )
        } else {
            step_ok(v, k + 1, arrch)
        }
    }
}

/// The model of a path step: whether there is a step, its key, the text of
/// the path after it, whether that text follows a dot, and what the scan
/// found in it.
pub struct GjsonPathModel {
    pub ok: bool,
    pub part: Seq<u8>,
    pub next: Seq<u8>,
    pub more: bool,
    pub wild: bool,
    pub arrch: bool,
    pub query: Option<GjsonQueryModel>,
}

/// The first step of the path `v`: none for an empty path; else the text
/// up to the first unescaped dot (the rest after the dot is the path that
/// follows), or the whole text.
pub open spec fn spec_gjson_path(v: Seq<u8>) -> GjsonPathModel {
    if v.len() == 0 {
        GjsonPathModel {
            ok: false,
            part: Seq::empty(),
            next: Seq::empty(),
            more: false,
            wild: false,
            arrch: false,
            query: None,
        }
    } else {
        let r = step_scan(v, 0, false, false, None);
        if r.dot >= 0 {
            GjsonPathModel {
                ok: true,
                part: if 0 < r.dot {
                    v.subrange(0, r.dot)
                } else {
                    Seq::empty()
                },
                next: if r.dot + 1 < v.len() {
                    v.subrange(r.dot + 1, v.len() as int)
                } else {
                    Seq::empty()
                },
                more: true,
                wild: r.wild,
                arrch: r.arrch,
                query: r.query,
            }
        } else {
            GjsonPathModel {
                ok: true,
                part: v,
                next: Seq::empty(),
                more: false,
                wild: r.wild,
                arrch: r.arrch,
                query: r.query,
            }
        }
    }
}

/// The scan of a query text stays within the text.
pub proof fn lemma_gq_scan_bounds(v: Seq<u8>, o: int, depth: int, j: int)
    requires
        0 <= o < v.len(),
    ensures
        o <= gq_scan(v, o, depth, j).0 < v.len(),
    decreases v.len() - o,
{
    if o + 1 < v.len() {
        let o2 = o + 1;
        let b = v[o2];
        if is_query_op(b) {
            lemma_gq_scan_bounds(v, o2, depth, if depth == 1 && j == 0 { o2 } else { j });
        } else if b == chars::BACKSLASH {
            lemma_gq_scan_bounds(v, if o2 + 1 < v.len() { o2 + 1 } else { o2 }, depth, j);
        } else if b == chars::QUOTE {
            let e = string_skip_end(v, o2 + 1);
            lemma_string_skip_end_bounds(v, o2 + 1);
            lemma_gq_scan_bounds(v, if e > o2 { e } else { o2 }, depth, j);
        } else if b == chars::LBRACKET || b == chars::LPAREN {
            lemma_gq_scan_bounds(v, o2, depth + 1, j);
        } else if b == chars::RBRACKET || b == chars::RPAREN {
            if depth - 1 != 0 {
                lemma_gq_scan_bounds(v, o2, depth - 1, j);
            }
        } else {
            lemma_gq_scan_bounds(v, o2, depth, j);
        }
    }
}

/// A query read from `v` has a path shorter than `v`.
pub proof fn lemma_query_path_short(v: Seq<u8>, os: int)
    requires
        0 <= os < v.len(),
    ensures
        spec_gjson_query_from(v, os) matches Some(q) ==> q.path.len() < v.len(),
{
    let c = gq_close_from(v, os);
    lemma_gq_scan_bounds(v, os, 1, 0);
    let off = gq_after(v, c.0);
    let raw = if c.2 > 0 {
        if 2 < c.2 <= off {
            v.subrange(2, c.2)
        } else {
            Seq::<u8>::empty()
        }
    } else if 2 < c.0 <= off {
        v.subrange(2, c.0)
    } else {
        Seq::<u8>::empty()
    };
    if raw.len() > 0 {
        lemma_trim_shape(raw, chars::SPACE);
    }
}

/// The query a step scan ends with has a path shorter than `v`.
pub proof fn lemma_step_query_short(
    v: Seq<u8>,
    k: int,
    wild: bool,
    arrch: bool,
    q: Option<GjsonQueryModel>,
)
    requires
        q matches Some(x) ==> x.path.len() < v.len(),
    ensures
        step_scan(v, k, wild, arrch, q).query matches Some(x) ==> x.path.len() < v.len(),
    decreases v.len() - k,
{
    if 0 <= k < v.len() {
        let b = v[k];
        if b == chars::BACKSLASH {
            lemma_step_query_short(v, next_pos(v, k + 2), wild, arrch, q);
        } else if b == chars::DOT {
        } else if b == chars::STAR || b == chars::QUESTION {
            lemma_step_query_short(v, k + 1, true, arrch, q);
        } else if b == chars::HASH {
            lemma_step_query_short(v, k + 1, wild, true, q);
        } else if (b == chars::LBRACKET || b == chars::LPAREN) && arrch {
            let os = gq_start(v, k);
            let c = gq_close_from(v, os);
            if c.1 <= 0 {
                let off = gq_after(v, c.0);
                lemma_gq_start_bounds(v, k);
                lemma_query_path_short(v, os);
                lemma_step_query_short(
                    v,
                    next_pos(
                        v,
                        if off >= k {
                            off + 1
                        } else {
                            k + 1
                        },
                    ),
                    wild,
                    arrch,
                    spec_gjson_query_from(v, os),
                );
            }
        } else {
            lemma_step_query_short(v, k + 1, wild, arrch, q);
        }
    }
}

/// The path that follows the first step, and the path of its query, are
/// shorter than `v`.
pub proof fn lemma_path_parts_short(v: Seq<u8>)
    ensures
        spec_gjson_path(v).next.len() < v.len() || v.len() == 0,
        spec_gjson_path(v).query matches Some(q) ==> q.path.len() < v.len(),
{
    if v.len() > 0 {
        lemma_step_query_short(v, 0, false, false, None);
    }
}

/// Every step of the path `v`, and of the paths of its queries, can be
/// read: each query closes and its value text reads to an end.
pub open spec fn gpath_ok(v: Seq<u8>) -> bool
    decreases v.len(),
{
    if v.len() == 0 {
        true
    } else {
        proof {
            lemma_path_parts_short(v);
        }
        let p = spec_gjson_path(v);
        &&& step_ok(v, 0, false)
        &&& (p.more ==> gpath_ok(p.next))
        &&& (p.query matches Some(q) ==> gpath_ok(q.path))
    }
}

/// A step of a path of the stream getter.
pub struct GjsonPath<'a> {
    pub ok: bool,
    pub part: &'a [u8],
    pub next: &'a [u8],
    pub more: bool,
    pub wild: bool,
    pub arrch: bool,
    pub query: Option<GjsonQuery<'a>>,
}

impl<'a> GjsonPath<'a> {
    pub open spec fn model(&self) -> GjsonPathModel {
        GjsonPathModel {
            ok: self.ok,
            part: self.part@,
            next: self.next@,
            more: self.more,
            wild: self.wild,
            arrch: self.arrch,
            query: query_option_model(self.query),
        }
    }

    /// Whether the key `key` matches the step: by wildcard where the step
    /// holds one, else byte by byte with escapes in the step passed over.
    pub fn is_match(&self, key: &[u8]) -> (r: bool)
        ensures
            r == path_key_matches(self.model(), key@),
    {
        if self.wild {
            is_match_u8(key, self.part)
        } else {
            equal_escape_u8(key, self.part)
        }
    }
}

/// Whether the key `key` matches the step `p`; see `GjsonPath::is_match`.
pub open spec fn path_key_matches(p: GjsonPathModel, key: Seq<u8>) -> bool {
    if p.wild {
        spec_wild_match(key, p.part)
    } else {
        spec_equal_escape(key, p.part, 0, 0)
    }
}

/// An empty slice of `v`.
fn empty_tail<'a>(v: &'a [u8]) -> (r: &'a [u8])
    ensures
        r@ == Seq::<u8>::empty(),
{
    let e = &v[0..0];
    assert(e@ =~= Seq::<u8>::empty());
    e
}

/// A step's scan meets no query before the bracket at `k` unless `#` came
/// first: the position to read the query from lies at or after `k`.
proof fn lemma_gq_start_bounds(v: Seq<u8>, k: int)
    requires
        0 <= k < v.len(),
    ensures
        k <= gq_start(v, k) < v.len(),
{
}

/// Reads the first step of the path `v`; see `spec_gjson_path`.
pub fn gjson_path<'a>(v: &'a [u8]) -> (r: GjsonPath<'a>)
    requires
        step_ok(v@, 0, false),
    ensures
        r.model() == spec_gjson_path(v@),
{
    let n = v.len();
    if n == 0 {
        let e = empty_tail(v);
        return GjsonPath { ok: false, part: e, next: e, more: false, wild: false, arrch: false, query: None };
    }
    let ghost target = step_scan(v@, 0, false, false, None);
    let mut k: usize = 0;
    let mut wild = false;
    let mut arrch = false;
    let mut query: Option<GjsonQuery<'a>> = None;
    while k < n
        invariant
            n == v@.len(),
            n > 0,
            target == step_scan(v@, 0, false, false, None),
            step_scan(v@, k as int, wild, arrch, query_option_model(query)) == target,
            step_ok(v@, k as int, arrch),
        decreases n - k,
    {
        let b = v[k];
        if b == chars::BACKSLASH {
            if n - k > 2 {
                k = k + 2;
            } else {
                k = n;
            }
        } else if b == chars::DOT {
            let part = if 0 < k {
                &v[0..k]
            } else {
                empty_tail(v)
            };
            let next = if k + 1 < n {
                &v[k + 1..n]
            } else {
                empty_tail(v)
            };
            return GjsonPath { ok: true, part, next, more: true, wild, arrch, query };
        } else if b == chars::STAR || b == chars::QUESTION {
            wild = true;
            k = k + 1;
        } else if b == chars::HASH {
            arrch = true;
            k = k + 1;
        } else if (b == chars::LBRACKET || b == chars::LPAREN) && arrch {
            let back = if k >= 2 {
                k - 2
            } else {
                k
            };
            let b1 = if back + 1 < n {
                back + 1
            } else {
                back
            };
            let os = if b1 + 1 < n {
                b1 + 1
            } else {
                b1
            };
            proof {
                lemma_gq_start_bounds(v@, k as int);
            }
            let (q, off) = gjson_parse_query_from(v, os);
            query = q;
            k = if off + 1 < n {
                off + 1
            } else {
                n
            };
        } else {
            k = k + 1;
        }
    }
    proof {
        assert(v@.subrange(0, n as int) =~= v@);
    }
    GjsonPath { ok: true, part: v, next: empty_tail(v), more: false, wild, arrch, query }
}

/// Whether every query the first step of `v` meets closes and can be read;
/// see `step_ok`.
pub fn step_check(v: &[u8]) -> (r: bool)
    ensures
        r == step_ok(v@, 0, false),
{
    let n = v.len();
    let mut k: usize = 0;
    let mut arrch = false;
    while k < n
        invariant
            n == v@.len(),
            k <= n,
            step_ok(v@, k as int, arrch) == step_ok(v@, 0, false),
        decreases n - k,
    {
        let b = v[k];
        if b == chars::BACKSLASH {
            if n - k > 2 {
                k = k + 2;
            } else {
                k = n;
            }
        } else if b == chars::DOT {
            return true;
        } else if b == chars::HASH {
            arrch = true;
            k = k + 1;
        } else if (b == chars::LBRACKET || b == chars::LPAREN) && arrch {
            let back = if k >= 2 {
                k - 2
            } else {
                k
            };
            let b1 = if back + 1 < n {
                back + 1
            } else {
                back
            };
            let os = if b1 + 1 < n {
                b1 + 1
            } else {
                b1
            };
            proof {
                lemma_gq_start_bounds(v@, k as int);
            }
            let (i, depth, j) = gq_close_scan(v, os);
            if depth > 0 {
                return false;
            }
            let off = if i + 1 < n {
                if v[i + 1] == chars::HASH {
                    i + 1
                } else {
                    i
                }
            } else {
                i - 1
            };
            if j > 0 {
                let t = if j < off {
                    &v[j..off]
                } else {
                    empty_tail(v)
                };
                proof {
                    assert(t@ == gq_value_text(v@, j as int, off as int));
                }
                if t.len() == 0 {
                    return false;
                }
                if !value_text_ok(t) {
                    return false;
                }
            }
            k = if off + 1 < n {
                off + 1
            } else {
                n
            };
        } else {
            k = k + 1;
        }
    }
    true
}

/// Whether every step of the path `v`, and of the paths of its queries,
/// can be read; see `gpath_ok`.
pub fn path_check(v: &[u8]) -> (r: bool)
    ensures
        r == gpath_ok(v@),
    decreases v@.len(),
{
    if v.len() == 0 {
        return true;
    }
    proof {
        lemma_path_parts_short(v@);
    }
    if !step_check(v) {
        return false;
    }
    let p = gjson_path(v);
    if p.more && !path_check(p.next) {
        return false;
    }
    match &p.query {
        Some(q) => path_check(q.path),
        None => true,
    }
}

} // verus!
