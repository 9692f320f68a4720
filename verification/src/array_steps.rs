//! How the steps over an array relate: `#(...)` returns the first match
//! of what `#(...)#` returns all of, and `#` counts the values the array
//! holds, and a number picks the value at that position.

use crate::chars;
use crate::element::{lemma_read_one, spec_read_one, ElementModel};
use crate::parser::{
    collect_values, first_index_of, spec_bytes_to_vec, first_compound, lemma_next_smaller, returns_first, returns_list, spec_array_get, spec_array_loop, spec_bytes_get,
    spec_part_index, spec_query_key, spec_query_pass,
};
use crate::path::query::QueryModel;
use crate::path::parser::{parse_scan, spec_parse};
use crate::path::{borrowed_query, default_path_model, path_wf, spec_parse_next, PathModel};
use crate::spec_get;
use crate::number::{all_digits, digits_value, lemma_ascii_text};
use crate::Error;
use vstd::prelude::*;

verus! {

/// `pf` is the step `pa`, whose query returns all matches, with its query
/// returning the first match only; the key texts may differ (as `#(...)#`
/// and `#(...)` do).
pub open spec fn first_match_variant(pa: PathModel, pf: PathModel) -> bool {
    &&& pa.query matches Some(qa)
    &&& qa.on
    &&& qa.all
    &&& pf.query == Some(QueryModel { all: false, ..qa })
    &&& pf.ok == pa.ok
    &&& pf.next == pa.next
    &&& pf.selectors == pa.selectors
    &&& pf.arrsel == pa.arrsel
    &&& pf.more == pa.more
    &&& pf.wild == pa.wild
    &&& pf.arrch == pa.arrch
    &&& pf.esc == pa.esc
}

/// The list an all-matches loop returns starts with what it had gathered.
proof fn lemma_all_matches_extend(
    b: Seq<u8>,
    p: PathModel,
    np: PathModel,
    qk: PathModel,
    index: nat,
    acc: Seq<ElementModel>,
)
    requires
        path_wf(p),
        p.more ==> spec_parse_next(p) == Ok::<PathModel, Error>(np),
        borrowed_query(p).path.len() > 0 ==> spec_query_key(p) == Ok::<PathModel, Error>(qk),
        returns_list(p),
        !returns_first(p),
    ensures
        spec_array_loop(b, p, np, qk, None, index, acc) matches Ok((Some(ElementModel::List(l)), _))
            ==> acc.len() <= l.len() && l.subrange(0, acc.len() as int) == acc,
    decreases b.len(),
{
    lemma_read_one(b);
    match spec_read_one(b) {
        Ok((Some(el), left)) => {
            match spec_query_pass(el, p, qk) {
                Ok(false) => {
                    lemma_all_matches_extend(left, p, np, qk, index, acc);
                },
                Ok(true) => {
                    lemma_all_matches_extend(left, p, np, qk, index + 1, acc);
                    if p.more {
                        lemma_next_smaller(p);
                    }
                    let el2 = if p.more {
                        crate::parser::spec_element_get(el, np)
                    } else {
                        Ok(Some(el))
                    };
                    match el2 {
                        Ok(Some(e2)) => {
                            let acc2 = acc.push(e2);
                            lemma_all_matches_extend(left, p, np, qk, index + 1, acc2);
                            match spec_array_loop(left, p, np, qk, None, index + 1, acc2) {
                                Ok((Some(ElementModel::List(l)), _)) => {
                                    assert forall|k: int| 0 <= k < acc.len() implies l[k] == acc[k] by {
                                        assert(l.subrange(0, acc2.len() as int)[k] == acc2[k]);
                                    }
                                    assert(l.subrange(0, acc.len() as int) =~= acc);
                                },
                                _ => {},
                            }
                        },
                        _ => {},
                    }
                },
                Err(_) => {},
            }
        },
        _ => {},
    }
}

/// Over the rest `b` of an array, the first-match loop of `pf` finds the
/// element the all-matches loop of `pa` adds after those it had gathered
/// in `acc`, and nothing where it adds none.
proof fn lemma_first_of_all_loop(
    b: Seq<u8>,
    pa: PathModel,
    pf: PathModel,
    np: PathModel,
    qk: PathModel,
    index: nat,
    acc: Seq<ElementModel>,
)
    requires
        path_wf(pa),
        path_wf(pf),
        first_match_variant(pa, pf),
        pa.more ==> spec_parse_next(pa) == Ok::<PathModel, Error>(np),
        borrowed_query(pa).path.len() > 0 ==> spec_query_key(pa) == Ok::<PathModel, Error>(qk),
    ensures
        spec_array_loop(b, pa, np, qk, None, index, acc) matches Ok((Some(ElementModel::List(l)), _))
            ==> if l.len() > acc.len() {
            spec_array_loop(b, pf, np, qk, None, index, acc) matches Ok((Some(e), _)) && e == l[acc.len() as int]
        } else {
            spec_array_loop(b, pf, np, qk, None, index, acc) matches Ok((None, _))
        },
    decreases b.len(),
{
    assert(spec_parse_next(pf) == spec_parse_next(pa));
    assert(spec_query_key(pf) == spec_query_key(pa));
    lemma_read_one(b);
    match spec_read_one(b) {
        Ok((Some(el), left)) => {
            assert(spec_query_pass(el, pf, qk) == spec_query_pass(el, pa, qk));
            match spec_query_pass(el, pa, qk) {
                Ok(false) => {
                    lemma_first_of_all_loop(left, pa, pf, np, qk, index, acc);
                },
                Ok(true) => {
                    if pa.more {
                        lemma_next_smaller(pa);
                    }
                    let el2 = if pa.more {
                        crate::parser::spec_element_get(el, np)
                    } else {
                        Ok(Some(el))
                    };
                    match el2 {
                        Ok(Some(e2)) => {
                            let acc2 = acc.push(e2);
                            lemma_all_matches_extend(left, pa, np, qk, index + 1, acc2);
                            match spec_array_loop(left, pa, np, qk, None, index + 1, acc2) {
                                Ok((Some(ElementModel::List(l)), _)) => {
                                    assert(l.subrange(0, acc2.len() as int)[acc.len() as int] == e2);
                                },
                                _ => {},
                            }
                        },
                        Ok(None) => {
                            lemma_first_of_all_loop(left, pa, pf, np, qk, index + 1, acc);
                        },
                        Err(_) => {},
                    }
                },
                Err(_) => {},
            }
        },
        _ => {},
    }
}

/// The law that a first-match query finds the first of what the same
/// query finds as an all-matches query: in text whose first object or
/// array is an array, the step `pf` (a query written `#(...)`) gives the
/// first element of the list that the step `pa` (the query written
/// `#(...)#`) gives, and nothing where that list is empty. The steps' keys
/// name no index, as a query step's key never does.
pub proof fn lemma_first_match_is_first_of_all(b: Seq<u8>, pa: PathModel, pf: PathModel)
    requires
        path_wf(pa),
        path_wf(pf),
        first_match_variant(pa, pf),
        pa.ok,
        pa.selectors is None,
        spec_part_index(pa.part) == Ok::<Option<nat>, Error>(None),
        spec_part_index(pf.part) == Ok::<Option<nat>, Error>(None),
        0 <= first_compound(b, 0) < b.len(),
        b[first_compound(b, 0)] == chars::LBRACKET,
    ensures
        spec_bytes_get(b, pa) matches Ok((Some(ElementModel::List(l)), _)) ==> if l.len() > 0 {
            spec_bytes_get(b, pf) matches Ok((Some(e), _)) && e == l[0]
        } else {
            spec_bytes_get(b, pf) matches Ok((None, _))
        },
{
    let i = first_compound(b, 0);
    let t = b.subrange(i, b.len() as int);
    assert(spec_bytes_get(b, pa) == spec_array_get(t, pa));
    assert(spec_bytes_get(b, pf) == spec_array_get(t, pf));
    assert(spec_parse_next(pf) == spec_parse_next(pa));
    assert(spec_query_key(pf) == spec_query_key(pa));
    match spec_query_key(pa) {
        Ok(qk) => match spec_parse_next(pa) {
            Ok(np) => {
                lemma_first_of_all_loop(
                    t.subrange(1, t.len() as int),
                    pa,
                    pf,
                    np,
                    qk,
                    0,
                    Seq::empty(),
                );
            },
            Err(_) => {},
        },
        Err(_) => {},
    }
}

/// Over the rest `r` of an array, a counting step (a `#` with no query and
/// nothing after it) counts one for each value read, as gathering the
/// values into `vals` does, and fails where gathering fails.
proof fn lemma_count_loop(
    r: Seq<u8>,
    p: PathModel,
    np: PathModel,
    qk: PathModel,
    n: nat,
    acc: Seq<ElementModel>,
    vals: Seq<ElementModel>,
)
    requires
        path_wf(p),
        p.arrch,
        !p.more,
        !borrowed_query(p).on,
        borrowed_query(p).path.len() > 0 ==> spec_query_key(p) == Ok::<PathModel, Error>(qk),
    ensures
        match collect_values(r, vals) {
            Ok(l) => spec_array_loop(r, p, np, qk, None, n, acc) matches Ok(
                (Some(ElementModel::Count(c)), _),
            ) && c + vals.len() == n + l.len(),
            Err(e) => spec_array_loop(r, p, np, qk, None, n, acc) == Err::<
                (Option<ElementModel>, Seq<u8>),
                Error,
            >(e),
        },
    decreases r.len(),
{
    lemma_read_one(r);
    match spec_read_one(r) {
        Ok((Some(m), left)) => {
            lemma_count_loop(left, p, np, qk, n + 1, acc, vals.push(m));
            assert(spec_query_pass(m, p, qk) == Ok::<bool, Error>(true));
            assert(!returns_first(p));
            assert(!returns_list(p));
            assert(spec_array_loop(r, p, np, qk, None, n, acc) == spec_array_loop(left, p, np, qk, None, n + 1, acc));
            assert(collect_values(r, vals) == collect_values(left, vals.push(m)));
        },
        Ok((None, left)) => {
            assert(spec_array_loop(r, p, np, qk, None, n, acc) == Ok::<(Option<ElementModel>, Seq<u8>), Error>((Some(ElementModel::Count(n)), left)));
        },
        Err(e) => {},
    }
}

/// The law that `#` counts the values of an array: looked up in the text
/// of an array, the path `#` gives the number of values that reading the
/// array's values one by one gives (and the same error where that fails).
pub proof fn lemma_count_is_number_of_values(b: Seq<u8>)
    requires
        b.len() > 0,
        b[0] == chars::LBRACKET,
    ensures
        spec_get(b, seq![chars::HASH]) == match spec_bytes_to_vec(b) {
            Ok(l) => Ok::<Option<ElementModel>, Error>(Some(ElementModel::Count(l.len()))),
            Err(e) => Err::<Option<ElementModel>, Error>(e),
        },
{
    let v = seq![chars::HASH];
    let p0 = default_path_model();
    let p1 = PathModel { arrch: true, ..p0 };
    let p = PathModel { part: v, more: false, ok: true, ..p1 };
    assert(parse_scan(v, 1, 0, p1) == Ok::<PathModel, Error>(p));
    assert(parse_scan(v, 0, 0, p0) == parse_scan(v, 1, 0, p1));
    assert(spec_parse(v) == Ok::<PathModel, Error>(p));
    assert(first_compound(b, 0) == 0);
    assert(b.subrange(0, b.len() as int) =~= b);
    assert(vstd::utf8::valid_utf8(v)) by {
        reveal_with_fuel(vstd::utf8::valid_utf8, 2);
    }
    assert(spec_part_index(v) == Ok::<Option<nat>, Error>(None));
    assert(first_index_of(b, chars::LBRACKET, 0) == 0);
    let r = b.subrange(1, b.len() as int);
    lemma_count_loop(r, p, p0, p0, 0, Seq::empty(), Seq::empty());
}

/// A path of digits is one step whose key is the whole text.
proof fn lemma_digits_scan(v: Seq<u8>, i: int, p: PathModel)
    requires
        0 <= i,
        all_digits(v),
    ensures
        parse_scan(v, i, 0, p) == Ok::<PathModel, Error>(PathModel { part: v, more: false, ok: true, ..p }),
    decreases v.len() - i,
{
    if i < v.len() {
        assert(chars::is_digit(v[i]));
        lemma_digits_scan(v, i + 1, p);
    }
}

/// Over the rest `r` of an array, a step whose key names the index `k`
/// (with no query and nothing after it) reads the value gathering the
/// values after those in `vals` puts at position `k`, counting from
/// `index`, or nothing where there are too few.
proof fn lemma_index_loop(
    r: Seq<u8>,
    p: PathModel,
    np: PathModel,
    qk: PathModel,
    k: nat,
    index: nat,
    acc: Seq<ElementModel>,
    vals: Seq<ElementModel>,
)
    requires
        path_wf(p),
        !p.arrch,
        !p.more,
        !borrowed_query(p).on,
        borrowed_query(p).path.len() > 0 ==> spec_query_key(p) == Ok::<PathModel, Error>(qk),
        index <= k,
        index == vals.len(),
    ensures
        collect_values(r, vals) matches Ok(l) ==> spec_array_loop(r, p, np, qk, Some(k), index, acc)
            matches Ok((found, _)) && found == (if k < l.len() {
            Some(l[k as int])
        } else {
            None::<ElementModel>
        }),
    decreases r.len(),
{
    lemma_read_one(r);
    lemma_values_extend(r, vals);
    if index < k {
        match spec_read_one(r) {
            Ok((Some(m), left)) => {
                lemma_index_loop(left, p, np, qk, k, index + 1, acc, vals.push(m));
                assert(collect_values(r, vals) == collect_values(left, vals.push(m)));
                assert(spec_query_pass(m, p, qk) == Ok::<bool, Error>(true));
                assert(!returns_first(p));
                assert(!returns_list(p));
                assert(spec_array_loop(r, p, np, qk, Some(k), index, acc) == spec_array_loop(
                    left,
                    p,
                    np,
                    qk,
                    Some(k),
                    index + 1,
                    acc,
                ));
            },
            Ok((None, left)) => {
                assert(!returns_first(p));
                assert(!returns_list(p));
                assert(spec_array_loop(r, p, np, qk, Some(k), index, acc) == Ok::<
                    (Option<ElementModel>, Seq<u8>),
                    Error,
                >((None, left)));
            },
            Err(_) => {},
        }
    } else {
        match spec_read_one(r) {
            Ok((Some(m), left)) => {
                lemma_values_extend(left, vals.push(m));
                match collect_values(left, vals.push(m)) {
                    Ok(l) => {
                        assert(l.subrange(0, vals.len() + 1int)[vals.len() as int] == m);
                    },
                    _ => {},
                }
            },
            _ => {},
        }
    }
}

/// Gathering values keeps those gathered before at the front.
proof fn lemma_values_extend(r: Seq<u8>, vals: Seq<ElementModel>)
    ensures
        collect_values(r, vals) matches Ok(l) ==> vals.len() <= l.len() && l.subrange(0, vals.len() as int)
            == vals,
    decreases r.len(),
{
    lemma_read_one(r);
    match spec_read_one(r) {
        Ok((Some(m), left)) => {
            let v2 = vals.push(m);
            lemma_values_extend(left, v2);
            match collect_values(left, v2) {
                Ok(l) => {
                    assert forall|j: int| 0 <= j < vals.len() implies l[j] == vals[j] by {
                        assert(l.subrange(0, v2.len() as int)[j] == v2[j]);
                    }
                    assert(l.subrange(0, vals.len() as int) =~= vals);
                },
                _ => {},
            }
        },
        Ok((None, _)) => {
            assert(vals.subrange(0, vals.len() as int) =~= vals);
        },
        _ => {},
    }
}

/// The law that a number picks a value of an array: looked up in the text
/// of an array whose values read without error, a path of digits gives the
/// value at the position it spells, or nothing when the array is shorter.
pub proof fn lemma_index_picks_value(b: Seq<u8>, t: Seq<u8>)
    requires
        b.len() > 0,
        b[0] == chars::LBRACKET,
        t.len() > 0,
        all_digits(t),
        digits_value(t) <= usize::MAX,
    ensures
        spec_bytes_to_vec(b) matches Ok(l) ==> spec_get(b, t) == Ok::<Option<ElementModel>, Error>(
            if digits_value(t) < l.len() {
                Some(l[digits_value(t) as int])
            } else {
                None
            },
        ),
{
    let p0 = default_path_model();
    let p = PathModel { part: t, more: false, ok: true, ..p0 };
    lemma_digits_scan(t, 0, p0);
    assert(spec_parse(t) == Ok::<PathModel, Error>(p));
    assert(first_compound(b, 0) == 0);
    assert(b.subrange(0, b.len() as int) =~= b);
    lemma_ascii_text(t);
    assert(t[0] != chars::PLUS);
    assert(spec_part_index(t) == Ok::<Option<nat>, Error>(Some(digits_value(t))));
    assert(first_index_of(b, chars::LBRACKET, 0) == 0);
    let r = b.subrange(1, b.len() as int);
    lemma_index_loop(r, p, p0, p0, digits_value(t), 0, Seq::empty(), Seq::empty());
}

} // verus!
