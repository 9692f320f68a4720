//! A dotted path looks its keys up one inside the other: after a plain key
//! of an object, the rest of the path is looked up in that key's value.

use crate::chars;
use crate::element::{lemma_read_one, spec_read_one, ElementModel};
use crate::number::{all_digits, digits_value, lemma_ascii_text};
use crate::parser::{
    first_compound, first_index_of, lemma_next_smaller, returns_first, returns_list,
    spec_array_get, spec_array_loop, spec_bytes_get, spec_element_get,
    spec_element_ref_get, spec_object_scan, spec_part_index, spec_query_key, spec_query_pass, GetModel,
};
use crate::path::parser::{is_close_byte, is_open_byte, lemma_parse_wf, parse_scan, spec_parse};
use crate::path::{borrowed_query, default_path_model, path_wf, spec_parse_next, PathModel};
use crate::spec_get;
use crate::element::{compound_scan, lemma_string_scan_bounds, value_of, value_start};
use crate::value::Value;
use vstd::utf8::{
    decode_utf8, encode_utf8, is_char_boundary, is_char_boundary_iff_not_is_continuation_byte,
    is_char_boundary_start_end_of_seq, pop_first_scalar, valid_utf8, valid_utf8_split,
};
use crate::Error;
use vstd::prelude::*;

verus! {

/// A key with none of the bytes the path language gives a meaning: no
/// dot, backslash, `#`, `*`, `?` or bracket.
pub open spec fn plain_key(a: Seq<u8>) -> bool {
    &&& a.len() > 0
    &&& forall|k: int| 0 <= k < a.len() ==> plain_byte(#[trigger] a[k])
}

/// A byte the path language gives no meaning.
pub open spec fn plain_byte(c: u8) -> bool {
    &&& c != chars::DOT
    &&& c != chars::BACKSLASH
    &&& c != chars::HASH
    &&& c != chars::STAR
    &&& c != chars::QUESTION
    &&& !is_open_byte(c)
    &&& !is_close_byte(c)
}

/// What the second of two chained lookups gives: the lookup of the step
/// `pb` in what the first found (inside an array or object; nothing in any
/// other value), and the first one's error or nothing as they are.
pub open spec fn chained(first: GetModel, pb: PathModel) -> GetModel {
    match first {
        Ok(Some(m)) => spec_element_ref_get(m, pb),
        other => other,
    }
}

/// The scan over the plain bytes of a key reaches the position `end`.
proof fn lemma_plain_scan(v: Seq<u8>, i: int, end: int, p: PathModel)
    requires
        0 <= i <= end <= v.len(),
        forall|k: int| 0 <= k < end ==> plain_byte(#[trigger] v[k]),
    ensures
        parse_scan(v, i, 0, p) == parse_scan(v, end, 0, p),
    decreases end - i,
{
    if i < end {
        assert(plain_byte(v[i]));
        lemma_plain_scan(v, i + 1, end, p);
    }
}

/// Scanning an object for the steps `pab` (a key with more after it) and
/// `pa` (the same key alone) gives the chained lookup of the rest `pb`.
proof fn lemma_object_scan_chained(t: Seq<u8>, pab: PathModel, pa: PathModel, pb: PathModel, i: int)
    requires
        path_wf(pab),
        path_wf(pa),
        path_wf(pb),
        pab.more,
        !pa.more,
        spec_parse_next(pab) == Ok::<PathModel, Error>(pb),
        pab.part == pa.part,
        pab.wild == pa.wild,
        pab.esc == pa.esc,
    ensures
        (match spec_object_scan(t, pab, i) {
            Ok((r, _)) => Ok::<Option<ElementModel>, Error>(r),
            Err(e) => Err(e),
        }) == chained(
            match spec_object_scan(t, pa, i) {
                Ok((r, _)) => Ok::<Option<ElementModel>, Error>(r),
                Err(e) => Err(e),
            },
            pb,
        ),
    decreases t.len() - i,
{
    lemma_next_smaller(pab);
    if 0 <= i < t.len() && t[i] != chars::RBRACE {
        if t[i] != chars::QUOTE {
            lemma_object_scan_chained(t, pab, pa, pb, i + 1);
        } else {
            let input = t.subrange(i, t.len() as int);
            crate::element::lemma_string_scan_bounds(input, 1);
            let e = crate::element::string_close(input, 0);
            let left = input.subrange(e, input.len() as int);
            let key = input.subrange(0, e);
            let esc = crate::element::string_scan_escaped(input, 1);
            if key.len() >= 2 {
                let kk = key.subrange(1, key.len() - 1);
                assert(crate::path::spec_is_match(pab, kk, esc) == crate::path::spec_is_match(pa, kk, esc));
                if crate::path::spec_is_match(pa, kk, esc) {
                    assert(spec_object_scan(t, pab, i) == crate::parser::spec_step_into(left, pb));
                    assert(spec_object_scan(t, pa, i) == spec_read_one(left));
                }
            }
            lemma_read_one(left);
            match spec_read_one(left) {
                Ok((Some(_), left2)) => {
                    lemma_object_scan_chained(left2, pab, pa, pb, 0);
                },
                _ => {},
            }
        }
    }
}

/// The law that a dotted path looks its keys up one inside the other: in
/// text whose first object or array is an object, the path `a.b` (with `a`
/// a plain key and `b` a path that parses) gives what looking `b` up in
/// the value that `a` gives does: the lookup of `b` inside that value when
/// it is an array or object, and nothing when it is any other value.
pub proof fn lemma_dotted_is_chained(j: Seq<u8>, a: Seq<u8>, b: Seq<u8>)
    requires
        plain_key(a),
        spec_parse(b) is Ok,
        0 <= first_compound(j, 0) < j.len(),
        j[first_compound(j, 0)] == chars::LBRACE,
    ensures
        spec_get(j, a + seq![chars::DOT] + b) == chained(spec_get(j, a), spec_parse(b)->Ok_0),
{
    let v = a + seq![chars::DOT] + b;
    let p0 = default_path_model();
    assert forall|k: int| 0 <= k < a.len() implies plain_byte(#[trigger] v[k]) by {
        assert(v[k] == a[k]);
        assert(plain_byte(a[k]));
    }
    lemma_plain_scan(v, 0, a.len() as int, p0);
    assert(v[a.len() as int] == chars::DOT);
    assert(v.subrange(0, a.len() as int) =~= a);
    assert(v.subrange(a.len() + 1int, v.len() as int) =~= b);
    let pab = PathModel { part: a, ok: true, more: true, next: b, ..p0 };
    assert(spec_parse(v) == Ok::<PathModel, Error>(pab));
    lemma_plain_scan(a, 0, a.len() as int, p0);
    let pa = PathModel { part: a, more: false, ok: true, ..p0 };
    assert(spec_parse(a) == Ok::<PathModel, Error>(pa));
    lemma_parse_wf(v);
    lemma_parse_wf(a);
    lemma_parse_wf(b);
    let pb = spec_parse(b)->Ok_0;
    let i = first_compound(j, 0);
    let t = j.subrange(i, j.len() as int);
    assert(spec_bytes_get(j, pab) == spec_object_scan(t, pab, 1));
    assert(spec_bytes_get(j, pa) == spec_object_scan(t, pa, 1));
    lemma_object_scan_chained(t, pab, pa, pb, 1);
}

/// The values read one after the other from `rest`, after the values
/// `acc` read before, until there are `n` in all or no value follows; an
/// error in reading one of them is the result.
pub open spec fn collect_first(rest: Seq<u8>, acc: Seq<ElementModel>, n: nat) -> core::result::Result<
    Seq<ElementModel>,
    Error,
>
    decreases rest.len(),
{
    if acc.len() >= n {
        Ok(acc)
    } else {
        match spec_read_one(rest) {
            Err(e) => Err(e),
            Ok((None, _)) => Ok(acc),
            Ok((Some(m), left)) => {
                proof {
                    lemma_read_one(rest);
                }
                collect_first(left, acc.push(m), n)
            },
        }
    }
}

/// The values read first start with the values read before.
proof fn lemma_first_extend(r: Seq<u8>, vals: Seq<ElementModel>, n: nat)
    ensures
        collect_first(r, vals, n) matches Ok(l) ==> vals.len() <= l.len() && l.subrange(0, vals.len() as int)
            == vals,
    decreases r.len(),
{
    lemma_read_one(r);
    if vals.len() >= n {
        assert(vals.subrange(0, vals.len() as int) =~= vals);
    } else {
        match spec_read_one(r) {
            Ok((Some(m), left)) => {
                let v2 = vals.push(m);
                lemma_first_extend(left, v2, n);
                match collect_first(left, v2, n) {
                    Ok(l) => {
                        assert forall|j: int| 0 <= j < vals.len() implies l[j] == vals[j] by {
                            assert(l.subrange(0, v2.len() as int)[j] == v2[j]);
                        }
                        assert(l.subrange(0, vals.len() as int) =~= vals);
                    },
                    _ => {},
                }
            },
            Ok((None, _)) => {
                assert(vals.subrange(0, vals.len() as int) =~= vals);
            },
            _ => {},
        }
    }
}

/// Over the rest `r` of an array, the step `pab` (an index `k` with more
/// after it) gives the chained lookup of the rest `pb` in what the step
/// `pa` (the same index alone) gives, when the value at `k` is there and
/// the rest finds no error in the values before it.
proof fn lemma_index_loop_chained(
    r: Seq<u8>,
    pab: PathModel,
    pa: PathModel,
    pb: PathModel,
    qk: PathModel,
    k: nat,
    index: nat,
    acc_ab: Seq<ElementModel>,
    acc_a: Seq<ElementModel>,
    vals: Seq<ElementModel>,
    l: Seq<ElementModel>,
)
    requires
        path_wf(pab),
        path_wf(pa),
        path_wf(pb),
        pab.more,
        !pa.more,
        !pab.arrch,
        !pa.arrch,
        pab.query is None,
        pa.query is None,
        spec_parse_next(pab) == Ok::<PathModel, Error>(pb),
        index == vals.len(),
        index <= k < l.len(),
        collect_first(r, vals, k + 1) == Ok::<Seq<ElementModel>, Error>(l),
        forall|x: int| index <= x < k ==> #[trigger] spec_element_get(l[x], pb) is Ok,
    ensures
        (match spec_array_loop(r, pab, pb, qk, Some(k), index, acc_ab) {
            Ok((x, _)) => Ok::<Option<ElementModel>, Error>(x),
            Err(e) => Err(e),
        }) == chained(
            match spec_array_loop(r, pa, default_path_model(), qk, Some(k), index, acc_a) {
                Ok((x, _)) => Ok::<Option<ElementModel>, Error>(x),
                Err(e) => Err(e),
            },
            pb,
        ),
    decreases r.len(),
{
    lemma_next_smaller(pab);
    lemma_read_one(r);
    lemma_first_extend(r, vals, k + 1);
    if index < k {
        match spec_read_one(r) {
            Ok((Some(m), left)) => {
                assert(collect_first(r, vals, k + 1) == collect_first(left, vals.push(m), k + 1));
                lemma_first_extend(left, vals.push(m), k + 1);
                assert(l.subrange(0, vals.len() + 1int)[index as int] == m);
                assert(l[index as int] == m);
                assert(spec_query_pass(m, pab, qk) == Ok::<bool, Error>(true));
                assert(spec_query_pass(m, pa, qk) == Ok::<bool, Error>(true));
                assert(!returns_first(pab) && !returns_first(pa));
                assert(spec_element_get(m, pb) is Ok);
                let acc2 = if returns_list(pab) {
                    match spec_element_get(m, pb) {
                        Ok(Some(e2)) => acc_ab.push(e2),
                        _ => acc_ab,
                    }
                } else {
                    acc_ab
                };
                assert(spec_array_loop(r, pab, pb, qk, Some(k), index, acc_ab) == spec_array_loop(
                    left,
                    pab,
                    pb,
                    qk,
                    Some(k),
                    index + 1,
                    acc2,
                ));
                assert(spec_array_loop(r, pa, default_path_model(), qk, Some(k), index, acc_a)
                    == spec_array_loop(left, pa, default_path_model(), qk, Some(k), index + 1, acc_a));
                lemma_index_loop_chained(left, pab, pa, pb, qk, k, index + 1, acc2, acc_a, vals.push(m), l);
            },
            Ok((None, _)) => {
                assert(collect_first(r, vals, k + 1) == Ok::<Seq<ElementModel>, Error>(vals));
            },
            Err(_) => {},
        }
    } else {
        assert(spec_array_loop(r, pab, pb, qk, Some(k), index, acc_ab) == crate::parser::spec_step_into(r, pb));
        assert(spec_array_loop(r, pa, default_path_model(), qk, Some(k), index, acc_a) == spec_read_one(r));
    }
}

/// The law that a dotted path looks an index up and then the rest inside
/// the value found: in the text of an array whose values up to position
/// `k` read without error, the path `k.b` (with `k` digits naming a
/// position within the array and `b` a path that parses) gives what
/// looking `b` up in the value at `k` does, where `b` finds no error in
/// the values before it.
pub proof fn lemma_dotted_index_is_chained(j: Seq<u8>, a: Seq<u8>, b: Seq<u8>)
    requires
        a.len() > 0,
        all_digits(a),
        digits_value(a) <= usize::MAX,
        spec_parse(b) is Ok,
        j.len() > 0,
        j[0] == chars::LBRACKET,
        collect_first(j.subrange(1, j.len() as int), Seq::empty(), digits_value(a) + 1) matches Ok(l)
            && digits_value(a) < l.len() && forall|x: int|
            0 <= x < digits_value(a) ==> #[trigger] spec_element_get(l[x], spec_parse(b)->Ok_0) is Ok,
    ensures
        spec_get(j, a + seq![chars::DOT] + b) == chained(spec_get(j, a), spec_parse(b)->Ok_0),
{
    let v = a + seq![chars::DOT] + b;
    let p0 = default_path_model();
    assert forall|k: int| 0 <= k < a.len() implies plain_byte(#[trigger] a[k]) by {
        assert(chars::is_digit(a[k]));
    }
    assert forall|k: int| 0 <= k < a.len() implies plain_byte(#[trigger] v[k]) by {
        assert(v[k] == a[k]);
        assert(plain_byte(a[k]));
    }
    lemma_plain_scan(v, 0, a.len() as int, p0);
    assert(v[a.len() as int] == chars::DOT);
    assert(v.subrange(0, a.len() as int) =~= a);
    assert(v.subrange(a.len() + 1int, v.len() as int) =~= b);
    let pab = PathModel { part: a, ok: true, more: true, next: b, ..p0 };
    assert(spec_parse(v) == Ok::<PathModel, Error>(pab));
    lemma_plain_scan(a, 0, a.len() as int, p0);
    let pa = PathModel { part: a, more: false, ok: true, ..p0 };
    assert(spec_parse(a) == Ok::<PathModel, Error>(pa));
    lemma_parse_wf(v);
    lemma_parse_wf(a);
    lemma_parse_wf(b);
    let pb = spec_parse(b)->Ok_0;
    assert(first_compound(j, 0) == 0);
    assert(j.subrange(0, j.len() as int) =~= j);
    lemma_ascii_text(a);
    assert(a[0] != chars::PLUS);
    assert(spec_part_index(a) == Ok::<Option<nat>, Error>(Some(digits_value(a))));
    assert(spec_query_key(pab) == Ok::<PathModel, Error>(p0));
    assert(spec_query_key(pa) == Ok::<PathModel, Error>(p0));
    assert(spec_parse_next(pa) == Ok::<PathModel, Error>(p0));
    assert(spec_bytes_get(j, pab) == spec_array_get(j, pab));
    assert(spec_bytes_get(j, pa) == spec_array_get(j, pa));
    assert(first_index_of(j, chars::LBRACKET, 0) == 0);
    let r = j.subrange(1, j.len() as int);
    let l = collect_first(r, Seq::empty(), digits_value(a) + 1)->Ok_0;
    if j.len() == 1 {
        lemma_read_one(r);
        assert(l.len() == 0);
    } else {
        lemma_index_loop_chained(r, pab, pa, pb, p0, digits_value(a), 0, Seq::empty(), Seq::empty(), Seq::empty(), l);
    }
}

/// The bytes of valid UTF-8 text from an ASCII byte up to just after an
/// ASCII byte (or to the end) are valid UTF-8 too.
proof fn lemma_ascii_bounded_valid(j: Seq<u8>, x: int, y: int)
    requires
        valid_utf8(j),
        0 <= x < y <= j.len(),
        j[x] < 128,
        y == j.len() || j[y - 1] < 128,
    ensures
        valid_utf8(j.subrange(x, y)),
{
    is_char_boundary_iff_not_is_continuation_byte(j, x);
    valid_utf8_split(j, x);
    let s = j.subrange(x, j.len() as int);
    let e = y - x;
    if e == s.len() {
        is_char_boundary_start_end_of_seq(s);
    } else {
        assert(s[e - 1] == j[y - 1]);
        is_char_boundary_iff_not_is_continuation_byte(s, e - 1);
        valid_utf8_split(s, e - 1);
        let t = s.subrange(e - 1, s.len() as int);
        assert(t[0] == s[e - 1]);
        assert(t.len() > 0);
        assert(valid_utf8(pop_first_scalar(t)));
        assert(pop_first_scalar(t) =~= s.subrange(e, s.len() as int));
        let u = s.subrange(e, s.len() as int);
        assert(u.len() > 0);
        assert(u[0] == s[e]);
        is_char_boundary_iff_not_is_continuation_byte(s, e);
    }
    valid_utf8_split(s, e);
    assert(s.subrange(0, e) =~= j.subrange(x, y));
}

/// A compound scan ends at the end of the input or just after a closing
/// bracket.
proof fn lemma_compound_end(b: Seq<u8>, i: int, depth: nat)
    requires
        0 <= i,
    ensures
        compound_scan(b, i, depth) == b.len() || (1 <= compound_scan(b, i, depth) <= b.len() && (
        b[compound_scan(b, i, depth) - 1] == chars::RBRACKET || b[compound_scan(b, i, depth) - 1]
            == chars::RBRACE)),
    decreases b.len() - i,
{
    if 0 <= i < b.len() {
        let c = b[i];
        if c == chars::QUOTE {
            lemma_string_scan_bounds(b, i + 1);
            lemma_compound_end(b, crate::element::string_close(b, i), depth);
        } else if c == chars::LBRACKET || c == chars::LBRACE {
            lemma_compound_end(b, i + 1, depth + 1);
        } else if c == chars::RBRACKET || c == chars::RBRACE {
            if depth > 1 {
                lemma_compound_end(b, i + 1, (depth - 1) as nat);
            }
        } else {
            lemma_compound_end(b, i + 1, depth);
        }
    }
}

/// What reading a value leaves is the end of its input.
proof fn lemma_read_value_rest(l2: Seq<u8>)
    requires
        l2.len() > 0,
    ensures
        crate::element::spec_read_value(l2) matches Ok((Some(m), rest)) ==> rest.len() <= l2.len()
            && rest == l2.subrange(l2.len() - rest.len(), l2.len() as int) && !(m is List) && !(
        m is Fields) && !(m is Count),
{
    let c = l2[0];
    let len = l2.len() as int;
    let n: int = if c == chars::QUOTE {
        lemma_string_scan_bounds(l2, 1);
        crate::element::string_close(l2, 0)
    } else if c == chars::LOWER_T || c == chars::LOWER_N {
        4
    } else if c == chars::LOWER_F {
        5
    } else if c == chars::LBRACE || c == chars::LBRACKET {
        crate::element::lemma_compound_scan_bounds(l2, 1, 1);
        crate::element::compound_len(l2)
    } else {
        crate::element::lemma_number_scan_bounds(l2, 0);
        crate::element::number_scan(l2, 0)
    };
    match crate::element::spec_read_value(l2) {
        Ok((Some(_), rest)) => {
            if !(c == chars::RBRACE || c == chars::RBRACKET) {
                assert(rest == l2.subrange(n, len));
                assert(l2.subrange(n, len) =~= l2.subrange(len - (len - n), len));
            }
        },
        _ => {},
    }
}

/// An array or object that a one-key scan of an object finds in a part of
/// valid UTF-8 text `j` (a part running to its end) is valid UTF-8.
proof fn lemma_found_value_valid(j: Seq<u8>, b: Seq<u8>, pa: PathModel, i: int)
    requires
        valid_utf8(j),
        b.len() <= j.len(),
        b == j.subrange(j.len() - b.len(), j.len() as int),
        path_wf(pa),
        !pa.more,
        0 <= i,
    ensures
        spec_object_scan(b, pa, i) matches Ok((Some(m), _)) ==> (m matches ElementModel::Object(raw)
            ==> valid_utf8(raw)) && (m matches ElementModel::Array(raw) ==> valid_utf8(raw)) && !(
        m is List) && !(m is Fields) && !(m is Count),
    decreases b.len() - i,
{
    if 0 <= i < b.len() && b[i] != chars::RBRACE {
        if b[i] != chars::QUOTE {
            lemma_found_value_valid(j, b, pa, i + 1);
        } else {
            let input = b.subrange(i, b.len() as int);
            lemma_string_scan_bounds(input, 1);
            let e = crate::element::string_close(input, 0);
            let left = input.subrange(e, input.len() as int);
            let off = j.len() - left.len();
            assert(left =~= j.subrange(off, j.len() as int));
            lemma_read_one(left);
            crate::element::lemma_value_start_bounds(left, 0);
            let v0 = value_start(left, 0);
            if v0 < left.len() {
                let l2 = left.subrange(v0, left.len() as int);
                lemma_read_value_rest(l2);
                let x = j.len() - l2.len();
                assert(l2 =~= j.subrange(x, j.len() as int));
                if l2[0] == chars::LBRACE || l2[0] == chars::LBRACKET {
                    lemma_compound_end(l2, 1, 1);
                    crate::element::lemma_compound_scan_bounds(l2, 1, 1);
                    let ce = compound_scan(l2, 1, 1);
                    assert(j[x] == l2[0]);
                    if x + ce < j.len() {
                        assert(j[x + ce - 1] == l2[ce - 1]);
                    }
                    lemma_ascii_bounded_valid(j, x, x + ce);
                    assert(l2.subrange(0, ce) =~= j.subrange(x, x + ce));
                }
                match spec_read_one(left) {
                    Ok((Some(_), left2)) => {
                        lemma_read_value_rest(l2);
                        assert(left2 =~= l2.subrange(l2.len() - left2.len(), l2.len() as int));
                        let off2 = j.len() - left2.len();
                        assert(left2 =~= j.subrange(off2, j.len() as int));
                        lemma_found_value_valid(j, left2, pa, 0);
                    },
                    _ => {},
                }
            }
        }
    }
}

/// The text a value is looked up in by `Value::get`: the bytes of an
/// object's or array's text, nothing for any other value.
pub open spec fn value_text(v: Value) -> Seq<u8> {
    match v {
        Value::Object(s) => encode_utf8(s@),
        Value::Array(s) => encode_utf8(s@),
        _ => Seq::empty(),
    }
}

/// What `w.get(b)` looks up: `b` in the text of an array or object,
/// nothing in any other value.
pub open spec fn value_lookup(w: Value, b: Seq<u8>) -> GetModel {
    match w {
        Value::Object(t) => spec_get(encode_utf8(t@), b),
        Value::Array(t) => spec_get(encode_utf8(t@), b),
        _ => Ok::<Option<ElementModel>, Error>(None),
    }
}

/// The law that a dotted path on a value looks its keys up one inside the
/// other: for an object value `v` whose text starts (after text with no
/// bracket) with an object, `a` a plain key and `b` a path that parses,
/// `v.get("a.b")` finds what `v.get("a")` finds looked up by `b`: nothing
/// where `a` finds nothing, and where `a` finds the value `w`, what
/// `w.get(b)` finds (the lookup in its text for an array or object,
/// nothing for any other value). `Value::get` gives the value of the
/// lookup in `value_text(v)`, and `value_lookup(w, b)` is what `w.get(b)`
/// looks up.
pub proof fn lemma_value_get_is_chained(v: Value, a: Seq<u8>, b: Seq<u8>, w: Value)
    requires
        v is Object || v is Array,
        plain_key(a),
        spec_parse(b) is Ok,
        0 <= first_compound(value_text(v), 0) < value_text(v).len(),
        value_text(v)[first_compound(value_text(v), 0)] == chars::LBRACE,
    ensures
        spec_get(value_text(v), a) == Ok::<Option<ElementModel>, Error>(None) ==> spec_get(
            value_text(v),
            a + seq![chars::DOT] + b,
        ) == Ok::<Option<ElementModel>, Error>(None),
        (spec_get(value_text(v), a) matches Ok(Some(m)) && value_of(w, m)) ==> spec_get(
            value_text(v),
            a + seq![chars::DOT] + b,
        ) == value_lookup(w, b),
{
    let jt = value_text(v);
    match v {
        Value::Object(s) => {
            vstd::utf8::encode_utf8_valid_utf8(s@);
        },
        Value::Array(s) => {
            vstd::utf8::encode_utf8_valid_utf8(s@);
        },
        _ => {},
    }
    assert(valid_utf8(jt));
    lemma_dotted_is_chained(jt, a, b);
    let p0 = default_path_model();
    lemma_plain_scan(a, 0, a.len() as int, p0);
    let pa = PathModel { part: a, more: false, ok: true, ..p0 };
    assert(spec_parse(a) == Ok::<PathModel, Error>(pa));
    lemma_parse_wf(a);
    lemma_parse_wf(b);
    let pb = spec_parse(b)->Ok_0;
    let fc = first_compound(jt, 0);
    let t = jt.subrange(fc, jt.len() as int);
    assert(spec_bytes_get(jt, pa) == spec_object_scan(t, pa, 1));
    assert(t =~= jt.subrange(jt.len() - t.len(), jt.len() as int));
    lemma_found_value_valid(jt, t, pa, 1);
    match spec_get(jt, a) {
        Ok(Some(m)) => {
            if value_of(w, m) {
                match m {
                    ElementModel::Object(raw) => {
                        vstd::utf8::decode_utf8_encode_utf8(raw);
                    },
                    ElementModel::Array(raw) => {
                        vstd::utf8::decode_utf8_encode_utf8(raw);
                    },
                    _ => {},
                }
            }
        },
        _ => {},
    }
}

/// The value an index step (with nothing after it) reads from the rest `r`
/// of an array in valid UTF-8 text `j` (a part running to its end) is a
/// value as read, and valid UTF-8 when it is an array or object.
proof fn lemma_index_found_valid(
    j: Seq<u8>,
    r: Seq<u8>,
    pa: PathModel,
    qk: PathModel,
    k: nat,
    index: nat,
    acc: Seq<ElementModel>,
)
    requires
        valid_utf8(j),
        r.len() <= j.len(),
        r == j.subrange(j.len() - r.len(), j.len() as int),
        path_wf(pa),
        !pa.more,
        !pa.arrch,
        pa.query is None,
    ensures
        spec_array_loop(r, pa, default_path_model(), qk, Some(k), index, acc) matches Ok((Some(m), _))
            ==> (m matches ElementModel::Object(raw) ==> valid_utf8(raw)) && (
        m matches ElementModel::Array(raw) ==> valid_utf8(raw)) && !(m is List) && !(m is Fields)
            && !(m is Count),
    decreases r.len(),
{
    lemma_read_one(r);
    crate::element::lemma_value_start_bounds(r, 0);
    let v0 = value_start(r, 0);
    if v0 < r.len() {
        let l2 = r.subrange(v0, r.len() as int);
        lemma_read_value_rest(l2);
        let x = j.len() - l2.len();
        assert(l2 =~= j.subrange(x, j.len() as int));
        if l2[0] == chars::LBRACE || l2[0] == chars::LBRACKET {
            lemma_compound_end(l2, 1, 1);
            crate::element::lemma_compound_scan_bounds(l2, 1, 1);
            let ce = compound_scan(l2, 1, 1);
            assert(j[x] == l2[0]);
            if x + ce < j.len() {
                assert(j[x + ce - 1] == l2[ce - 1]);
            }
            lemma_ascii_bounded_valid(j, x, x + ce);
            assert(l2.subrange(0, ce) =~= j.subrange(x, x + ce));
        }
        if index != k {
            match spec_read_one(r) {
                Ok((Some(m0), left)) => {
                    assert(left =~= l2.subrange(l2.len() - left.len(), l2.len() as int));
                    let off = j.len() - left.len();
                    assert(left =~= j.subrange(off, j.len() as int));
                    assert(spec_query_pass(m0, pa, qk) == Ok::<bool, Error>(true));
                    assert(!returns_first(pa) && !returns_list(pa));
                    assert(spec_array_loop(r, pa, default_path_model(), qk, Some(k), index, acc)
                        == spec_array_loop(left, pa, default_path_model(), qk, Some(k), index + 1, acc));
                    lemma_index_found_valid(j, left, pa, qk, k, index + 1, acc);
                },
                _ => {},
            }
        }
    }
}

/// The law that a dotted path on an array value looks an index up and
/// then the rest inside the value found: for an array value `v` whose
/// values up to position `k` read without error, `k` digits naming a
/// position within it and `b` a path that parses and finds no error in the
/// values before `k`, `v.get("k.b")` finds what `w.get(b)` finds, where `w`
/// is what `v.get("k")` finds.
pub proof fn lemma_value_get_index_is_chained(v: Value, a: Seq<u8>, b: Seq<u8>, w: Value)
    requires
        v is Object || v is Array,
        a.len() > 0,
        all_digits(a),
        digits_value(a) <= usize::MAX,
        spec_parse(b) is Ok,
        value_text(v).len() > 0,
        value_text(v)[0] == chars::LBRACKET,
        collect_first(value_text(v).subrange(1, value_text(v).len() as int), Seq::empty(), digits_value(a) + 1)
            matches Ok(l) && digits_value(a) < l.len() && forall|x: int|
            0 <= x < digits_value(a) ==> #[trigger] spec_element_get(l[x], spec_parse(b)->Ok_0) is Ok,
    ensures
        (spec_get(value_text(v), a) matches Ok(Some(m)) && value_of(w, m)) ==> spec_get(
            value_text(v),
            a + seq![chars::DOT] + b,
        ) == value_lookup(w, b),
{
    let jt = value_text(v);
    match v {
        Value::Object(s) => {
            vstd::utf8::encode_utf8_valid_utf8(s@);
        },
        Value::Array(s) => {
            vstd::utf8::encode_utf8_valid_utf8(s@);
        },
        _ => {},
    }
    lemma_parse_wf(b);
    lemma_dotted_index_is_chained(jt, a, b);
    let p0 = default_path_model();
    assert forall|k: int| 0 <= k < a.len() implies plain_byte(#[trigger] a[k]) by {
        assert(chars::is_digit(a[k]));
    }
    lemma_plain_scan(a, 0, a.len() as int, p0);
    let pa = PathModel { part: a, more: false, ok: true, ..p0 };
    assert(spec_parse(a) == Ok::<PathModel, Error>(pa));
    lemma_parse_wf(a);
    lemma_ascii_text(a);
    assert(a[0] != chars::PLUS);
    assert(spec_part_index(a) == Ok::<Option<nat>, Error>(Some(digits_value(a))));
    assert(spec_query_key(pa) == Ok::<PathModel, Error>(p0));
    assert(spec_parse_next(pa) == Ok::<PathModel, Error>(p0));
    assert(first_compound(jt, 0) == 0);
    assert(jt.subrange(0, jt.len() as int) =~= jt);
    assert(spec_bytes_get(jt, pa) == spec_array_get(jt, pa));
    let r = jt.subrange(1, jt.len() as int);
    assert(r =~= jt.subrange(jt.len() - r.len(), jt.len() as int));
    lemma_index_found_valid(jt, r, pa, p0, digits_value(a), 0, Seq::empty());
    match spec_get(jt, a) {
        Ok(Some(m)) => {
            if value_of(w, m) {
                match m {
                    ElementModel::Object(raw) => {
                        vstd::utf8::decode_utf8_encode_utf8(raw);
                    },
                    ElementModel::Array(raw) => {
                        vstd::utf8::decode_utf8_encode_utf8(raw);
                    },
                    _ => {},
                }
            }
        },
        _ => {},
    }
}

} // verus!
