//! Small byte-slice helpers.

use crate::chars;
use vstd::prelude::*;

verus! {

/// Where `trim_u8` starts its result when scanning from `i`: leading `b`
/// bytes are skipped, but never the last byte.
pub open spec fn trim_start(v: Seq<u8>, b: u8, i: int) -> int
    decreases v.len() - i,
{
    if 0 <= i && i + 1 < v.len() && v[i] == b {
        trim_start(v, b, i + 1)
    } else {
        i
    }
}

/// Where `trim_u8` ends its result: trailing `b` bytes before `j` are
/// dropped, down to `i`.
pub open spec fn trim_end(v: Seq<u8>, b: u8, i: int, j: int) -> int
    decreases j - i,
{
    if j > i && 0 < j <= v.len() && v[j - 1] == b {
        trim_end(v, b, i, j - 1)
    } else {
        j
    }
}

/// `v` with the byte `b` stripped from both ends: the scan from the front
/// never passes the last byte, and the scan from the back stops where the
/// front one did.
pub open spec fn spec_trim(v: Seq<u8>, b: u8) -> Seq<u8> {
    if v.len() == 0 {
        v
    } else {
        let i = trim_start(v, b, 0);
        v.subrange(i, trim_end(v, b, i, v.len() as int))
    }
}

proof fn lemma_trim_start_bounds(v: Seq<u8>, b: u8, i: int)
    requires
        0 <= i < v.len(),
    ensures
        i <= trim_start(v, b, i) < v.len(),
    decreases v.len() - i,
{
    if i + 1 < v.len() && v[i] == b {
        lemma_trim_start_bounds(v, b, i + 1);
    }
}

proof fn lemma_trim_end_bounds(v: Seq<u8>, b: u8, i: int, j: int)
    requires
        0 <= i <= j <= v.len(),
    ensures
        i <= trim_end(v, b, i, j) <= j,
    decreases j - i,
{
    if j > i && v[j - 1] == b {
        lemma_trim_end_bounds(v, b, i, j - 1);
    }
}

/// Strips the byte `b` from both ends of `v`.
pub fn trim_u8(v: &[u8], b: u8) -> (r: &[u8])
    ensures
        r@ == spec_trim(v@, b),
{
    let length = v.len();
    let mut i: usize = 0;
    let mut j: usize = length;
    if length == 0 {
        return v;
    }
    while i < j - 1
        invariant
            j == length,
            length == v@.len(),
            length > 0,
            i < length,
            trim_start(v@, b, i as int) == trim_start(v@, b, 0),
        ensures
            i == trim_start(v@, b, 0),
        decreases j - i,
    {
        if v[i] == b {
            i += 1;
        } else {
            break;
        }
    }
    proof {
        lemma_trim_start_bounds(v@, b, 0);
    }
    while j > i
        invariant
            i <= j <= length,
            length == v@.len(),
            i == trim_start(v@, b, 0),
            trim_end(v@, b, i as int, j as int) == trim_end(v@, b, i as int, length as int),
        ensures
            j == trim_end(v@, b, i as int, length as int),
        decreases j,
    {
        if v[j - 1] == b {
            j -= 1;
        } else {
            break;
        }
    }
    &v[i..j]
}

/// The law of `trim_u8`: the result is the slice between the leading run
/// of `b` (which never swallows the last byte) and the trailing run of `b`.
pub proof fn lemma_trim_shape(v: Seq<u8>, b: u8)
    requires
        v.len() > 0,
    ensures
        ({
            let i = trim_start(v, b, 0);
            let j = trim_end(v, b, i, v.len() as int);
            &&& 0 <= i <= j <= v.len()
            &&& i < v.len()
            &&& forall|k: int| 0 <= k < i ==> v[k] == b
            &&& (i == v.len() - 1 || v[i] != b)
            &&& forall|k: int| j <= k < v.len() ==> v[k] == b
            &&& (j == i || v[j - 1] != b)
            &&& spec_trim(v, b) == v.subrange(i, j)
        }),
{
    lemma_trim_start_bounds(v, b, 0);
    let i = trim_start(v, b, 0);
    lemma_trim_end_bounds(v, b, i, v.len() as int);
    lemma_trim_start_facts(v, b, 0);
    lemma_trim_end_facts(v, b, i, v.len() as int);
}

proof fn lemma_trim_start_facts(v: Seq<u8>, b: u8, i: int)
    requires
        0 <= i < v.len(),
        forall|k: int| 0 <= k < i ==> v[k] == b,
    ensures
        forall|k: int| 0 <= k < trim_start(v, b, i) ==> v[k] == b,
        trim_start(v, b, i) == v.len() - 1 || v[trim_start(v, b, i)] != b,
    decreases v.len() - i,
{
    if i + 1 < v.len() && v[i] == b {
        lemma_trim_start_facts(v, b, i + 1);
    }
}

proof fn lemma_trim_end_facts(v: Seq<u8>, b: u8, i: int, j: int)
    requires
        0 <= i <= j <= v.len(),
        forall|k: int| j <= k < v.len() ==> v[k] == b,
    ensures
        forall|k: int| trim_end(v, b, i, j) <= k < v.len() ==> v[k] == b,
        trim_end(v, b, i, j) == i || v[trim_end(v, b, i, j) - 1] != b,
    decreases j - i,
{
    if j > i && v[j - 1] == b {
        lemma_trim_end_facts(v, b, i, j - 1);
    }
}

/// Strips spaces from both ends of `v`.
pub fn trim_space_u8(v: &[u8]) -> (r: &[u8])
    ensures
        r@ == spec_trim(v@, chars::SPACE),
{
    trim_u8(v, chars::SPACE)
}

/// Whether `a` and `b` agree once every backslash is treated as an escape
/// that introduces the byte after it.
pub open spec fn spec_equal_escape(a: Seq<u8>, b: Seq<u8>, i: int, j: int) -> bool
    decreases a.len() - i, b.len() - j,
{
    if !(0 <= i && 0 <= j) {
        false
    } else if i >= a.len() || j >= b.len() {
        i == a.len() && j == b.len()
    } else {
        let i2 = if a[i] == chars::BACKSLASH { i + 1 } else { i };
        let j2 = if b[j] == chars::BACKSLASH { j + 1 } else { j };
        if i2 >= a.len() || j2 >= b.len() {
            i2 == a.len() && j2 == b.len()
        } else if a[i2] != b[j2] {
            false
        } else {
            spec_equal_escape(a, b, i2 + 1, j2 + 1)
        }
    }
}

/// Compares two keys where a backslash escapes the byte after it.
pub fn equal_escape_u8(a: &[u8], b: &[u8]) -> (r: bool)
    ensures
        r == spec_equal_escape(a@, b@, 0, 0),
{
    let mut i: usize = 0;
    let mut j: usize = 0;
    while i < a.len() && j < b.len()
        invariant
            i <= a@.len(),
            j <= b@.len(),
            spec_equal_escape(a@, b@, 0, 0) == spec_equal_escape(a@, b@, i as int, j as int),
        ensures
            spec_equal_escape(a@, b@, 0, 0) == (i == a@.len() && j == b@.len()),
        decreases a@.len() - i,
    {
        if a[i] == chars::BACKSLASH {
            i += 1
        }
        if b[j] == chars::BACKSLASH {
            j += 1
        }
        if i >= a.len() || j >= b.len() {
            break;
        }
        if a[i] != b[j] {
            return false;
        }
        i += 1;
        j += 1;
    }
    !(j != b.len() || i != a.len())
}

/// The law that escape-aware comparison is symmetric.
pub proof fn lemma_equal_escape_symmetric(a: Seq<u8>, b: Seq<u8>, i: int, j: int)
    ensures
        spec_equal_escape(a, b, i, j) == spec_equal_escape(b, a, j, i),
    decreases a.len() - i, b.len() - j,
{
    if 0 <= i && 0 <= j && i < a.len() && j < b.len() {
        let i2 = if a[i] == chars::BACKSLASH { i + 1 } else { i };
        let j2 = if b[j] == chars::BACKSLASH { j + 1 } else { j };
        if i2 < a.len() && j2 < b.len() && a[i2] == b[j2] {
            lemma_equal_escape_symmetric(a, b, i2 + 1, j2 + 1);
        }
    }
}

/// The law that every key equals itself under escape-aware comparison.
pub proof fn lemma_equal_escape_reflexive(a: Seq<u8>, i: int)
    requires
        0 <= i <= a.len(),
    ensures
        spec_equal_escape(a, a, i, i),
    decreases a.len() - i,
{
    if i < a.len() {
        let i2 = if a[i] == chars::BACKSLASH { i + 1 } else { i };
        if i2 < a.len() {
            lemma_equal_escape_reflexive(a, i2 + 1);
        }
    }
}

/// Returns `v[start..end]` when that range is non-empty and in bounds,
/// and an empty slice otherwise.
pub fn safe_slice<T>(v: &[T], start: usize, end: usize) -> (r: &[T])
    ensures
        start < end <= v@.len() ==> r@ == v@.subrange(start as int, end as int),
        !(start < end <= v@.len()) ==> r@.len() == 0,
{
    if start < end && end <= v.len() {
        &v[start..end]
    } else {
        &v[0..0]
    }
}

/// Whether two byte slices hold the same bytes.
pub fn bytes_eq(a: &[u8], b: &[u8]) -> (r: bool)
    ensures
        r == (a@ == b@),
{
    if a.len() != b.len() {
        return false;
    }
    let mut i: usize = 0;
    while i < a.len()
        invariant
            a@.len() == b@.len(),
            i <= a@.len(),
            forall|k: int| 0 <= k < i ==> a@[k] == b@[k],
        decreases a@.len() - i,
    {
        if a[i] != b[i] {
            return false;
        }
        i += 1;
    }
    proof {
        assert(a@ =~= b@);
    }
    true
}

} // verus!
