//! Wildcard matching of keys: `?` stands for one character and `*` for one
//! or more, anywhere in the key.

use crate::chars;
use crate::text::{spec_utf8_lossy, utf8_lossy};
use vstd::prelude::*;
use vstd::utf8::encode_utf8;

verus! {

/// What `regex::Regex::new(pattern)` followed by `is_match(text)` gives:
/// `None` when the pattern does not compile, else whether the regular
/// expression matches somewhere in the text.
pub uninterp spec fn spec_regex_search(pattern: Seq<char>, text: Seq<char>) -> Option<bool>;

/// Compiles `pattern` with `regex::Regex::new` and, when that succeeds,
/// asks `Regex::is_match` whether it matches anywhere in `text`.
///
/// The contract names the result `spec_regex_search(pattern, text)`: the
/// outcome depends on the two texts alone. Nothing is claimed of which
/// patterns compile or what they match.
#[verifier::external_body]
fn regex_search(pattern: &str, text: &str) -> (r: Option<bool>)
    ensures
        r == spec_regex_search(pattern@, text@),
{
    match regex::Regex::new(pattern) {
        Ok(re) => Some(re.is_match(text)),
        Err(_) => None,
    }
}

/// The regular expression a wildcard pattern stands for, as bytes: every
/// `?` becomes `.` and every `*` becomes `.+?`; other bytes are kept.
pub open spec fn wild_pattern_bytes(p: Seq<u8>) -> Seq<u8>
    decreases p.len(),
{
    if p.len() == 0 {
        Seq::empty()
    } else {
        let rest = wild_pattern_bytes(p.drop_last());
        let c = p.last();
        if c == chars::QUESTION {
            rest.push(chars::DOT)
        } else if c == chars::STAR {
            rest + seq![chars::DOT, chars::PLUS, chars::QUESTION]
        } else {
            rest.push(c)
        }
    }
}

/// Whether `key` matches the wildcard `pattern`: the pattern's regular
/// expression must compile and match somewhere in the key. Both byte
/// strings are read as UTF-8.
pub open spec fn spec_wild_match(key: Seq<u8>, pattern: Seq<u8>) -> bool {
    spec_regex_search(spec_utf8_lossy(wild_pattern_bytes(pattern)), spec_utf8_lossy(key))
        == Some(true)
}

/// Turns a wildcard pattern into its regular expression; see
/// `wild_pattern_bytes`.
pub fn wild_pattern(pattern: &[u8]) -> (r: Vec<u8>)
    ensures
        r@ == wild_pattern_bytes(pattern@),
{
    let mut out: Vec<u8> = Vec::new();
    let mut i: usize = 0;
    while i < pattern.len()
        invariant
            i <= pattern@.len(),
            out@ == wild_pattern_bytes(pattern@.subrange(0, i as int)),
        decreases pattern@.len() - i,
    {
        let c = pattern[i];
        proof {
            let s = pattern@.subrange(0, i + 1);
            assert(s.drop_last() =~= pattern@.subrange(0, i as int));
            assert(s.last() == c);
        }
        if c == chars::QUESTION {
            out.push(chars::DOT);
        } else if c == chars::STAR {
            out.push(chars::DOT);
            out.push(chars::PLUS);
            out.push(chars::QUESTION);
        } else {
            out.push(c);
        }
        proof {
            let s = pattern@.subrange(0, i + 1);
            let rest = wild_pattern_bytes(s.drop_last());
            if c == chars::STAR {
                assert(out@ =~= rest + seq![chars::DOT, chars::PLUS, chars::QUESTION]);
            }
        }
        i += 1;
    }
    proof {
        assert(pattern@.subrange(0, pattern@.len() as int) =~= pattern@);
    }
    out
}

/// Whether the byte key `k1` matches the wildcard `pattern`; see
/// `spec_wild_match`. A pattern whose expression does not compile matches
/// nothing.
pub fn is_match_u8(k1: &[u8], pattern: &[u8]) -> (r: bool)
    ensures
        r == spec_wild_match(k1@, pattern@),
{
    let key = utf8_lossy(k1);
    let expr = wild_pattern(pattern);
    let pat = utf8_lossy(expr.as_slice());
    match regex_search(pat.as_str(), key.as_str()) {
        Some(b) => b,
        None => false,
    }
}

/// The regular expression the wildcard text `pattern` stands for.
pub open spec fn wild_regex(pattern: Seq<char>) -> Seq<char> {
    spec_utf8_lossy(wild_pattern_bytes(encode_utf8(pattern)))
}

/// Whether the text `k1` matches the wildcard `pattern`: the pattern's
/// regular expression must match somewhere in `k1`. The expression must
/// compile; see `is_match_checked` for a pattern that may not.
pub fn is_match(k1: &str, pattern: &str) -> (r: bool)
    requires
        spec_regex_search(wild_regex(pattern@), k1@) is Some,
    ensures
        r == (spec_regex_search(wild_regex(pattern@), k1@) == Some(true)),
{
    match is_match_checked(k1, pattern) {
        Some(b) => b,
        None => false,
    }
}

/// Whether the text `k1` matches the wildcard `pattern`, or nothing when
/// the pattern's regular expression does not compile.
pub fn is_match_checked(k1: &str, pattern: &str) -> (r: Option<bool>)
    ensures
        r == spec_regex_search(wild_regex(pattern@), k1@),
{
    let expr = wild_pattern(pattern.as_bytes());
    let pat = utf8_lossy(expr.as_slice());
    regex_search(pat.as_str(), k1)
}

/// The law that a pattern without `?` or `*` is its own regular
/// expression.
pub proof fn lemma_wild_pattern_plain(p: Seq<u8>)
    requires
        forall|k: int| 0 <= k < p.len() ==> p[k] != chars::QUESTION && p[k] != chars::STAR,
    ensures
        wild_pattern_bytes(p) == p,
    decreases p.len(),
{
    if p.len() > 0 {
        lemma_wild_pattern_plain(p.drop_last());
        assert(p.drop_last().push(p.last()) =~= p);
    }
}

} // verus!
