//! Selectors: the `{a,b:c}` and `[a,b]` groups of a path.

use crate::chars;
use crate::element::{string_close, string_u8, lemma_string_scan_bounds};
use crate::util::{spec_trim, trim_u8};
use vstd::prelude::*;

verus! {

/// One member of a selector group: the name it is given in the result and
/// the path that picks its value.
pub struct SubSelector<'a> {
    pub name: &'a [u8],
    pub path: &'a [u8],
}

/// The model of a selector: its name and its path.
pub type SelectorModel = (Seq<u8>, Seq<u8>);

impl<'a> SubSelector<'a> {
    /// A selector with the given name and path.
    pub fn new(name: &'a [u8], path: &'a [u8]) -> (r: SubSelector<'a>)
        ensures
            r.name@ == name@,
            r.path@ == path@,
    {
        SubSelector { name, path }
    }

    pub open spec fn model(&self) -> SelectorModel {
        (self.name@, self.path@)
    }
}

/// The models of a list of selectors.
pub open spec fn selectors_model(v: Seq<SubSelector>) -> Seq<SelectorModel> {
    Seq::new(v.len(), |i: int| v[i].model())
}

/// The backward scan of `last_of_name` from `i`: a dot ends the name, and a
/// backslash hides the byte before it. A scan that reaches the start (or a
/// backslash there) keeps the whole input.
pub open spec fn last_name_scan(v: Seq<u8>, i: int) -> Seq<u8>
    decreases i,
{
    if i < 0 || i >= v.len() {
        v
    } else if v[i] == chars::BACKSLASH {
        if i <= 1 {
            v
        } else {
            last_name_scan(v, i - 2)
        }
    } else if v[i] == chars::DOT {
        v.subrange(i + 1, v.len() as int)
    } else if i == 0 {
        v
    } else {
        last_name_scan(v, i - 1)
    }
}

/// The name a selector without a colon gets: what follows its last dot.
pub open spec fn spec_last_of_name(v: Seq<u8>) -> Seq<u8> {
    if v.len() == 0 {
        v
    } else {
        last_name_scan(v, v.len() - 1)
    }
}

/// The part of a selector path after its last dot; see `spec_last_of_name`.
pub fn last_of_name(v: &[u8]) -> (r: &[u8])
    ensures
        r@ == spec_last_of_name(v@),
{
    if v.len() == 0 {
        return v;
    }
    let mut i: usize = v.len() - 1;
    loop
        invariant
            i < v@.len(),
            last_name_scan(v@, i as int) == spec_last_of_name(v@),
        decreases i,
    {
        let c = v[i];
        if c == chars::BACKSLASH {
            if i <= 1 {
                return v;
            }
            i -= 2;
        } else if c == chars::DOT {
            return &v[i + 1..v.len()];
        } else {
            if i == 0 {
                return v;
            }
            i -= 1;
        }
    }
}

/// The selector ending at `i` that starts at `start`: with no colon it is
/// named after its path, else the name stands before the colon (quotes
/// stripped) and the path after it. Nothing is added for an empty range.
pub open spec fn push_selector(
    v: Seq<u8>,
    start: int,
    i: int,
    colon: int,
    sels: Seq<SelectorModel>,
) -> Seq<SelectorModel> {
    if start < i {
        if colon == 0 {
            let p = v.subrange(start, i);
            sels.push((spec_last_of_name(p), p))
        } else {
            sels.push((spec_trim(v.subrange(start, colon), chars::QUOTE), v.subrange(colon + 1, i)))
        }
    } else {
        sels
    }
}

/// The scan of `parse_selectors` from position `i`, with the bracket depth,
/// the start of the current selector, the position of its colon (0 when
/// there is none) and the selectors found so far.
pub open spec fn selector_scan(
    v: Seq<u8>,
    i: int,
    depth: int,
    start: int,
    colon: int,
    sels: Seq<SelectorModel>,
) -> (Seq<SelectorModel>, int, bool)
    decreases v.len() + 2 - i,
{
    if i < 0 || i >= v.len() {
        (Seq::empty(), 0, false)
    } else {
        let c = v[i];
        if c == chars::BACKSLASH {
            selector_scan(v, i + 2, depth, start, colon, sels)
        } else if c == chars::QUOTE {
            let n = string_close(v.subrange(i, v.len() as int), 0);
            if n >= 1 {
                selector_scan(v, i + n, depth, start, colon, sels)
            } else {
                (Seq::empty(), 0, false)
            }
        } else if c == chars::COLON {
            selector_scan(v, i + 1, depth, start, if depth == 1 { i } else { colon }, sels)
        } else if c == chars::COMMA {
            if depth == 1 {
                selector_scan(v, i + 1, depth, i + 1, 0, push_selector(v, start, i, colon, sels))
            } else {
                selector_scan(v, i + 1, depth, start, colon, sels)
            }
        } else if c == chars::LBRACKET || c == chars::LPAREN || c == chars::LBRACE {
            selector_scan(v, i + 1, depth + 1, if depth + 1 == 1 { i + 1 } else { start }, colon, sels)
        } else if c == chars::RBRACKET || c == chars::RPAREN || c == chars::RBRACE {
            if depth - 1 == 0 {
                (push_selector(v, start, i, colon, sels), i, true)
            } else {
                selector_scan(v, i + 1, depth - 1, start, colon, sels)
            }
        } else {
            selector_scan(v, i + 1, depth, start, colon, sels)
        }
    }
}

/// What `parse_selectors` finds in `v`: the selectors of the group that
/// `v` opens, the position of the group's closing bracket, and whether the
/// group was closed.
pub open spec fn spec_parse_selectors(v: Seq<u8>) -> (Seq<SelectorModel>, int, bool) {
    selector_scan(v, 0, 0, 0, 0, Seq::empty())
}

proof fn lemma_string_close_positive(v: Seq<u8>, i: int)
    requires
        0 <= i < v.len(),
    ensures
        1 <= string_close(v.subrange(i, v.len() as int), 0) <= v.len() - i,
{
    let t = v.subrange(i, v.len() as int);
    lemma_string_scan_bounds(t, 1);
}

/// Reads the selector group that `v` opens; see `spec_parse_selectors`.
/// Within the group, strings are skipped whole and a backslash skips the
/// byte after it.
pub fn parse_selectors(v: &[u8]) -> (r: (Vec<SubSelector>, usize, bool))
    ensures
        (selectors_model(r.0@), r.1 as int, r.2) == spec_parse_selectors(v@),
{
    let len = v.len();
    let mut i: usize = 0;
    let mut depth: i128 = 0;
    let mut start: usize = 0;
    let mut colon: usize = 0;
    let mut sels: Vec<SubSelector> = Vec::new();
    proof {
        assert(selectors_model(sels@) =~= Seq::empty());
    }
    while i < len
        invariant
            len == v@.len(),
            -(i as int) <= depth <= i as int,
            start <= i,
            colon == 0 || (start <= colon < i && depth >= 1),
            i <= len,
            selector_scan(v@, i as int, depth as int, start as int, colon as int, selectors_model(sels@))
                == spec_parse_selectors(v@),
        decreases len + 2 - i,
    {
        let c = v[i];
        if c == chars::BACKSLASH {
            let ghost i0 = i as int;
            if len - i >= 2 {
                i += 2;
            } else {
                i = len;
                assert(selector_scan(v@, i0 + 2, depth as int, start as int, colon as int, selectors_model(sels@))
                    == selector_scan(v@, i as int, depth as int, start as int, colon as int, selectors_model(sels@)));
            }
        } else if c == chars::QUOTE {
            proof {
                lemma_string_close_positive(v@, i as int);
            }
            let (a, _rest, _esc) = match string_u8(&v[i..len]) {
                Ok(t) => t,
                Err(_) => {
                    return (Vec::new(), 0, false);
                },
            };
            i += a.len();
        } else if c == chars::COLON {
            if depth == 1 {
                colon = i;
            }
            i += 1;
        } else if c == chars::COMMA {
            if depth == 1 {
                push_sel(v, start, i, colon, &mut sels);
                colon = 0;
                start = i + 1;
            }
            i += 1;
        } else if c == chars::LBRACKET || c == chars::LPAREN || c == chars::LBRACE {
            depth += 1;
            if depth == 1 {
                start = i + 1;
            }
            i += 1;
        } else if c == chars::RBRACKET || c == chars::RPAREN || c == chars::RBRACE {
            depth -= 1;
            if depth == 0 {
                push_sel(v, start, i, colon, &mut sels);
                return (sels, i, true);
            }
            i += 1;
        } else {
            i += 1;
        }
    }
    (Vec::new(), 0, false)
}

/// Adds the selector between `start` and `i` to `sels`; see
/// `push_selector`.
fn push_sel<'a>(v: &'a [u8], start: usize, i: usize, colon: usize, sels: &mut Vec<SubSelector<'a>>)
    requires
        start <= i <= v@.len(),
        colon == 0 || (start <= colon < i),
    ensures
        selectors_model(final(sels)@) == push_selector(
            v@,
            start as int,
            i as int,
            colon as int,
            selectors_model(old(sels)@),
        ),
{
    if start < i {
        let sel = if colon == 0 {
            let p = &v[start..i];
            SubSelector::new(last_of_name(p), p)
        } else {
            SubSelector::new(trim_u8(&v[start..colon], chars::QUOTE), &v[colon + 1..i])
        };
        sels.push(sel);
        proof {
            assert(selectors_model(sels@) =~= push_selector(
                v@,
                start as int,
                i as int,
                colon as int,
                selectors_model(old(sels)@),
            ));
        }
    }
}

} // verus!
