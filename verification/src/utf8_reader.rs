//! A cursor over JSON bytes that reads strings and compound values.

use crate::chars;
use crate::text::{spec_utf8_lossy, utf8_lossy};
use vstd::utf8::{decode_utf8, valid_utf8};
use vstd::prelude::*;

verus! {

/// A cursor over `source`: `offset` is the position of the byte last read
/// (the first `next` reads the byte at the position without moving).
pub struct UTF8Reader<'a> {
    pub source: &'a [u8],
    start: bool,
    offset: usize,
    length: usize,
}

/// The model of a `UTF8Reader`: its bytes, its position and whether the
/// reading has started.
pub struct UTF8ReaderModel {
    pub source: Seq<u8>,
    pub offset: nat,
    pub start: bool,
}

/// The position a string scan stops at, where the next byte to read is at
/// `k`: the closing quote; a backslash makes it skip the byte after it; at
/// the end of the input it stays on the last byte read.
pub open spec fn string_skip_end(s: Seq<u8>, k: int) -> int
    decreases s.len() - k,
{
    if k < 0 || k >= s.len() {
        k - 1
    } else if s[k] == chars::QUOTE {
        k
    } else if s[k] == chars::BACKSLASH {
        if k + 1 < s.len() {
            string_skip_end(s, k + 2)
        } else {
            k
        }
    } else {
        string_skip_end(s, k + 1)
    }
}

/// The position a compound scan stops at, where the next byte to read is
/// at `k` and `depth` brackets are open: the bracket that closes the
/// outermost one; a backslash makes it skip the byte after it; at the end
/// of the input it stays on the last byte read.
pub open spec fn json_skip_end(s: Seq<u8>, k: int, depth: int) -> int
    decreases s.len() - k,
{
    if k < 0 || k >= s.len() {
        k - 1
    } else if s[k] == chars::BACKSLASH {
        if k + 1 < s.len() {
            json_skip_end(s, k + 2, depth)
        } else {
            k
        }
    } else if s[k] == chars::LBRACKET || s[k] == chars::LBRACE {
        json_skip_end(s, k + 1, depth + 1)
    } else if s[k] == chars::RBRACKET || s[k] == chars::RBRACE {
        if depth - 1 == 0 {
            k
        } else {
            json_skip_end(s, k + 1, depth - 1)
        }
    } else {
        json_skip_end(s, k + 1, depth)
    }
}

impl<'a> UTF8Reader<'a> {
    pub closed spec fn model(&self) -> UTF8ReaderModel {
        UTF8ReaderModel { source: self.source@, offset: self.offset as nat, start: self.start }
    }

    /// The fields agree: the length is the source's, and the position lies
    /// within it (at 0 for an empty source).
    pub closed spec fn wf(&self) -> bool {
        &&& self.length == self.source@.len()
        &&& (self.offset < self.length || (self.offset == 0 && self.length == 0))
    }

    /// The index of the next byte `next` reads.
    pub open spec fn next_index(&self) -> int {
        if self.model().start {
            self.model().offset + 1int
        } else {
            self.model().offset as int
        }
    }

    /// A reader at the start of `v`.
    pub fn new(v: &'a [u8]) -> (r: UTF8Reader<'a>)
        ensures
            r.wf(),
            r.model() == (UTF8ReaderModel { source: v@, offset: 0, start: false }),
    {
        UTF8Reader { source: v, offset: 0, start: false, length: v.len() }
    }

    /// The position.
    pub fn mark(&self) -> (r: usize)
        ensures
            r == self.model().offset,
    {
        self.offset
    }

    /// The length of the source.
    pub fn len(&self) -> (r: usize)
        requires
            self.wf(),
        ensures
            r == self.model().source.len(),
    {
        self.length
    }

    /// Moves back by `offset` when the position allows it.
    pub fn back(&mut self, offset: usize)
        requires
            old(self).wf(),
        ensures
            final(self).wf(),
            old(self).model().offset >= offset ==> final(self).model() == (UTF8ReaderModel {
                offset: (old(self).model().offset - offset) as nat,
                ..old(self).model()
            }),
            old(self).model().offset < offset ==> final(self).model() == old(self).model(),
    {
        if self.offset >= offset {
            self.offset -= offset
        }
    }

    /// The next byte: the byte at the position the first time, then the
    /// byte after it, or nothing at the end (where the position stays).
    pub fn next(&mut self) -> (r: Option<u8>)
        requires
            old(self).wf(),
            old(self).model().start || old(self).model().source.len() > 0,
        ensures
            final(self).wf(),
            final(self).model().start,
            final(self).model().source == old(self).model().source,
            ({
                let k = old(self).next_index();
                let s = old(self).model().source;
                if k < s.len() {
                    r == Some(s[k]) && final(self).model().offset == k
                } else {
                    r is None && final(self).model().offset == old(self).model().offset
                }
            }),
    {
        if !self.start {
            self.start = true;
            Some(self.source[self.offset])
        } else if self.offset + 1 < self.length {
            self.offset += 1;
            Some(self.source[self.offset])
        } else {
            None
        }
    }

    /// The byte at the position (marking the reading as started), or nothing
    /// when the position is past the end.
    pub fn peek(&mut self) -> (r: Option<u8>)
        requires
            old(self).wf(),
        ensures
            final(self).wf(),
            old(self).model().offset < old(self).model().source.len() ==> r == Some(
                old(self).model().source[old(self).model().offset as int],
            ) && final(self).model() == (UTF8ReaderModel { start: true, ..old(self).model() }),
            old(self).model().offset >= old(self).model().source.len() ==> r is None
                && final(self).model() == old(self).model(),
    {
        if self.offset < self.length {
            self.start = true;
            Some(self.source[self.offset])
        } else {
            None
        }
    }

    /// The bytes from `start` up to `end`, when that range is non-empty and
    /// lies before the position.
    pub fn slice(&self, start: usize, end: usize) -> (r: &'a [u8])
        requires
            self.wf(),
        ensures
            start < end <= self.model().offset ==> r@ == self.model().source.subrange(
                start as int,
                end as int,
            ),
            !(start < end <= self.model().offset) ==> r@.len() == 0,
    {
        if start < end && end <= self.offset {
            &self.source[start..end]
        } else {
            &self.source[0..0]
        }
    }

    /// The bytes before `offset`, when it is not past the position.
    pub fn head(&self, offset: usize) -> (r: &'a [u8])
        requires
            self.wf(),
        ensures
            offset <= self.model().offset ==> r@ == self.model().source.subrange(0, offset as int),
            offset > self.model().offset ==> r@.len() == 0,
    {
        if offset <= self.offset {
            &self.source[0..offset]
        } else {
            &self.source[0..0]
        }
    }

    /// The bytes through `offset`, when it is not past the position.
    pub fn head_contains_last(&self, offset: usize) -> (r: &'a [u8])
        requires
            self.wf(),
            self.model().source.len() > 0,
        ensures
            offset <= self.model().offset ==> r@ == self.model().source.subrange(0, offset + 1),
            offset > self.model().offset ==> r@.len() == 0,
    {
        if offset <= self.offset {
            &self.source[0..offset + 1]
        } else {
            &self.source[0..0]
        }
    }

    /// The bytes from `start` up to the position, when `start` lies before
    /// it.
    pub fn tail(&self, start: usize) -> (r: &'a [u8])
        requires
            self.wf(),
        ensures
            start < self.model().offset ==> r@ == self.model().source.subrange(
                start as int,
                self.model().offset as int,
            ),
            start >= self.model().offset ==> r@.len() == 0,
    {
        if start < self.offset {
            &self.source[start..self.offset]
        } else {
            &self.source[0..0]
        }
    }

    /// The bytes from `start` through the position, when `start` lies
    /// before it.
    pub fn tail_contains_last(&self, start: usize) -> (r: &'a [u8])
        requires
            self.wf(),
        ensures
            start < self.model().offset ==> r@ == self.model().source.subrange(
                start as int,
                self.model().offset + 1int,
            ),
            start >= self.model().offset ==> r@.len() == 0,
    {
        if start < self.offset {
            &self.source[start..self.offset + 1]
        } else {
            &self.source[0..0]
        }
    }

    /// Reads to the end of the string the reader is in: the position ends on
    /// the closing quote; see `string_skip_end`.
    pub fn skip_string(&mut self)
        requires
            old(self).wf(),
            old(self).model().start || old(self).model().source.len() > 0,
        ensures
            final(self).wf(),
            final(self).model() == (UTF8ReaderModel {
                offset: string_skip_end(old(self).model().source, old(self).next_index()) as nat,
                start: true,
                ..old(self).model()
            }),
    {
        let ghost s = self.source@;
        let ghost target = string_skip_end(s, old(self).next_index());
        loop
            invariant_except_break
                self.wf(),
                self.source@ == s,
                self.start || s.len() > 0,
                string_skip_end(s, self.next_index()) == target,
            ensures
                self.wf(),
                self.source@ == s,
                self.start,
                self.offset == target,
            decreases s.len() + 1 - self.next_index(),
        {
            match self.next() {
                Some(b) => {
                    if b == chars::QUOTE {
                        break;
                    }
                    if b == chars::BACKSLASH {
                        let ghost o2 = self.offset;
                        let _ = self.next();
                        proof {
                            if !(o2 + 1 < s.len()) {
                                assert(string_skip_end(s, o2 + 1) == o2);
                            }
                        }
                    }
                },
                None => {
                    break;
                },
            }
        }
    }

    /// The bytes of the string the reader is in, from after the position
    /// up to its closing quote.
    pub fn read_string_utf8(&mut self) -> (r: Vec<u8>)
        requires
            old(self).wf(),
            old(self).model().start || old(self).model().source.len() > 0,
            old(self).model().offset < usize::MAX,
        ensures
            final(self).wf(),
            final(self).model() == (UTF8ReaderModel {
                offset: string_skip_end(old(self).model().source, old(self).next_index()) as nat,
                start: true,
                ..old(self).model()
            }),
            old(self).model().offset + 1 < final(self).model().offset ==> r@ == old(self).model().source.subrange(
                old(self).model().offset + 1int,
                final(self).model().offset as int,
            ),
            !(old(self).model().offset + 1 < final(self).model().offset) ==> r@.len() == 0,
    {
        let start = self.mark() + 1;
        self.skip_string();
        let v = self.tail(start);
        slice_to_vec(v)
    }

    /// The text of the string the reader is in; see `read_string_utf8`.
    pub fn read_string(&mut self) -> (r: String)
        requires
            old(self).wf(),
            old(self).model().start || old(self).model().source.len() > 0,
            old(self).model().offset < usize::MAX,
        ensures
            final(self).wf(),
            final(self).model() == (UTF8ReaderModel {
                offset: string_skip_end(old(self).model().source, old(self).next_index()) as nat,
                start: true,
                ..old(self).model()
            }),
            old(self).model().offset + 1 < final(self).model().offset ==> r@ == spec_utf8_lossy(
                old(self).model().source.subrange(
                    old(self).model().offset + 1int,
                    final(self).model().offset as int,
                ),
            ),
            old(self).model().offset + 1 < final(self).model().offset && valid_utf8(
                old(self).model().source.subrange(
                    old(self).model().offset + 1int,
                    final(self).model().offset as int,
                ),
            ) ==> r@ == decode_utf8(
                old(self).model().source.subrange(
                    old(self).model().offset + 1int,
                    final(self).model().offset as int,
                ),
            ),
            !(old(self).model().offset + 1 < final(self).model().offset) ==> r@.len() == 0,
    {
        let start = self.mark() + 1;
        self.skip_string();
        let v = self.tail(start);
        proof {
            if !(start < self.offset) {
                assert(v@ =~= Seq::<u8>::empty());
            }
        }
        utf8_lossy(v)
    }

    /// The text of the array or object the reader is in, from the position
    /// through the bracket that closes it; see `json_skip_end`.
    pub fn read_json(&mut self) -> (r: String)
        requires
            old(self).wf(),
            old(self).model().start || old(self).model().source.len() > 0,
        ensures
            final(self).wf(),
            final(self).model() == (UTF8ReaderModel {
                offset: json_skip_end(old(self).model().source, old(self).next_index(), 1) as nat,
                start: true,
                ..old(self).model()
            }),
            old(self).model().offset < final(self).model().offset ==> r@ == spec_utf8_lossy(
                old(self).model().source.subrange(
                    old(self).model().offset as int,
                    final(self).model().offset + 1int,
                ),
            ),
            old(self).model().offset < final(self).model().offset && valid_utf8(
                old(self).model().source.subrange(
                    old(self).model().offset as int,
                    final(self).model().offset + 1int,
                ),
            ) ==> r@ == decode_utf8(
                old(self).model().source.subrange(
                    old(self).model().offset as int,
                    final(self).model().offset + 1int,
                ),
            ),
            !(old(self).model().offset < final(self).model().offset) ==> r@.len() == 0,
    {
        let start = self.mark();
        let ghost s = self.source@;
        let ghost target = json_skip_end(s, old(self).next_index(), 1);
        let mut depth: i128 = 1;
        loop
            invariant_except_break
                self.wf(),
                self.source@ == s,
                self.start || s.len() > 0,
                json_skip_end(s, self.next_index(), depth as int) == target,
                -(self.next_index() + 1) <= depth <= self.next_index() + 1,
            ensures
                self.wf(),
                self.source@ == s,
                self.start,
                self.offset == target,
            decreases s.len() + 1 - self.next_index(),
        {
            match self.next() {
                Some(b) => {
                    if b == chars::BACKSLASH {
                        let ghost o2 = self.offset;
                        let _ = self.next();
                        proof {
                            if !(o2 + 1 < s.len()) {
                                assert(json_skip_end(s, o2 + 1, depth as int) == o2);
                            }
                        }
                    } else if b == chars::LBRACKET || b == chars::LBRACE {
                        depth += 1;
                    } else if b == chars::RBRACKET || b == chars::RBRACE {
                        depth -= 1;
                        if depth == 0 {
                            break;
                        }
                    }
                },
                None => {
                    break;
                },
            }
        }
        let v = self.tail_contains_last(start);
        proof {
            if !(start < self.offset) {
                assert(v@ =~= Seq::<u8>::empty());
            }
        }
        utf8_lossy(v)
    }
}

/// A copy of the bytes of `v`.
fn slice_to_vec(v: &[u8]) -> (r: Vec<u8>)
    ensures
        r@ == v@,
{
    let mut out: Vec<u8> = Vec::new();
    let mut i: usize = 0;
    while i < v.len()
        invariant
            i <= v@.len(),
            out@ == v@.subrange(0, i as int),
        decreases v@.len() - i,
    {
        out.push(v[i]);
        i += 1;
        proof {
            assert(out@ =~= v@.subrange(0, i as int));
        }
    }
    proof {
        assert(v@.subrange(0, v@.len() as int) =~= v@);
    }
    out
}

} // verus!
