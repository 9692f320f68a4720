//! A cursor over a byte slice.

use vstd::prelude::*;

verus! {

/// A cursor over a byte slice: `position` is the index of the current byte,
/// and equals the length once the cursor has run off the end.
pub struct Bytes<'a> {
    buffer: &'a [u8],
    offset: usize,
    max_offset: usize,
}

/// What a byte visitor asks the cursor to do next.
pub enum ReaderAction {
    Break,
    Skip(usize),
    Seek(usize),
    Continue,
}

impl<'a> Bytes<'a> {
    /// The cursor's fields are consistent: it never points past the end.
    pub closed spec fn wf(&self) -> bool {
        &&& self.max_offset == self.buffer@.len()
        &&& self.offset <= self.max_offset
    }

    /// The bytes the cursor runs over.
    pub closed spec fn buffer_view(&self) -> Seq<u8> {
        self.buffer@
    }

    /// The cursor's position.
    pub closed spec fn pos(&self) -> nat {
        self.offset as nat
    }

    /// A cursor at the start of `source`.
    pub fn new(source: &'a [u8]) -> (r: Bytes<'a>)
        ensures
            r.wf(),
            r.buffer_view() == source@,
            r.pos() == 0,
    {
        Bytes { buffer: source, offset: 0, max_offset: source.len() }
    }

    /// Puts the cursor at the start of `input`.
    pub fn reset(&mut self, input: &'a [u8])
        ensures
            final(self).wf(),
            final(self).buffer_view() == input@,
            final(self).pos() == 0,
    {
        *self = Bytes::new(input)
    }

    /// The bytes from the cursor to the end.
    pub fn get_buffer(&self) -> (r: &'a [u8])
        requires
            self.wf(),
        ensures
            r@ == self.buffer_view().subrange(self.pos() as int, self.buffer_view().len() as int),
    {
        &self.buffer[self.offset..self.max_offset]
    }

    fn overflow(&self) -> (r: bool)
        requires
            self.wf(),
        ensures
            r == (self.pos() == self.buffer_view().len()),
    {
        self.offset == self.max_offset
    }

    /// The part of `v` from the cursor's position on; empty once the cursor
    /// has run off the end of its own buffer.
    pub fn tail<'b>(&self, v: &'b [u8]) -> (r: &'b [u8])
        requires
            self.wf(),
            self.pos() <= v@.len(),
        ensures
            self.pos() == self.buffer_view().len() ==> r@.len() == 0,
            self.pos() < self.buffer_view().len() ==> r@ == v@.subrange(
                self.pos() as int,
                v@.len() as int,
            ),
    {
        if self.overflow() {
            return &v[0..0];
        }
        &v[self.position()..v.len()]
    }

    /// The part of `v` up to and including index `end`.
    pub fn head<'b>(&self, v: &'b [u8], end: usize) -> (r: &'b [u8])
        requires
            end < v.len(),
        ensures
            r@ == v@.subrange(0, end + 1),
    {
        &v[0..end + 1]
    }

    /// Moves the cursor `offset` bytes on, stopping at the end.
    pub fn forward(&mut self, offset: usize)
        requires
            old(self).wf(),
            old(self).pos() + offset <= usize::MAX,
        ensures
            final(self).wf(),
            final(self).buffer_view() == old(self).buffer_view(),
            final(self).pos() == if old(self).pos() + offset < old(self).buffer_view().len() {
                (old(self).pos() + offset) as nat
            } else {
                old(self).buffer_view().len()
            },
    {
        let prev = self.position();
        self.seek(prev + offset);
    }

    /// The cursor's position.
    pub fn position(&self) -> (r: usize)
        ensures
            r == self.pos(),
    {
        self.offset
    }

    /// The cursor's position.
    pub fn offset(&self) -> (r: usize)
        ensures
            r == self.pos(),
    {
        self.offset
    }

    /// Moves on by one byte and returns the byte now under the cursor, or
    /// `None` once the cursor has run off the end.
    pub fn next(&mut self) -> (r: Option<u8>)
        requires
            old(self).wf(),
        ensures
            final(self).wf(),
            final(self).buffer_view() == old(self).buffer_view(),
            old(self).pos() + 1 < old(self).buffer_view().len() ==> final(self).pos() == old(
                self,
            ).pos() + 1 && r == Some(old(self).buffer_view()[(old(self).pos() + 1) as int]),
            old(self).pos() + 1 >= old(self).buffer_view().len() ==> final(self).pos()
                == old(self).buffer_view().len() && r is None,
    {
        if self.offset >= self.max_offset || self.max_offset - self.offset == 1 {
            self.offset = self.max_offset;
            return None;
        }
        self.offset += 1;
        Some(self.buffer[self.offset])
    }

    /// The byte under the cursor, or `None` at the end.
    pub fn peek(&self) -> (r: Option<u8>)
        requires
            self.wf(),
        ensures
            self.pos() < self.buffer_view().len() ==> r == Some(
                self.buffer_view()[self.pos() as int],
            ),
            self.pos() == self.buffer_view().len() ==> r is None,
    {
        if self.overflow() {
            return None;
        }
        Some(self.buffer[self.offset])
    }

    /// Moves the cursor to `new`, or to the end if `new` lies past it.
    pub fn seek(&mut self, new: usize)
        requires
            old(self).wf(),
        ensures
            final(self).wf(),
            final(self).buffer_view() == old(self).buffer_view(),
            final(self).pos() == if new < old(self).buffer_view().len() {
                new as nat
            } else {
                old(self).buffer_view().len()
            },
    {
        if new < self.max_offset {
            self.offset = new;
        } else {
            self.offset = self.max_offset;
        }
    }

    /// The bytes from `start` up to and including `end`.
    pub fn slice(&self, start: usize, end: usize) -> (r: &'a [u8])
        requires
            self.wf(),
            start <= end < self.buffer_view().len(),
        ensures
            r@ == self.buffer_view().subrange(start as int, end + 1),
    {
        &self.buffer[start..end + 1]
    }
    /// Carries out what a byte visitor asked for: a `Skip` moves on, a
    /// `Seek` moves to the given position (both stopping at the end), a
    /// `Continue` leaves the cursor; the result says whether to go on
    /// visiting, which a `Break` stops.
    pub fn apply_action(&mut self, action: ReaderAction) -> (go_on: bool)
        requires
            old(self).wf(),
            action matches ReaderAction::Skip(n) ==> old(self).pos() + n <= usize::MAX,
        ensures
            final(self).wf(),
            final(self).buffer_view() == old(self).buffer_view(),
            go_on == !(action is Break),
            final(self).pos() == match action {
                ReaderAction::Skip(n) => if old(self).pos() + n < old(self).buffer_view().len() {
                    (old(self).pos() + n) as nat
                } else {
                    old(self).buffer_view().len()
                },
                ReaderAction::Seek(n) => if n < old(self).buffer_view().len() {
                    n as nat
                } else {
                    old(self).buffer_view().len()
                },
                _ => old(self).pos(),
            },
    {
        match action {
            ReaderAction::Break => false,
            ReaderAction::Skip(n) => {
                self.forward(n);
                true
            },
            ReaderAction::Seek(n) => {
                self.seek(n);
                true
            },
            ReaderAction::Continue => true,
        }
    }
}

} // verus!
