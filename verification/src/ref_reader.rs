//! Readers that hand bytes out one at a time, in the manner of a stream:
//! the first `next` gives the first byte, and a reader stays on the last
//! byte once its input is read over. On top of that, readers find where a
//! literal, a string, a number or an array or object ends.

use crate::chars;
use crate::element::is_number_byte;
use vstd::prelude::*;

verus! {

/// The state of a stream of bytes: its bytes, the position of the byte
/// last handed out, whether reading has started, and whether it is over.
pub struct StreamModel {
    pub bytes: Seq<u8>,
    pub pos: nat,
    pub started: bool,
    pub over: bool,
}

/// A consistent stream: the position lies within the bytes (at 0 for no
/// bytes, which are read over from the start), and it is 0 before the
/// reading starts.
pub open spec fn stream_wf(s: StreamModel) -> bool {
    &&& s.bytes.len() <= usize::MAX
    &&& (s.bytes.len() == 0 ==> s.over && s.pos == 0)
    &&& (s.bytes.len() > 0 ==> s.pos < s.bytes.len())
    &&& (!s.started ==> s.pos == 0)
    &&& (s.over ==> s.pos + 1 >= s.bytes.len())
}

/// What `next` hands out, and the stream after it: the first byte when
/// the reading starts, then the byte after the position, until there is
/// none and the stream is over.
pub open spec fn stream_next(s: StreamModel) -> (Option<u8>, StreamModel) {
    if s.over {
        (None, s)
    } else if !s.started {
        (Some(s.bytes[0]), StreamModel { started: true, ..s })
    } else if s.pos + 1 >= s.bytes.len() {
        (None, StreamModel { over: true, ..s })
    } else {
        (Some(s.bytes[s.pos + 1int]), StreamModel { pos: s.pos + 1, ..s })
    }
}

/// What `peek` hands out, and the stream after it: the byte at the
/// position, starting the reading if it has not started.
pub open spec fn stream_peek(s: StreamModel) -> (Option<u8>, StreamModel) {
    if s.over {
        (None, s)
    } else if !s.started {
        (Some(s.bytes[0]), StreamModel { started: true, ..s })
    } else {
        (Some(s.bytes[s.pos as int]), s)
    }
}

/// The stream after `n` calls of `next`.
pub open spec fn stream_advance(s: StreamModel, n: nat) -> StreamModel
    decreases n,
{
    if n == 0 {
        s
    } else {
        stream_next(stream_advance(s, (n - 1) as nat)).1
    }
}

/// How much of the stream is left to hand out; each `next` that hands a
/// byte out lowers it.
pub open spec fn stream_left(s: StreamModel) -> nat {
    if s.over {
        0
    } else if !s.started {
        s.bytes.len() + 1
    } else {
        (s.bytes.len() - s.pos) as nat
    }
}

/// `next` and `peek` keep a stream consistent; `next` never adds to what
/// is left, and lowers it when it hands a byte out.
pub proof fn lemma_stream_step(s: StreamModel)
    requires
        stream_wf(s),
    ensures
        stream_wf(stream_next(s).1),
        stream_wf(stream_peek(s).1),
        stream_left(stream_next(s).1) <= stream_left(s),
        stream_next(s).0 is Some ==> stream_left(stream_next(s).1) < stream_left(s),
        stream_next(s).1.bytes == s.bytes,
        stream_peek(s).1.bytes == s.bytes,
        stream_left(stream_peek(s).1) <= stream_left(s) + 1,
{
}

/// The stream where the scan of an array or object that `read_json_value`
/// makes stops, from `s` at bracket depth `depth`: a backslash skips the
/// byte after it, and the bracket that closes the outermost one ends it.
pub open spec fn json_value_scan(s: StreamModel, depth: nat) -> StreamModel
    decreases stream_left(s),
    when stream_wf(s)
{
    proof {
        lemma_stream_step(s);
    }
    let (b, s2) = stream_next(s);
    match b {
        None => s2,
        Some(c) => if c == chars::BACKSLASH {
            proof {
                lemma_stream_step(s2);
            }
            json_value_scan(stream_next(s2).1, depth)
        } else if c == chars::LBRACKET || c == chars::LBRACE {
            json_value_scan(s2, depth + 1)
        } else if c == chars::RBRACKET || c == chars::RBRACE {
            if depth <= 1 {
                s2
            } else {
                json_value_scan(s2, (depth - 1) as nat)
            }
        } else {
            json_value_scan(s2, depth)
        },
    }
}

/// The stream where the scan of a string that `read_str_value` makes
/// stops, and whether it found the closing quote: a backslash skips the
/// byte after it.
pub open spec fn str_value_scan(s: StreamModel) -> (StreamModel, bool)
    decreases stream_left(s),
    when stream_wf(s)
{
    proof {
        lemma_stream_step(s);
    }
    let (b, s2) = stream_next(s);
    match b {
        None => (s2, false),
        Some(c) => if c == chars::QUOTE {
            (s2, true)
        } else if c == chars::BACKSLASH {
            proof {
                lemma_stream_step(s2);
            }
            str_value_scan(stream_next(s2).1)
        } else {
            str_value_scan(s2)
        },
    }
}

/// The stream where the scan of a number that `read_number_value` makes
/// stops: at the first byte that is no digit, minus sign or dot, or where
/// the bytes run out.
pub open spec fn number_value_scan(s: StreamModel) -> StreamModel
    decreases stream_left(s),
    when stream_wf(s)
{
    proof {
        lemma_stream_step(s);
    }
    let (b, s2) = stream_next(s);
    match b {
        None => s2,
        Some(c) => if is_number_byte(c) {
            number_value_scan(s2)
        } else {
            s2
        },
    }
}

/// The length of the literal whose first byte is `c`: `true`, `false` or
/// `null`.
pub open spec fn literal_len(c: u8) -> nat {
    if c == chars::LOWER_T {
        4
    } else if c == chars::LOWER_F {
        5
    } else {
        4
    }
}

/// Reading bytes one at a time from a source.
pub trait ByteReader: Sized {
    /// The reader's state is consistent.
    spec fn reader_wf(&self) -> bool;

    /// The stream the reader stands for.
    spec fn stream(&self) -> StreamModel;

    /// A consistent reader stands for a consistent stream.
    proof fn lemma_reader_stream(&self)
        requires
            self.reader_wf(),
        ensures
            stream_wf(self.stream()),
    ;

    /// The position of the byte last handed out.
    fn position(&self) -> (r: usize)
        requires
            self.reader_wf(),
        ensures
            r == self.stream().pos,
    ;

    /// The next byte, or nothing once the input is read over; see
    /// `stream_next`.
    fn next(&mut self) -> (r: Option<u8>)
        requires
            old(self).reader_wf(),
        ensures
            final(self).reader_wf(),
            (r, final(self).stream()) == stream_next(old(self).stream()),
    ;

    /// The byte at the position without moving on (the very first call
    /// starts the reading); see `stream_peek`.
    fn peek(&mut self) -> (r: Option<u8>)
        requires
            old(self).reader_wf(),
        ensures
            final(self).reader_wf(),
            (r, final(self).stream()) == stream_peek(old(self).stream()),
    ;

    /// Moves to the position `new`, which must lie within the input.
    fn seek(&mut self, new: usize)
        requires
            old(self).reader_wf(),
            new < old(self).stream().bytes.len(),
        ensures
            final(self).reader_wf(),
            final(self).stream() == (StreamModel {
                pos: new as nat,
                started: true,
                over: false,
                ..old(self).stream()
            }),
    ;

    /// The bytes from `start` through `end`; nothing where `start` is one
    /// past `end`.
    fn slice(&self, start: usize, end: usize) -> (r: &[u8])
        requires
            self.reader_wf(),
            start <= end + 1,
            end < self.stream().bytes.len(),
        ensures
            r@ == self.stream().bytes.subrange(start as int, end + 1),
    ;

    /// Moves back by `offset`, when the position allows it (an empty input
    /// has no position to move to).
    fn back(&mut self, offset: usize)
        requires
            old(self).reader_wf(),
            old(self).stream().bytes.len() > 0 || offset > 0,
        ensures
            final(self).reader_wf(),
            old(self).stream().pos >= offset ==> final(self).stream() == (StreamModel {
                pos: (old(self).stream().pos - offset) as nat,
                started: true,
                over: false,
                ..old(self).stream()
            }),
            old(self).stream().pos < offset ==> final(self).stream() == old(self).stream(),
    {
        proof {
            self.lemma_reader_stream();
        }
        if self.position() >= offset {
            let prev = self.position();
            self.seek(prev - offset);
        }
    }
    /// Steps over the literal `true` or `false` that starts at the
    /// position, and returns where it starts and ends.
    fn read_boolean_value(&mut self) -> (r: (usize, usize))
        requires
            old(self).reader_wf(),
            stream_peek(old(self).stream()).0 == Some(chars::LOWER_T) || stream_peek(
                old(self).stream(),
            ).0 == Some(chars::LOWER_F),
            old(self).stream().bytes.len() + 5 <= usize::MAX,
        ensures
            final(self).reader_wf(),
            ({
                let s1 = stream_peek(old(self).stream()).1;
                let n = literal_len(stream_peek(old(self).stream()).0->0);
                &&& r.0 == s1.pos
                &&& r.1 == s1.pos + n - 1
                &&& final(self).stream() == stream_advance(s1, n)
            }),
    {
        proof {
            self.lemma_reader_stream();
        }
        let first = self.peek();
        let i: usize = match first {
            Some(b) => if b == chars::LOWER_T {
                4
            } else {
                5
            },
            None => 0,
        };
        proof {
            self.lemma_reader_stream();
        }
        let start = self.position();
        let ghost s1 = self.stream();
        let mut k: usize = 0;
        while k < i
            invariant
                k <= i <= 5,
                self.reader_wf(),
                self.stream() == stream_advance(s1, k as nat),
            decreases i - k,
        {
            self.next();
            k += 1;
        }
        (start, start + i - 1)
    }

    /// Steps over the literal `null` that starts at the position, and
    /// returns where it starts and ends.
    fn read_null_value(&mut self) -> (r: (usize, usize))
        requires
            old(self).reader_wf(),
            stream_peek(old(self).stream()).0 == Some(chars::LOWER_N),
            old(self).stream().bytes.len() + 5 <= usize::MAX,
        ensures
            final(self).reader_wf(),
            ({
                let s1 = stream_peek(old(self).stream()).1;
                &&& r.0 == s1.pos
                &&& r.1 == s1.pos + 3
                &&& final(self).stream() == stream_advance(s1, 4)
            }),
    {
        proof {
            self.lemma_reader_stream();
        }
        self.peek();
        proof {
            self.lemma_reader_stream();
        }
        let start = self.position();
        let ghost s1 = self.stream();
        let mut k: usize = 0;
        while k < 4
            invariant
                k <= 4,
                self.reader_wf(),
                self.stream() == stream_advance(s1, k as nat),
            decreases 4 - k,
        {
            self.next();
            k += 1;
        }
        (start, start + 3)
    }

    /// Steps over the array or object that starts at the position, and
    /// returns where it starts and where its closing bracket stands (see
    /// `json_value_scan`); the reader then moves on once more.
    fn read_json_value(&mut self) -> (r: (usize, usize))
        requires
            old(self).reader_wf(),
            stream_peek(old(self).stream()).0 == Some(chars::LBRACE) || stream_peek(
                old(self).stream(),
            ).0 == Some(chars::LBRACKET),
            old(self).stream().bytes.len() + 5 <= usize::MAX,
        ensures
            final(self).reader_wf(),
            ({
                let s1 = stream_peek(old(self).stream()).1;
                let e = json_value_scan(s1, 1);
                &&& r.0 == s1.pos
                &&& r.1 == e.pos
                &&& final(self).stream() == stream_next(e).1
            }),
    {
        proof {
            self.lemma_reader_stream();
            lemma_stream_step(self.stream());
        }
        self.peek();
        let mut depth: usize = 1;
        let start = self.position();
        let ghost s1 = self.stream();
        loop
            invariant_except_break
                json_value_scan(self.stream(), depth as nat) == json_value_scan(s1, 1),
                1 <= depth,
                depth + stream_left(self.stream()) <= s1.bytes.len() + 2,
            invariant
                self.reader_wf(),
                stream_wf(self.stream()),
                self.stream().bytes == s1.bytes,
                s1.bytes.len() + 5 <= usize::MAX,
            ensures
                self.stream() == json_value_scan(s1, 1),
            decreases stream_left(self.stream()),
        {
            let ghost before = self.stream();
            proof {
                lemma_stream_step(before);
            }
            match self.next() {
                None => {
                    break;
                },
                Some(b) => {
                    if b == chars::BACKSLASH {
                        proof {
                            lemma_stream_step(self.stream());
                        }
                        self.next();
                    } else if b == chars::LBRACKET || b == chars::LBRACE {
                        depth += 1;
                    } else if b == chars::RBRACKET || b == chars::RBRACE {
                        depth -= 1;
                        if depth == 0 {
                            break;
                        }
                    }
                },
            }
        }
        let end = self.position();
        self.next();
        (start, end)
    }

    /// Steps over the rest of a string, up to its closing quote, and
    /// returns where the reading started and where the quote stands (one
    /// past the end when there is none); see `str_value_scan`. The reader
    /// then moves on once more.
    fn read_str_value(&mut self) -> (r: (usize, usize))
        requires
            old(self).reader_wf(),
        ensures
            final(self).reader_wf(),
            ({
                let e = str_value_scan(old(self).stream());
                &&& r.0 == old(self).stream().pos
                &&& r.1 == if e.1 {
                    e.0.pos
                } else {
                    e.0.pos + 1
                }
                &&& final(self).stream() == stream_next(e.0).1
            }),
    {
        proof {
            self.lemma_reader_stream();
        }
        let start = self.position();
        let ghost s0 = self.stream();
        let mut ok = false;
        loop
            invariant_except_break
                str_value_scan(self.stream()) == str_value_scan(s0),
                !ok,
            invariant
                self.reader_wf(),
                stream_wf(self.stream()),
                self.stream().bytes == s0.bytes,
            ensures
                (self.stream(), ok) == str_value_scan(s0),
            decreases stream_left(self.stream()),
        {
            let ghost before = self.stream();
            proof {
                lemma_stream_step(before);
            }
            match self.next() {
                None => {
                    break;
                },
                Some(b) => {
                    if b == chars::QUOTE {
                        ok = true;
                        break;
                    } else if b == chars::BACKSLASH {
                        proof {
                            lemma_stream_step(self.stream());
                        }
                        self.next();
                    }
                },
            }
        }
        let mut end = self.position();
        if !ok {
            end += 1;
        }
        self.next();
        (start, end)
    }

    /// Steps over the digits, minus signs and dots after the position, and
    /// returns where the reading started and the position of the last of
    /// them; see `number_value_scan`.
    fn read_number_value(&mut self) -> (r: (usize, usize))
        requires
            old(self).reader_wf(),
            number_value_scan(old(self).stream()).pos >= 1,
        ensures
            final(self).reader_wf(),
            final(self).stream() == number_value_scan(old(self).stream()),
            r.0 == old(self).stream().pos,
            r.1 == number_value_scan(old(self).stream()).pos - 1,
    {
        proof {
            self.lemma_reader_stream();
        }
        let start = self.position();
        let ghost s0 = self.stream();
        loop
            invariant_except_break
                number_value_scan(self.stream()) == number_value_scan(s0),
            invariant
                self.reader_wf(),
                stream_wf(self.stream()),
            ensures
                self.stream() == number_value_scan(s0),
            decreases stream_left(self.stream()),
        {
            let ghost before = self.stream();
            proof {
                lemma_stream_step(before);
            }
            match self.next() {
                None => {
                    break;
                },
                Some(b) => {
                    if !(chars::DIGIT_0 <= b && b <= chars::DIGIT_9 || b == chars::MINUS || b
                        == chars::DOT) {
                        break;
                    }
                },
            }
        }
        (start, self.position() - 1)
    }
}

/// A reader over a byte slice.
pub struct RefReader<'a> {
    buffer: &'a [u8],
    offset: usize,
    length: usize,
    max_offset: usize,
    read_over: bool,
    started: bool,
}

impl<'a> RefReader<'a> {
    /// The stream the reader stands for.
    pub closed spec fn model(&self) -> StreamModel {
        StreamModel {
            bytes: self.buffer@,
            pos: self.offset as nat,
            started: self.started,
            over: self.read_over,
        }
    }

    /// The fields agree with each other and with a consistent stream.
    pub closed spec fn wf(&self) -> bool {
        &&& self.length == self.buffer@.len()
        &&& self.max_offset == self.length
        &&& stream_wf(self.model())
    }

    /// A reader at the start of `source`.
    pub fn new(source: &'a [u8]) -> (r: RefReader<'a>)
        ensures
            r.wf(),
            r.model() == (StreamModel {
                bytes: source@,
                pos: 0,
                started: false,
                over: source@.len() == 0,
            }),
    {
        RefReader {
            buffer: source,
            offset: 0,
            length: source.len(),
            max_offset: source.len(),
            read_over: source.len() == 0,
            started: false,
        }
    }

    /// The length of the input.
    pub fn length(&self) -> (r: usize)
        requires
            self.wf(),
        ensures
            r == self.model().bytes.len(),
    {
        self.length
    }

    /// The part of `v` from the position on; nothing once the input is
    /// read over.
    pub fn tail<'b>(&self, v: &'b [u8]) -> (r: &'b [u8])
        requires
            self.wf(),
            !self.model().over ==> self.model().pos <= v@.len(),
        ensures
            self.model().over ==> r@.len() == 0,
            !self.model().over ==> r@ == v@.subrange(self.model().pos as int, v@.len() as int),
    {
        if self.read_over {
            let e: &'b [u8] = &v[0..0];
            return e;
        }
        &v[self.offset..v.len()]
    }

    /// The part of `v` through position `end`.
    pub fn head<'b>(&self, v: &'b [u8], end: usize) -> (r: &'b [u8])
        requires
            end < v@.len(),
        ensures
            r@ == v@.subrange(0, end + 1),
    {
        let len = v.len();
        assert(end < len);
        &v[0..end + 1]
    }

    /// Moves forward by `offset`, when that stays within the input.
    pub fn forward(&mut self, offset: usize)
        requires
            old(self).wf(),
            old(self).model().pos + offset <= usize::MAX,
        ensures
            final(self).wf(),
            old(self).model().pos + offset < old(self).model().bytes.len() ==> final(self).model()
                == (StreamModel {
                pos: (old(self).model().pos + offset) as nat,
                started: true,
                over: false,
                ..old(self).model()
            }),
            !(old(self).model().pos + offset < old(self).model().bytes.len()) ==> final(self).model()
                == old(self).model(),
    {
        if self.offset + offset < self.max_offset {
            let prev = self.offset;
            self.seek(prev + offset);
        }
    }
}

impl<'a> ByteReader for RefReader<'a> {
    open spec fn reader_wf(&self) -> bool {
        self.wf()
    }

    open spec fn stream(&self) -> StreamModel {
        self.model()
    }

    proof fn lemma_reader_stream(&self) {
    }

    fn position(&self) -> (r: usize) {
        self.offset
    }

    fn next(&mut self) -> (r: Option<u8>) {
        if self.read_over {
            return None;
        }
        if !self.started {
            self.started = true;
            return Some(self.buffer[0]);
        }
        if self.length - self.offset == 1 {
            self.read_over = true;
            return None;
        }
        self.offset += 1;
        Some(self.buffer[self.offset])
    }

    fn peek(&mut self) -> (r: Option<u8>) {
        if self.read_over {
            return None;
        }
        if !self.started {
            self.next()
        } else {
            Some(self.buffer[self.offset])
        }
    }

    fn seek(&mut self, new: usize) {
        if self.read_over {
            self.read_over = false;
        }
        self.started = true;
        self.offset = new;
    }

    fn slice(&self, start: usize, end: usize) -> (r: &[u8]) {
        &self.buffer[start..end + 1]
    }
}

} // verus!
