//! Minimal I/O abstractions: byte sources for the parser, byte sinks for the writer.

use core::convert::Infallible;
use vstd::prelude::*;
use vstd::slice::slice_subrange;
use vstd::string::StringExecFns;

use crate::edit::{overwritten, Request};

verus! {

/// What a source holds besides its input, or a writer besides what was written. Reading and
/// writing never change it; only methods of the source's or writer's own type do.
pub struct Kept {
    /// What a [`Tee`] had written when it last started to copy (or when it last stopped); what
    /// lies behind the part of a storage that is written to.
    pub sent: Seq<u8>,
    /// Where in the input a [`Tee`] last started to copy; where the part of a storage ends
    /// that is written to.
    pub from: int,
    /// Whether a [`Tee`] is copying.
    pub copying: bool,
    /// How much a [`Tee`]'s writer takes.
    pub bound: Bound,
    /// How long the document in a storage may become, where the storage says so.
    pub limit: Option<nat>,
    /// How large the buffer in front of a storage is that is written to.
    pub room: nat,
    /// What the storage was asked for: before it is written to, or, where it is read, but for
    /// reads.
    pub asked: Option<Seq<Request>>,
    /// Where in a storage may be written: from the first of these positions up to the second.
    pub range: (int, int),
}

/// The bookkeeping of a source or a writer that has none.
pub open spec fn nothing_kept() -> Kept {
    Kept {
        sent: Seq::empty(),
        from: 0,
        copying: false,
        bound: Bound::Unknown,
        limit: None,
        room: 0,
        asked: None,
        range: (0, 0),
    }
}

/// The storage behind a source or a writer is the same, which holds even where it failed.
pub open spec fn same_storage(a: Kept, b: Kept) -> bool {
    &&& a.limit == b.limit
    &&& a.room == b.room
    &&& a.asked == b.asked
    &&& a.range == b.range
}

/// What a source reads. Reading does not change any of it.
pub struct Feed {
    /// All of the input: what was consumed, followed by what will be read.
    pub input: Seq<u8>,
    /// The offset of the input's first byte.
    pub origin: int,
    /// Whether reading cannot fail.
    pub reliable: bool,
    /// What the source holds besides its input.
    pub kept: Kept,
}

/// A buffered byte source for the parser (like `std::io::BufRead`).
///
/// Contract: [`fill`](Source::fill) returns the currently buffered, unconsumed bytes. It must
/// only read more data when the buffer is empty, so that consecutive calls without
/// [`consume`](Source::consume) return the same bytes. An empty slice means end of input.
pub trait Source {
    /// Error type of the underlying I/O.
    type Error;

    /// The source's own invariant.
    open spec fn wf(&self) -> bool {
        true
    }

    /// What the source reads.
    open spec fn feed(&self) -> Feed {
        slice_feed(Seq::empty())
    }

    /// How many bytes of the input were consumed.
    open spec fn at(&self) -> int {
        0
    }

    /// How many bytes are buffered.
    open spec fn avail(&self) -> int {
        0
    }

    /// The position lies within the input, whose offsets fit in 64 bits.
    proof fn bounds(&self)
        requires
            self.wf(),
        ensures
            0 <= self.at(),
            0 <= self.avail() <= usize::MAX,
            self.at() + self.avail() <= self.feed().input.len(),
            0 <= self.feed().origin,
            self.feed().origin + self.feed().input.len() <= u64::MAX,
    ;

    /// Returns buffered bytes, reading more if none are buffered. Empty means end of input.
    /// If an error is returned, nothing was read.
    fn fill(&mut self) -> (r: Result<&[u8], Self::Error>)
        requires
            (*old(self)).wf(),
        ensures
            (*final(self)).wf(),
            match r {
                Ok(b) => {
                    &&& (*final(self)).feed() == (*old(self)).feed()
                    &&& (*final(self)).at() == (*old(self)).at()
                    &&& (*final(self)).avail() == b@.len()
                    &&& (*old(self)).avail() > 0 ==> b@.len() == (*old(self)).avail()
                    &&& b@.len() == 0 ==> (*old(self)).at() == (*old(self)).feed().input.len()
                    &&& (*old(self)).at() + b@.len() <= (*old(self)).feed().input.len()
                    &&& b@ == (*old(self)).feed().input.subrange(
                        (*old(self)).at(),
                        (*old(self)).at() + b@.len(),
                    )
                },
                Err(_) => {
                    &&& !(*old(self)).feed().reliable
                    &&& (*old(self)).avail() == 0
                    &&& same_storage((*final(self)).feed().kept, (*old(self)).feed().kept)
                    &&& (*final(self)).feed().input == (*old(self)).feed().input
                    &&& (*final(self)).feed().origin == (*old(self)).feed().origin
                    &&& (*final(self)).at() == (*old(self)).at()
                    &&& (*final(self)).avail() == (*old(self)).avail()
                },
            },
    ;

    /// Marks `n` bytes (at most the length returned by `fill`) as consumed.
    fn consume(&mut self, n: usize)
        requires
            (*old(self)).wf(),
            n <= (*old(self)).avail(),
        ensures
            (*final(self)).wf(),
            (*final(self)).feed() == (*old(self)).feed(),
            (*final(self)).at() == (*old(self)).at() + n,
            (*final(self)).avail() == (*old(self)).avail() - n,
    ;

    /// Offset of the next unconsumed byte, counted from the start of the input.
    fn offset(&self) -> (r: u64)
        requires
            self.wf(),
        ensures
            r == self.feed().origin + self.at(),
    ;
}

impl<S: Source + ?Sized> Source for &mut S {
    type Error = S::Error;

    open spec fn wf(&self) -> bool {
        (**self).wf()
    }

    open spec fn feed(&self) -> Feed {
        (**self).feed()
    }

    open spec fn at(&self) -> int {
        (**self).at()
    }

    open spec fn avail(&self) -> int {
        (**self).avail()
    }

    proof fn bounds(&self) {
        (**self).bounds();
    }

    fn fill(&mut self) -> (r: Result<&[u8], Self::Error>) {
        (**self).fill()
    }

    fn consume(&mut self, n: usize) {
        (**self).consume(n)
    }

    fn offset(&self) -> (r: u64) {
        (**self).offset()
    }
}

/// Reading `data` from memory: it starts at offset 0 and cannot fail.
pub open spec fn slice_feed(data: Seq<u8>) -> Feed {
    Feed { input: data, origin: 0, reliable: true, kept: nothing_kept() }
}

/// A [`Source`] over a JSON document in memory.
#[derive(Debug, Clone)]
pub struct SliceSource<'a> {
    pub(crate) data: &'a [u8],
    pub(crate) pos: usize,
}

impl<'a> SliceSource<'a> {
    /// Creates a source reading `data` from the beginning.
    pub fn new(data: &'a [u8]) -> (r: Self)
        ensures
            r.wf(),
            r.at() == 0,
            r.feed() == slice_feed(data@),
    {
        let n: usize = data.len();
        Self { data, pos: 0 }
    }

    /// The whole input.
    pub fn data(&self) -> (r: &'a [u8])
        ensures
            r@ == self.feed().input,
    {
        self.data
    }

    /// The unconsumed part of the input.
    pub fn remaining(&self) -> (r: &'a [u8])
        requires
            self.wf(),
        ensures
            r@ == self.feed().input.skip(self.at()),
    {
        slice_subrange(self.data, self.pos, self.data.len())
    }
}

impl Source for SliceSource<'_> {
    type Error = Infallible;

    open(crate) spec fn wf(&self) -> bool {
        self.pos <= self.data@.len() <= usize::MAX
    }

    open(crate) spec fn feed(&self) -> Feed {
        slice_feed(self.data@)
    }

    open(crate) spec fn at(&self) -> int {
        self.pos as int
    }

    open spec fn avail(&self) -> int {
        self.feed().input.len() - self.at()
    }

    proof fn bounds(&self) {
    }

    fn fill(&mut self) -> (r: Result<&[u8], Infallible>) {
        Ok(slice_subrange(self.data, self.pos, self.data.len()))
    }

    fn consume(&mut self, n: usize) {
        let left = self.data.len() - self.pos;
        self.pos = self.pos + if n < left {
            n
        } else {
            left
        };
    }

    fn offset(&self) -> (r: u64) {
        self.pos as u64
    }
}

/// A stream of bytes (like `std::io::Read`).
pub trait Read {
    /// Error type.
    type Error;

    /// The stream's own invariant.
    open spec fn wf(&self) -> bool {
        true
    }

    /// The bytes that are left to be read.
    open spec fn stream(&self) -> Seq<u8> {
        Seq::empty()
    }

    /// Whether reading cannot fail.
    open spec fn reliable(&self) -> bool {
        false
    }

    /// Reads some bytes into `buf`, returning how many were read. `Ok(0)` means end of stream
    /// (when `buf` is not empty). If an error is returned, no bytes were read.
    fn read(&mut self, buf: &mut [u8]) -> (r: Result<usize, Self::Error>)
        requires
            (*old(self)).wf(),
        ensures
            (*final(self)).wf(),
            final(buf)@.len() == old(buf)@.len(),
            match r {
                Ok(n) => {
                    &&& n <= old(buf)@.len()
                    &&& n <= (*old(self)).stream().len()
                    &&& n == 0 ==> old(buf)@.len() == 0 || (*old(self)).stream().len() == 0
                    &&& final(buf)@.subrange(0, n as int) == (*old(self)).stream().subrange(
                        0,
                        n as int,
                    )
                    &&& (*final(self)).stream() == (*old(self)).stream().skip(n as int)
                    &&& (*final(self)).reliable() == (*old(self)).reliable()
                },
                Err(_) => {
                    &&& !(*old(self)).reliable()
                    &&& (*final(self)).stream() == (*old(self)).stream()
                },
            },
    ;
}

impl<R: Read + ?Sized> Read for &mut R {
    type Error = R::Error;

    open spec fn wf(&self) -> bool {
        (**self).wf()
    }

    open spec fn stream(&self) -> Seq<u8> {
        (**self).stream()
    }

    open spec fn reliable(&self) -> bool {
        (**self).reliable()
    }

    fn read(&mut self, buf: &mut [u8]) -> (r: Result<usize, Self::Error>) {
        (**self).read(buf)
    }
}

/// Copies `data` to the front of `buf`, which is at least as long.
pub(crate) fn copy_to(buf: &mut [u8], at: usize, data: &[u8])
    requires
        at + data@.len() <= old(buf)@.len(),
    ensures
        final(buf)@ == old(buf)@.subrange(0, at as int) + data@ + old(buf)@.skip(at + data@.len()),
{
    let n = data.len();
    let len = buf.len();
    let mut k: usize = 0;
    while k < n
        invariant
            k <= n == data@.len(),
            buf@.len() == old(buf)@.len() == len,
            at + n <= len,
            forall|i: int|
                0 <= i < buf@.len() ==> #[trigger] buf@[i] == (if at <= i < at + k {
                    data@[i - at]
                } else {
                    old(buf)@[i]
                }),
        decreases n - k,
    {
        buf[at + k] = data[k];
        k = k + 1;
    }
    assert(buf@ =~= old(buf)@.subrange(0, at as int) + data@ + old(buf)@.skip(at + data@.len()));
}

impl Read for &[u8] {
    type Error = Infallible;

    open spec fn wf(&self) -> bool {
        true
    }

    open spec fn stream(&self) -> Seq<u8> {
        (**self)@
    }

    open spec fn reliable(&self) -> bool {
        true
    }

    fn read(&mut self, buf: &mut [u8]) -> (r: Result<usize, Infallible>) {
        let n = if buf.len() < self.len() {
            buf.len()
        } else {
            self.len()
        };
        let data: &[u8] = *self;
        let head = slice_subrange(data, 0, n);
        copy_to(buf, 0, head);
        assert(buf@.subrange(0, n as int) =~= data@.subrange(0, n as int));
        *self = slice_subrange(data, n, data.len());
        assert((*self)@ =~= data@.skip(n as int));
        Ok(n)
    }
}

/// How much a writer takes.
pub enum Bound {
    /// It may fail at any time.
    Unknown,
    /// It never fails.
    Endless,
    /// It fails exactly when what it holds would exceed this many bytes.
    Upto(nat),
}

/// Whether a writer that holds `held` bytes is known to take `n` more.
pub open spec fn takes(bound: Bound, held: nat, n: nat) -> bool {
    match bound {
        Bound::Unknown => false,
        Bound::Endless => true,
        Bound::Upto(c) => held + n <= c,
    }
}

/// Whether a writer that holds `held` bytes is known to refuse `n` more.
pub open spec fn refuses(bound: Bound, held: nat, n: nat) -> bool {
    match bound {
        Bound::Upto(c) => n > 0 && held + n > c,
        _ => false,
    }
}

/// A writer with room for `c` bytes takes what fits, and refuses the rest.
pub proof fn law_bound(c: nat, held: nat, n: nat)
    requires
        held <= c,
    ensures
        takes(Bound::Upto(c), held, n) <==> n <= c - held,
        refuses(Bound::Upto(c), held, n) <==> n > c - held,
        takes(Bound::Endless, held, n),
        !refuses(Bound::Endless, held, n),
        !takes(Bound::Unknown, held, n),
        !refuses(Bound::Unknown, held, n),
{
}

/// A byte sink (like `std::io::Write`).
pub trait Write {
    /// Error type.
    type Error;

    /// The writer's own invariant.
    open spec fn wf(&self) -> bool {
        true
    }

    /// All that was written.
    open spec fn written(&self) -> Seq<u8> {
        Seq::empty()
    }

    /// How much it takes.
    open spec fn bound(&self) -> Bound {
        Bound::Unknown
    }

    /// What it holds besides what was written.
    open spec fn kept(&self) -> Kept {
        nothing_kept()
    }

    /// The buffer that it writes to, where that was lent to it. Writing goes on in the same one.
    open spec fn target(&self) -> &mut [u8] {
        arbitrary()
    }

    /// It holds no more than it takes.
    proof fn bounds(&self)
        requires
            self.wf(),
        ensures
            self.bound() matches Bound::Upto(c) ==> self.written().len() <= c,
    ;

    /// Writes all of `data`.
    fn write_all(&mut self, data: &[u8]) -> (r: Result<(), Self::Error>)
        requires
            (*old(self)).wf(),
        ensures
            (*final(self)).wf(),
            final((*final(self)).target())@ == final((*old(self)).target())@,
            r is Ok ==> {
                &&& (*final(self)).written() == (*old(self)).written() + data@
                &&& (*final(self)).bound() == (*old(self)).bound()
                &&& (*final(self)).kept() == (*old(self)).kept()
                &&& !refuses((*old(self)).bound(), (*old(self)).written().len(), data@.len())
            },
            r is Err ==> {
                &&& same_storage((*final(self)).kept(), (*old(self)).kept())
                &&& !takes((*old(self)).bound(), (*old(self)).written().len(), data@.len())
            },
    ;

    /// Flushes buffered data, if any.
    fn flush(&mut self) -> (r: Result<(), Self::Error>)
        requires
            (*old(self)).wf(),
        ensures
            (*final(self)).wf(),
            final((*final(self)).target())@ == final((*old(self)).target())@,
            r is Ok ==> {
                &&& (*final(self)).written() == (*old(self)).written()
                &&& (*final(self)).bound() == (*old(self)).bound()
                &&& (*final(self)).kept() == (*old(self)).kept()
            },
            r is Err ==> (*old(self)).bound() is Unknown,
    {
        Ok(())
    }
}

/// A write that took a writer from `before` to `after`, and succeeded if `ok`, wrote
/// `piece`.
pub open spec fn wrote<W: Write + ?Sized>(
    ok: bool,
    before: &W,
    after: &W,
    piece: Seq<u8>,
) -> bool {
    &&& after.wf()
    &&& ok ==> {
        &&& after.written() == before.written() + piece
        &&& after.bound() == before.bound()
        &&& after.kept() == before.kept()
        &&& !refuses(before.bound(), before.written().len(), piece.len())
    }
    &&& !ok ==> {
        &&& same_storage(after.kept(), before.kept())
        &&& !takes(before.bound(), before.written().len(), piece.len())
    }
}

impl<W: Write + ?Sized> Write for &mut W {
    type Error = W::Error;

    open spec fn wf(&self) -> bool {
        (**self).wf()
    }

    open spec fn written(&self) -> Seq<u8> {
        (**self).written()
    }

    open spec fn bound(&self) -> Bound {
        (**self).bound()
    }

    open spec fn kept(&self) -> Kept {
        (**self).kept()
    }

    open spec fn target(&self) -> &mut [u8] {
        (**self).target()
    }

    proof fn bounds(&self) {
        (**self).bounds();
    }

    fn write_all(&mut self, data: &[u8]) -> (r: Result<(), Self::Error>) {
        (**self).write_all(data)
    }

    /// Flushes the writer behind the reference.
    fn flush(&mut self) -> (r: Result<(), Self::Error>)
        ensures
            exists|w: &mut W|
                {
                    &&& #[trigger] call_ensures(W::flush, (w,), r)
                    &&& &*w == &**old(self)
                    &&& &*final(w) == &**final(self)
                },
    {
        forward(W::flush, &mut **self)
    }
}

/// Calls `f` on `w`, and gives what it gave.
pub(crate) fn forward<W: ?Sized, R, F: FnOnce(&mut W) -> R>(f: F, w: &mut W) -> (r: R)
    requires
        forall|v: &mut W| &*v == &*old(w) ==> #[trigger] call_requires(f, (v,)),
    ensures
        exists|v: &mut W|
            {
                &&& #[trigger] call_ensures(f, (v,), r)
                &&& &*v == &*old(w)
                &&& &*final(v) == &*final(w)
            },
{
    f(w)
}

/// A [`Source`] reading from a [`Read`] stream through a caller-provided buffer.
///
/// Any buffer size of at least one byte works; larger buffers mean fewer `read` calls.
pub struct ReadSource<'b, R> {
    reader: R,
    buf: &'b mut [u8],
    start: usize,
    end: usize,
    offset: u64,
    past: Ghost<Seq<u8>>,
    origin: Ghost<int>,
}

impl<'b, R: Read> ReadSource<'b, R> {
    spec fn content(&self) -> Seq<u8> {
        self.buf@
    }

    /// The bytes read from the reader but not consumed yet.
    pub closed spec fn pending(&self) -> Seq<u8> {
        self.content().subrange(self.start as int, self.end as int)
    }

    /// The reader.
    pub closed spec fn inner(&self) -> R {
        self.reader
    }

    /// Creates a buffered source. `buf` must not be empty.
    pub fn new(reader: R, buf: &'b mut [u8]) -> (r: Self)
        requires
            old(buf)@.len() > 0,
            reader.wf(),
            reader.stream().len() <= u64::MAX,
        ensures
            r.wf(),
            r.inner() == reader,
            r.at() == 0,
            r.avail() == 0,
            r.feed() == (Feed {
                input: reader.stream(),
                origin: 0,
                reliable: reader.reliable(),
                kept: nothing_kept(),
            }),
    {
        let n = buf.len();
        let r = Self {
            reader,
            buf,
            start: 0,
            end: 0,
            offset: 0,
            past: Ghost(Seq::empty()),
            origin: Ghost(0),
        };
        assert(r.feed().input =~= reader.stream());
        r
    }

    /// Sets the offset reported for the next byte (use when the stream does not start at
    /// the beginning of the document, e.g. after seeking a file).
    pub fn with_offset(self, offset: u64) -> (r: Self)
        requires
            self.wf(),
            offset + self.feed().input.len() - self.at() <= u64::MAX,
        ensures
            r.wf(),
            r.inner() == self.inner(),
            r.at() == 0,
            r.avail() == self.avail(),
            r.feed() == (Feed {
                input: self.feed().input.skip(self.at()),
                origin: offset as int,
                ..self.feed()
            }),
    {
        let mut s = self;
        s.offset = offset;
        s.past = Ghost(Seq::empty());
        s.origin = Ghost(offset as int);
        assert(s.feed().input =~= self.feed().input.skip(self.at()));
        s
    }

    /// The underlying reader.
    pub fn get_ref(&self) -> (r: &R)
        ensures
            *r == self.inner(),
    {
        &self.reader
    }

    /// The underlying reader. Reading from it directly skips the buffered bytes.
    pub fn get_mut(&mut self) -> (r: &mut R)
        ensures
            *r == (*old(self)).inner(),
            (*final(self)).inner() == *final(r),
            (*final(self)).pending() == (*old(self)).pending(),
            (*final(self)).at() == (*old(self)).at(),
            (*final(self)).avail() == (*old(self)).avail(),
            (*final(self)).feed() == (Feed {
                input: (*old(self)).feed().input.subrange(0, (*old(self)).at()) + (*old(self)).pending()
                    + (*final(r)).stream(),
                reliable: (*final(r)).reliable(),
                ..(*old(self)).feed()
            }),
            (*old(self)).wf() && (*final(r)).wf() && (*final(self)).feed().origin
                + (*final(self)).feed().input.len() <= u64::MAX ==> (*final(self)).wf(),
    {
        assert((*self).feed().input.subrange(0, (*self).at()) =~= self.past@);
        &mut self.reader
    }

    /// Bytes read from the reader but not consumed yet.
    pub fn buffered(&self) -> (r: &[u8])
        requires
            self.wf(),
        ensures
            r@ == self.pending(),
            r@ == self.feed().input.subrange(self.at(), self.at() + self.avail()),
    {
        assert(self.pending() =~= self.feed().input.subrange(
            self.at(),
            self.at() + self.avail(),
        ));
        slice_subrange(self.buf, self.start, self.end)
    }

    /// Returns the reader, dropping buffered data.
    pub fn into_inner(self) -> (r: R)
        ensures
            r == self.inner(),
    {
        self.reader
    }
}

impl<R: Read> Source for ReadSource<'_, R> {
    type Error = R::Error;

    closed spec fn wf(&self) -> bool {
        &&& self.reader.wf()
        &&& self.start <= self.end <= self.content().len() <= usize::MAX
        &&& 0 < self.content().len()
        &&& 0 <= self.origin@
        &&& self.offset == self.origin@ + self.past@.len()
        &&& self.origin@ + self.past@.len() + (self.end - self.start) + self.reader.stream().len()
            <= u64::MAX
    }

    closed spec fn feed(&self) -> Feed {
        Feed {
            input: self.past@ + self.pending() + self.reader.stream(),
            origin: self.origin@,
            reliable: self.reader.reliable(),
            kept: nothing_kept(),
        }
    }

    closed spec fn at(&self) -> int {
        self.past@.len() as int
    }

    closed spec fn avail(&self) -> int {
        self.end - self.start
    }

    proof fn bounds(&self) {
    }

    fn fill(&mut self) -> (r: Result<&[u8], R::Error>) {
        let ghost input = (*self).feed().input;
        if self.start == self.end {
            self.start = 0;
            self.end = 0;
            match self.reader.read(self.buf) {
                Ok(n) => {
                    let size = self.buf.len();
                    self.end = if n < size {
                        n
                    } else {
                        size
                    };
                },
                Err(e) => {
                    assert((*self).feed().input =~= input);
                    return Err(e);
                },
            }
            assert((*self).feed().input =~= input);
        }
        assert(self.pending() =~= input.subrange((*self).at(), (*self).at() + (*self).avail()));
        Ok(slice_subrange(self.buf, self.start, self.end))
    }

    fn consume(&mut self, n: usize) {
        let ghost input = (*self).feed().input;
        let left = self.end - self.start;
        let n: usize = if n < left {
            n
        } else {
            left
        };
        let ghost taken = self.content().subrange(self.start as int, self.start + n);
        self.start = self.start + n;
        self.offset = self.offset + n as u64;
        proof {
            self.past@ = self.past@ + taken;
        }
        assert((*self).feed().input =~= input);
    }

    fn offset(&self) -> (r: u64) {
        self.offset
    }
}

/// Error of an operation that reads from one side and writes to another.
#[derive(Debug, Clone, Copy, PartialEq, Eq)]
pub enum PipeError<R, W> {
    /// The source failed.
    Read(R),
    /// The sink failed.
    Write(W),
}

impl<R, W> PipeError<R, W> {
    /// The text of the error, where `read` gives that of the source's error and `write` that
    /// of the sink's.
    pub fn message<A: FnOnce(&R) -> String, B: FnOnce(&W) -> String>(
        &self,
        read: A,
        write: B,
    ) -> (r: String)
        requires
            match *self {
                PipeError::Read(e) => call_requires(read, (&e,)),
                PipeError::Write(e) => call_requires(write, (&e,)),
            },
        ensures
            match *self {
                PipeError::Read(e) => exists|s: String|
                    #[trigger] call_ensures(read, (&e,), s) && r@ == "read error: "@ + s@,
                PipeError::Write(e) => exists|s: String|
                    #[trigger] call_ensures(write, (&e,), s) && r@ == "write error: "@ + s@,
            },
    {
        match self {
            Self::Read(e) => "read error: ".to_owned().concat(read(e).as_str()),
            Self::Write(e) => "write error: ".to_owned().concat(write(e).as_str()),
        }
    }
}

/// What a [`Tee`] reads: the input of its source, with its own bookkeeping. It cannot fail if
/// neither the source can nor the writer would on all of the input that is left.
pub open spec fn tee_feed(
    src: Feed,
    sent: Seq<u8>,
    from: int,
    copying: bool,
    bound: Bound,
) -> Feed {
    Feed {
        input: src.input,
        origin: src.origin,
        reliable: src.reliable && takes(bound, sent.len(), (src.input.len() - from) as nat),
        kept: Kept { sent, from, copying, bound, ..src.kept },
    }
}

/// A [`Source`] adapter that copies every consumed byte to a [`Write`]r.
///
/// Used to edit a stream while copying it with no extra buffer: parse up to the value to
/// change, [disable](Tee::set_enabled) copying, skip the old value, re-enable, write the
/// new value to the [writer](Tee::writer), then [copy the rest](Tee::copy_rest).
/// See [`edit::copy_edit`](crate::edit::copy_edit).
///
/// Consumed bytes are forwarded lazily (in whole chunks) when the inner source needs to
/// refill; call [`sync`](Tee::sync) to forward them immediately.
pub struct Tee<S, W> {
    src: S,
    dst: W,
    pending: usize,
    enabled: bool,
    /// Whether nothing was forwarded since the writer was last given away or the setting changed:
    /// what it holds is then what it was sent.
    level: Ghost<bool>,
    sent: Ghost<Seq<u8>>,
    from: Ghost<int>,
}

impl<S: Source, W: Write> Tee<S, W> {
    /// What the writer held when the current setting began.
    spec fn base(&self) -> Seq<u8> {
        if self.level@ {
            self.dst.written()
        } else {
            self.sent@
        }
    }

    /// Where the source stood when the current setting began.
    spec fn since(&self) -> int {
        if self.level@ {
            self.src.at()
        } else {
            self.from@
        }
    }

    /// The source.
    pub closed spec fn source_now(&self) -> S {
        self.src
    }

    /// The writer.
    pub closed spec fn writer_now(&self) -> W {
        self.dst
    }

    /// How many consumed bytes were not forwarded yet.
    pub closed spec fn unsent(&self) -> int {
        self.pending as int
    }

    /// What the writer holds once all consumed bytes are forwarded.
    pub open spec fn output(&self) -> Seq<u8> {
        let k = self.feed().kept;
        if k.copying {
            k.sent + self.feed().input.subrange(k.from, self.at())
        } else {
            k.sent
        }
    }

    /// How a tee is made up of its source and its writer.
    pub proof fn parts(&self)
        requires
            self.wf(),
        ensures
            self.source_now().wf(),
            self.writer_now().wf(),
            self.source_now().at() == self.at() - self.unsent(),
            self.source_now().avail() == self.avail() + self.unsent(),
            self.writer_now().bound() == self.feed().kept.bound,
            0 <= self.feed().kept.from <= self.at(),
            self.feed() == tee_feed(
                self.source_now().feed(),
                self.feed().kept.sent,
                self.feed().kept.from,
                self.feed().kept.copying,
                self.feed().kept.bound,
            ),
    {
    }

    /// Creates a tee with copying enabled.
    pub fn new(src: S, dst: W) -> (r: Self)
        requires
            src.wf(),
            dst.wf(),
        ensures
            r.wf(),
            r.source_now() == src,
            r.writer_now() == dst,
            r.unsent() == 0,
            r.at() == src.at(),
            r.avail() == src.avail(),
            r.feed() == tee_feed(src.feed(), dst.written(), src.at(), true, dst.bound()),
            r.output() == dst.written(),
    {
        proof {
            src.bounds();
        }
        let r = Self {
            src,
            dst,
            pending: 0,
            enabled: true,
            level: Ghost(true),
            sent: Ghost(Seq::empty()),
            from: Ghost(0),
        };
        assert(r.output() =~= dst.written());
        r
    }

    /// Whether consumed bytes are currently copied to the writer.
    pub fn is_enabled(&self) -> (r: bool)
        ensures
            r == self.feed().kept.copying,
    {
        self.enabled
    }

    /// Enables or disables copying. Bytes consumed so far are forwarded (or dropped)
    /// according to the previous setting first.
    pub fn set_enabled(&mut self, enabled: bool) -> (r: Result<
        (),
        PipeError<S::Error, W::Error>,
    >)
        requires
            (*old(self)).wf(),
        ensures
            (*final(self)).wf(),
            r is Ok ==> {
                &&& (*final(self)).at() == (*old(self)).at()
                &&& (*final(self)).avail() == (*old(self)).avail()
                &&& (*final(self)).unsent() == 0
                &&& (*final(self)).source_now().feed() == (*old(self)).source_now().feed()
                &&& (*final(self)).writer_now().written() == (*old(self)).output()
                &&& (*final(self)).output() == (*old(self)).output()
                &&& (*final(self)).feed() == tee_feed(
                    (*old(self)).source_now().feed(),
                    (*old(self)).output(),
                    (*old(self)).at(),
                    enabled,
                    (*old(self)).feed().kept.bound,
                )
                &&& (*final(self)).feed().input == (*old(self)).feed().input
                &&& (*final(self)).feed().origin == (*old(self)).feed().origin
                &&& (*old(self)).feed().reliable ==> (*final(self)).feed().reliable
            },
            r is Err ==> !(*old(self)).feed().reliable,
    {
        self.sync()?;
        self.enabled = enabled;
        proof {
            self.src.bounds();
            self.level@ = true;
            assert((*self).output() =~= self.dst.written());
        }
        Ok(())
    }

    /// Forwards all consumed bytes to the writer now.
    pub fn sync(&mut self) -> (r: Result<(), PipeError<S::Error, W::Error>>)
        requires
            (*old(self)).wf(),
        ensures
            (*final(self)).wf(),
            r is Ok ==> {
                &&& (*final(self)).feed() == (*old(self)).feed()
                &&& (*final(self)).source_now().feed() == (*old(self)).source_now().feed()
                &&& (*final(self)).at() == (*old(self)).at()
                &&& (*final(self)).avail() == (*old(self)).avail()
                &&& (*final(self)).unsent() == 0
                &&& (*final(self)).writer_now().written() == (*old(self)).output()
            },
            r is Err ==> {
                &&& !(*old(self)).feed().reliable
                &&& same_storage((*final(self)).feed().kept, (*old(self)).feed().kept)
                &&& (*final(self)).feed().input == (*old(self)).feed().input
                &&& (*final(self)).feed().origin == (*old(self)).feed().origin
                &&& (*final(self)).at() == (*old(self)).at()
                &&& (*final(self)).avail() == (*old(self)).avail()
            },
    {
        proof {
            self.src.bounds();
        }
        if self.pending == 0 {
            assert((*self).output() =~= self.dst.written());
            return Ok(());
        }
        proof {
            if self.level@ {
                self.sent@ = self.dst.written();
                self.from@ = self.src.at();
                self.level@ = false;
                assert(self.dst.written() =~= self.sent@ + self.src.feed().input.subrange(
                    self.from@,
                    self.src.at(),
                ));
            }
        }
        let ghost input = self.src.feed().input;
        let ghost at = self.src.at();
        let ghost held = self.dst.written();
        let buf = match self.src.fill() {
            Ok(buf) => buf,
            Err(e) => {
                return Err(PipeError::Read(e));
            },
        };
        let n = self.pending;
        if self.enabled {
            let head = slice_subrange(buf, 0, n);
            assert(head@ =~= input.subrange(at, at + n));
            match self.dst.write_all(head) {
                Ok(_) => {},
                Err(e) => {
                    proof {
                        self.src.bounds();
                        self.level@ = true;
                    }
                    return Err(PipeError::Write(e));
                },
            }
            assert(input.subrange(self.from@, at) + input.subrange(at, at + n) =~= input.subrange(
                self.from@,
                at + n,
            ));
            assert(self.dst.written() =~= self.sent@ + input.subrange(self.from@, at + n));
        }
        self.src.consume(n);
        self.pending = 0;
        Ok(())
    }

    /// Returns the writer, after forwarding all consumed bytes, so data can be inserted
    /// at the current position.
    pub fn writer(&mut self) -> (r: Result<&mut W, PipeError<S::Error, W::Error>>)
        requires
            (*old(self)).wf(),
        ensures
            match r {
                Ok(w) => {
                    &&& (*w).wf()
                    &&& (*w).written() == (*old(self)).output()
                    &&& (*w).bound() == (*old(self)).feed().kept.bound
                    &&& (*final(self)).writer_now() == *final(w)
                    &&& (*final(self)).unsent() == 0
                    &&& (*final(self)).source_now().feed() == (*old(self)).source_now().feed()
                    &&& (*final(self)).source_now().at() == (*old(self)).at()
                    &&& (*final(w)).wf() ==> (*final(self)).wf()
                    &&& (*final(self)).at() == (*old(self)).at()
                    &&& (*final(self)).avail() == (*old(self)).avail()
                    &&& (*final(self)).feed() == tee_feed(
                        (*old(self)).source_now().feed(),
                        (*final(w)).written(),
                        (*old(self)).at(),
                        (*old(self)).feed().kept.copying,
                        (*final(w)).bound(),
                    )
                    &&& (*final(self)).feed().input == (*old(self)).feed().input
                    &&& (*final(self)).feed().origin == (*old(self)).feed().origin
                },
                Err(_) => (*final(self)).wf() && !(*old(self)).feed().reliable,
            },
    {
        self.sync()?;
        proof {
            self.src.bounds();
            self.level@ = true;
        }
        Ok(&mut self.dst)
    }

    /// Copies everything that is left in the source to the writer (regardless of the
    /// enabled flag) and flushes it. Returns the number of bytes copied.
    pub fn copy_rest(&mut self) -> (r: Result<u64, PipeError<S::Error, W::Error>>)
        requires
            (*old(self)).wf(),
        ensures
            (*final(self)).wf(),
            match r {
                Ok(n) => {
                    let input = (*old(self)).feed().input;
                    &&& n == input.len() - (*old(self)).at()
                    &&& (*final(self)).at() == input.len()
                    &&& (*final(self)).unsent() == 0
                    &&& (*final(self)).source_now().feed() == (*old(self)).source_now().feed()
                    &&& (*final(self)).writer_now().written() == (*old(self)).output() + input.skip(
                        (*old(self)).at(),
                    )
                    &&& (*final(self)).writer_now().bound() == (*old(self)).feed().kept.bound
                    &&& exists|w: &mut W|
                        {
                            &&& #[trigger] call_ensures(W::flush, (w,), Ok(()))
                            &&& (*w).written() == (*old(self)).output() + input.skip(
                                (*old(self)).at(),
                            )
                            &&& *final(w) == (*final(self)).writer_now()
                        }
                },
                Err(_) => !(*old(self)).feed().reliable,
            },
    {
        self.sync()?;
        let ghost input = self.src.feed().input;
        let ghost from = self.src.at();
        let ghost head = self.dst.written();
        let mut total: u64 = 0;
        proof {
            self.src.bounds();
        }
        assert(self.dst.written() =~= head + input.subrange(from, from));
        loop
            invariant
                self.src.wf(),
                self.dst.wf(),
                self.pending == 0,
                self.src.feed() == (*old(self)).source_now().feed(),
                input == self.src.feed().input,
                self.dst.bound() == (*old(self)).feed().kept.bound,
                0 <= from <= self.src.at() <= input.len(),
                from + total == self.src.at(),
                head == (*old(self)).output(),
                from == (*old(self)).at(),
                self.dst.written() == head + input.subrange(from, self.src.at()),
                (*old(self)).feed().reliable ==> takes(
                    self.dst.bound(),
                    head.len(),
                    (input.len() - from) as nat,
                ),
            ensures
                self.src.at() == input.len(),
            decreases input.len() - self.src.at(),
        {
            let ghost at = self.src.at();
            let ghost held = self.dst.written();
            proof {
                self.src.bounds();
            }
            let buf = match self.src.fill() {
                Ok(buf) => buf,
                Err(e) => {
                    proof {
                        self.src.bounds();
                        self.level@ = true;
                    }
                    return Err(PipeError::Read(e));
                },
            };
            let n = buf.len();
            if n == 0 {
                break ;
            }
            match self.dst.write_all(buf) {
                Ok(_) => {},
                Err(e) => {
                    proof {
                        self.src.bounds();
                        self.level@ = true;
                    }
                    return Err(PipeError::Write(e));
                },
            }
            assert(input.subrange(from, at) + input.subrange(at, at + n) =~= input.subrange(
                from,
                at + n,
            ));
            assert(self.dst.written() =~= head + input.subrange(from, at + n));
            self.src.consume(n);
            proof {
                self.src.bounds();
            }
            total = total + n as u64;
        }
        assert(input.subrange(from, input.len() as int) =~= input.skip(from));
        match forward(W::flush, &mut self.dst) {
            Ok(done) => {
                assert(done == ());
            },
            Err(e) => {
                proof {
                    self.src.bounds();
                    self.level@ = true;
                }
                return Err(PipeError::Write(e));
            },
        }
        proof {
            self.src.bounds();
            self.level@ = true;
        }
        Ok(total)
    }

    /// Returns the source and the writer. Call [`sync`](Tee::sync) first, or consumed
    /// bytes that were not forwarded yet are lost.
    pub fn into_parts(self) -> (r: (S, W))
        ensures
            r.0 == self.source_now(),
            r.1 == self.writer_now(),
    {
        (self.src, self.dst)
    }
}

impl<S: Source, W: Write> Source for Tee<S, W> {
    type Error = PipeError<S::Error, W::Error>;

    closed spec fn wf(&self) -> bool {
        &&& self.src.wf()
        &&& self.dst.wf()
        &&& self.pending <= self.src.avail()
        &&& 0 <= self.since() <= self.src.at()
        &&& !self.level@ ==> self.dst.written() == (if self.enabled {
            self.sent@ + self.src.feed().input.subrange(self.from@, self.src.at())
        } else {
            self.sent@
        })
    }

    closed spec fn feed(&self) -> Feed {
        tee_feed(self.src.feed(), self.base(), self.since(), self.enabled, self.dst.bound())
    }

    closed spec fn at(&self) -> int {
        self.src.at() + self.pending
    }

    closed spec fn avail(&self) -> int {
        self.src.avail() - self.pending
    }

    proof fn bounds(&self) {
        self.src.bounds();
    }

    fn fill(&mut self) -> (r: Result<&[u8], Self::Error>) {
        proof {
            self.src.bounds();
        }
        if self.pending > 0 {
            let len = match self.src.fill() {
                Ok(buf) => buf.len(),
                Err(e) => {
                    return Err(PipeError::Read(e));
                },
            };
            if self.pending >= len {
                self.sync()?;
            }
        }
        let p = self.pending;
        let ghost input = self.src.feed().input;
        let ghost at = self.src.at();
        let buf = match self.src.fill() {
            Ok(buf) => buf,
            Err(e) => {
                return Err(PipeError::Read(e));
            },
        };
        let n = buf.len();
        let r = slice_subrange(buf, p, n);
        assert(r@ =~= input.subrange(at + p, at + p + r@.len()));
        Ok(r)
    }

    fn consume(&mut self, n: usize) {
        proof {
            self.src.bounds();
        }
        self.pending = self.pending + n;
    }

    fn offset(&self) -> (r: u64) {
        proof {
            self.src.bounds();
        }
        self.src.offset() + self.pending as u64
    }
}

/// A [`Write`]r that only counts bytes. Used to measure encoded lengths.
///
/// The count stops at `u64::MAX`.
#[derive(Clone, Copy)]
pub struct Counter {
    count: u64,
    log: Ghost<Seq<u8>>,
}

/// `n`, or the largest number of 64 bits if `n` is larger.
pub open spec fn counted(n: nat) -> u64 {
    if n <= u64::MAX {
        n as u64
    } else {
        u64::MAX
    }
}

/// A counter is exact as far as 64 bits go, and never goes back.
pub proof fn law_counted(n: nat, m: nat)
    requires
        n <= m,
    ensures
        n < 0x1_0000_0000_0000_0000 ==> counted(n) as int == n,
        counted(n) <= counted(m),
        m >= 0xffff_ffff_ffff_ffff ==> counted(m) == 0xffff_ffff_ffff_ffff,
{
}

impl Counter {
    /// Creates a counter at zero.
    pub fn new() -> (r: Self)
        ensures
            r.wf(),
            r.written() == Seq::<u8>::empty(),
    {
        Self { count: 0, log: Ghost(Seq::empty()) }
    }

    /// Bytes written so far.
    pub fn count(&self) -> (r: u64)
        requires
            self.wf(),
        ensures
            r == counted(self.written().len()),
    {
        self.count
    }
}

impl Default for Counter {
    fn default() -> (r: Self)
        ensures
            r.wf(),
            r.written() == Seq::<u8>::empty(),
    {
        Self::new()
    }
}

impl Write for Counter {
    type Error = Infallible;

    closed spec fn wf(&self) -> bool {
        self.count == counted(self.log@.len())
    }

    closed spec fn written(&self) -> Seq<u8> {
        self.log@
    }

    open spec fn bound(&self) -> Bound {
        Bound::Endless
    }

    open spec fn kept(&self) -> Kept {
        nothing_kept()
    }

    proof fn bounds(&self) {
    }

    fn write_all(&mut self, data: &[u8]) -> (r: Result<(), Infallible>) {
        self.count = self.count.saturating_add(data.len() as u64);
        proof {
            self.log@ = self.log@ + data@;
        }
        Ok(())
    }
}

/// Error returned by [`SliceWriter`] when the buffer is full.
#[derive(Debug, Clone, Copy, PartialEq, Eq)]
pub struct BufferFull;

impl BufferFull {
    /// The text of the error.
    pub fn message(&self) -> (r: &'static str)
        ensures
            r@ == "buffer full"@,
    {
        "buffer full"
    }
}

/// A [`Write`]r into a byte slice.
#[derive(Debug)]
pub struct SliceWriter<'a> {
    buf: &'a mut [u8],
    len: usize,
}

impl<'a> SliceWriter<'a> {
    spec fn content(&self) -> Seq<u8> {
        self.buf@
    }

    /// Creates a writer filling `buf` from the start.
    pub fn new(buf: &'a mut [u8]) -> (r: Self)
        ensures
            r.wf(),
            Write::written(&r) == Seq::<u8>::empty(),
            r.bound() == Bound::Upto(old(buf)@.len()),
            final(r.target())@ == final(buf)@,
    {
        let n = buf.len();
        let r = Self { buf, len: 0 };
        assert(Write::written(&r) =~= Seq::<u8>::empty());
        r
    }

    /// Number of bytes written.
    pub fn len(&self) -> (r: usize)
        requires
            self.wf(),
        ensures
            r == Write::written(self).len(),
    {
        self.len
    }

    /// Whether nothing was written.
    pub fn is_empty(&self) -> (r: bool)
        requires
            self.wf(),
        ensures
            r == (Write::written(self).len() == 0),
    {
        self.len == 0
    }

    /// The bytes written so far.
    pub fn written(&self) -> (r: &[u8])
        requires
            self.wf(),
        ensures
            r@ == Write::written(self),
    {
        slice_subrange(self.buf, 0, self.len)
    }

    /// Returns the written part of the buffer.
    pub fn into_written(self) -> (r: &'a mut [u8])
        requires
            self.wf(),
        ensures
            r@ == Write::written(&self),
            final(self.target())@ == final(r)@ + self.target()@.skip(r@.len() as int),
            self.target()@.subrange(0, r@.len() as int) == r@,
            self.bound() == Bound::Upto(self.target()@.len()),
            r@.len() <= self.target()@.len(),
    {
        let (head, _) = self.buf.split_at_mut(self.len);
        head
    }
}

impl Write for SliceWriter<'_> {
    type Error = BufferFull;

    closed spec fn wf(&self) -> bool {
        self.len <= self.content().len() <= usize::MAX
    }

    closed spec fn written(&self) -> Seq<u8> {
        self.content().subrange(0, self.len as int)
    }

    closed spec fn bound(&self) -> Bound {
        Bound::Upto(self.content().len())
    }

    open spec fn kept(&self) -> Kept {
        nothing_kept()
    }

    closed spec fn target(&self) -> &mut [u8] {
        self.buf
    }

    proof fn bounds(&self) {
    }

    fn write_all(&mut self, data: &[u8]) -> (r: Result<(), BufferFull>)
        ensures
            r is Err ==> *final(self) == *old(self),
            r is Ok ==> (*final(self)).target()@ == overwritten(
                (*old(self)).target()@,
                Write::written(&*old(self)).len() as int,
                data@,
            ),
    {
        if data.len() > self.buf.len() - self.len {
            return Err(BufferFull);
        }
        copy_to(self.buf, self.len, data);
        self.len = self.len + data.len();
        assert(Write::written(&*self) =~= Write::written(&*old(self)) + data@);
        Ok(())
    }
}

} // verus!
