//! Random-access storage that holds a document.

use vstd::prelude::*;
use vstd::slice::slice_subrange;
use crate::cursor::skip;
use crate::error::Error;
use crate::io::{copy_to, nothing_kept, Feed, Kept, Source};
use crate::parser::start;
use super::apply::content;

verus! {

/// `b`, with the bytes from `at` on overwritten by `data`.
pub open spec fn overwritten(b: Seq<u8>, at: int, data: Seq<u8>) -> Seq<u8> {
    b.subrange(0, at) + data + b.skip(at + data.len())
}

/// `n` bytes from `at` on lie within `b`.
pub open spec fn within(b: Seq<u8>, at: int, n: int) -> bool {
    0 <= at && 0 <= n && at + n <= b.len()
}

/// `b`, with `n` bytes copied from `from` to `to` (nothing changes where they would not fit).
pub open spec fn moved(b: Seq<u8>, from: int, to: int, n: int) -> Seq<u8> {
    if within(b, from, n) && within(b, to, n) {
        overwritten(b, to, b.subrange(from, from + n))
    } else {
        b
    }
}

/// Overwriting changes the bytes that are overwritten, and no other.
pub proof fn law_overwritten(b: Seq<u8>, at: int, data: Seq<u8>, k: int)
    requires
        0 <= at,
        at + data.len() <= b.len(),
        0 <= k < b.len(),
    ensures
        overwritten(b, at, data).len() == b.len(),
        overwritten(b, at, data)[k] == (if at <= k < at + data.len() {
            data[k - at]
        } else {
            b[k]
        }),
{
}

/// Moving copies the bytes as they were before, also where the two places overlap, and changes no
/// other.
pub proof fn law_moved(b: Seq<u8>, from: int, to: int, n: int, k: int)
    requires
        0 <= n,
        0 <= from,
        from + n <= b.len(),
        0 <= to,
        to + n <= b.len(),
        0 <= k < b.len(),
    ensures
        moved(b, from, to, n).len() == b.len(),
        moved(b, from, to, n)[k] == (if to <= k < to + n {
            b[from + (k - to)]
        } else {
            b[k]
        }),
{
    law_overwritten(b, to, b.subrange(from, from + n), k);
}

/// A request that is made of a storage.
pub enum Request {
    /// The length of the document is asked for.
    Len,
    /// `n` bytes at `at` are read.
    Read { at: int, n: int },
    /// `n` bytes at `at` are written.
    Write { at: int, n: int },
    /// The length of the document is set.
    SetLen(int),
    /// `n` bytes are moved from `from` to `to`.
    Move { from: int, to: int, n: int },
}

/// A record of requests, if one is kept, with one more.
pub open spec fn noted(log: Option<Seq<Request>>, q: Request) -> Option<Seq<Request>> {
    match log {
        Some(l) => Some(l.push(q)),
        None => None,
    }
}

/// A record of requests, if one is kept, with more of them.
pub open spec fn noted_all(log: Option<Seq<Request>>, more: Seq<Request>) -> Option<Seq<Request>> {
    match log {
        Some(l) => Some(l + more),
        None => None,
    }
}

/// A record of requests, if one is kept, but for those to read.
pub open spec fn but_reads(log: Option<Seq<Request>>) -> Option<Seq<Request>> {
    match log {
        Some(l) => Some(l.filter(|q: Request| !(q is Read))),
        None => None,
    }
}

pub(crate) proof fn lemma_but_reads(log: Option<Seq<Request>>, at: int, n: int)
    ensures
        but_reads(noted(log, (Request::Read { at, n }))) == but_reads(log),
{
    match log {
        Some(l) => {
            let m = l.push(Request::Read { at, n });
            reveal(Seq::filter);
            assert(m.drop_last() =~= l);
        },
        None => {},
    }
}

/// Requests that move `n` bytes from `from` to `to`: one to do so, or some that read from the one
/// range and write to the other.
pub open spec fn moves(q: Seq<Request>, from: int, to: int, n: int) -> bool {
    ||| q == seq![Request::Move { from, to, n }]
    ||| forall|k: int|
        0 <= k < q.len() ==> match #[trigger] q[k] {
            Request::Read { at, n: m } => from <= at && at + m <= from + n,
            Request::Write { at, n: m } => to <= at && at + m <= to + n,
            _ => false,
        }
}

/// One more request to read or write is part of a move.
proof fn lemma_part(
    log: Option<Seq<Request>>,
    made: Seq<Request>,
    q: Request,
    from: int,
    to: int,
    n: int,
) -> (r: Seq<Request>)
    requires
        moves(made, from, to, n),
        made != seq![Request::Move { from, to, n }],
        moves(seq![q], from, to, n),
        !(q is Move),
    ensures
        moves(r, from, to, n),
        r != seq![Request::Move { from, to, n }],
        noted_all(log, r) == noted(noted_all(log, made), q),
{
    let r = made.push(q);
    assert(seq![q][0] == q);
    assert(seq![Request::Move { from, to, n }][0] is Move);
    assert(r.last() == q);
    match log {
        Some(l) => {
            assert(l + r =~= (l + made).push(q));
        },
        None => {},
    }
    r
}

/// Random-access byte storage holding a JSON document (RAM, a file, flash, EEPROM...).
pub trait Storage {
    /// Error type.
    type Error;

    /// The storage's own invariant.
    open spec fn wf(&self) -> bool {
        true
    }

    /// The document.
    open spec fn bytes(&self) -> Seq<u8> {
        Seq::empty()
    }

    /// How long the document may become: a storage that says so fails only where a request
    /// lies outside of the document or would make it longer, and then changes nothing. A
    /// storage that does not say so may fail at any time.
    open spec fn limit(&self) -> Option<nat> {
        None
    }

    /// The requests that were made so far, for a storage that keeps a record of them.
    open spec fn log(&self) -> Option<Seq<Request>> {
        None
    }

    /// Lengths fit in 64 bits, and within the limit.
    proof fn bounds(&self)
        requires
            self.wf(),
        ensures
            self.bytes().len() <= u64::MAX,
            self.limit() matches Some(c) ==> self.bytes().len() <= c,
    ;

    /// Current length of the document.
    fn len(&mut self) -> (r: Result<u64, Self::Error>)
        requires
            (*old(self)).wf(),
        ensures
            (*final(self)).wf(),
            (*final(self)).bytes() == (*old(self)).bytes(),
            (*final(self)).limit() == (*old(self)).limit(),
            (*final(self)).log() == noted((*old(self)).log(), Request::Len),
            r matches Ok(n) ==> n == (*old(self)).bytes().len(),
            r is Err ==> (*old(self)).limit() is None,
    ;

    /// Reads exactly `buf.len()` bytes at `offset` (always within the current length).
    fn read_at(&mut self, offset: u64, buf: &mut [u8]) -> (r: Result<(), Self::Error>)
        requires
            (*old(self)).wf(),
        ensures
            (*final(self)).wf(),
            (*final(self)).bytes() == (*old(self)).bytes(),
            (*final(self)).limit() == (*old(self)).limit(),
            (*final(self)).log() == noted(
                (*old(self)).log(),
                (Request::Read { at: offset as int, n: old(buf)@.len() as int }),
            ),
            final(buf)@.len() == old(buf)@.len(),
            r is Ok ==> {
                &&& within((*old(self)).bytes(), offset as int, old(buf)@.len() as int)
                &&& final(buf)@ == (*old(self)).bytes().subrange(
                    offset as int,
                    offset + old(buf)@.len(),
                )
            },
            r is Err && (*old(self)).limit() is Some ==> !within(
                (*old(self)).bytes(),
                offset as int,
                old(buf)@.len() as int,
            ),
    ;

    /// Writes `data` at `offset` (always within the current length, which does not change).
    fn write_at(&mut self, offset: u64, data: &[u8]) -> (r: Result<(), Self::Error>)
        requires
            (*old(self)).wf(),
        ensures
            (*final(self)).wf(),
            (*final(self)).limit() == (*old(self)).limit(),
            (*final(self)).log() == noted(
                (*old(self)).log(),
                (Request::Write { at: offset as int, n: data@.len() as int }),
            ),
            r is Ok ==> {
                &&& within((*old(self)).bytes(), offset as int, data@.len() as int)
                &&& (*final(self)).bytes() == overwritten(
                    (*old(self)).bytes(),
                    offset as int,
                    data@,
                )
            },
            r is Err ==> (*final(self)).bytes().len() == (*old(self)).bytes().len(),
            r is Err && (*old(self)).limit() is Some ==> {
                &&& !within((*old(self)).bytes(), offset as int, data@.len() as int)
                &&& (*final(self)).bytes() == (*old(self)).bytes()
            },
    ;

    /// Grows or shrinks the document. Growing may fail if there is no room.
    fn set_len(&mut self, len: u64) -> (r: Result<(), Self::Error>)
        requires
            (*old(self)).wf(),
        ensures
            (*final(self)).wf(),
            (*final(self)).limit() == (*old(self)).limit(),
            (*final(self)).log() == noted((*old(self)).log(), Request::SetLen(len as int)),
            r is Ok ==> {
                &&& (*final(self)).bytes().len() == len
                &&& forall|i: int|
                    0 <= i < len && i < (*old(self)).bytes().len()
                        ==> #[trigger] (*final(self)).bytes()[i] == (*old(self)).bytes()[i]
                &&& (*old(self)).limit() matches Some(c) ==> len <= c
            },
            r is Err ==> ((*old(self)).limit() matches Some(c) ==> {
                &&& len > c
                &&& (*final(self)).bytes() == (*old(self)).bytes()
            }),
    ;

    /// Moves `len` bytes from `from` to `to` (ranges may overlap), using `scratch` as a
    /// buffer. The default implementation copies through `scratch` in chunks.
    fn move_within(&mut self, from: u64, to: u64, len: u64, scratch: &mut [u8]) -> (r: Result<
        (),
        Self::Error,
    >)
        requires
            (*old(self)).wf(),
        ensures
            (*final(self)).wf(),
            (*final(self)).limit() == (*old(self)).limit(),
            exists|q: Seq<Request>|
                {
                    &&& #[trigger] moves(q, from as int, to as int, len as int)
                    &&& (*final(self)).log() == noted_all((*old(self)).log(), q)
                },
            final(scratch)@.len() == old(scratch)@.len(),
            r is Ok ==> {
                &&& len == 0 || from == to || (within((*old(self)).bytes(), from as int, len as int)
                    && within((*old(self)).bytes(), to as int, len as int))
                &&& (*final(self)).bytes() == moved(
                    (*old(self)).bytes(),
                    from as int,
                    to as int,
                    len as int,
                )
            },
            r is Err && (*old(self)).limit() is Some ==> !(within(
                (*old(self)).bytes(),
                from as int,
                len as int,
            ) && within((*old(self)).bytes(), to as int, len as int)),
    {
        let mut small = [0u8;16];
        let buf: &mut [u8] = if scratch.len() == 0 {
            &mut small
        } else {
            scratch
        };
        let chunk = buf.len();
        let ghost b = (*self).bytes();
        let ghost lim = (*self).limit();
        let ghost log = (*self).log();
        let ghost mut made = Seq::<Request>::empty();
        proof {
            (*self).bounds();
            match log {
                Some(l) => {
                    assert(l + made =~= l);
                },
                None => {},
            }
        }
        let mut failed: Option<Self::Error> = None;
        if to < from {
            let mut done: u64 = 0;
            while failed.is_none() && done < len
                invariant
                    done <= len,
                    to < from,
                    chunk == buf@.len() > 0,
                    (*self).wf(),
                    (*self).limit() == lim,
                    log == (*old(self)).log(),
                    (*self).log() == noted_all(log, made),
                    moves(made, from as int, to as int, len as int),
                    made != seq![Request::Move { from: from as int, to: to as int, n: len as int }],
                    b.len() <= u64::MAX,
                    b == (*old(self)).bytes(),
                    lim == (*old(self)).limit(),
                    failed is Some && lim is Some ==> !(within(b, from as int, len as int) && within(
                        b,
                        to as int,
                        len as int,
                    )),
                    done > 0 ==> from + done <= b.len(),
                    failed is None ==> (*self).bytes().len() == b.len(),
                    failed is None ==> forall|i: int|
                        0 <= i < b.len() ==> #[trigger] (*self).bytes()[i] == (if to <= i < to
                            + done {
                            b[i - to + from]
                        } else {
                            b[i]
                        }),
                decreases len - done, (if failed is None { 1int } else { 0int }),
            {
                let n: usize = if (chunk as u64) < len - done {
                    chunk
                } else {
                    (len - done) as usize
                };
                let ghost now = (*self).bytes();
                let (part, _) = buf.split_at_mut(n);
                let r = self.read_at(from + done, part);
                proof {
                    made = lemma_part(
                        log,
                        made,
                        Request::Read { at: from + done, n: n as int },
                        from as int,
                        to as int,
                        len as int,
                    );
                }
                match r {
                    Ok(_) => {},
                    Err(e) => {
                        failed = Some(e);
                        continue ;
                    },
                }
                assert(part@ =~= b.subrange(from + done, from + done + n));
                let r = self.write_at(to + done, part);
                proof {
                    made = lemma_part(
                        log,
                        made,
                        Request::Write { at: to + done, n: n as int },
                        from as int,
                        to as int,
                        len as int,
                    );
                }
                match r {
                    Ok(_) => {},
                    Err(e) => {
                        failed = Some(e);
                        continue ;
                    },
                }
                done = done + n as u64;
                proof {
                    assert forall|i: int| 0 <= i < b.len() implies #[trigger] (*self).bytes()[i]
                        == (if to <= i < to + done {
                        b[i - to + from]
                    } else {
                        b[i]
                    }) by {
                        assert((*self).bytes()[i] == overwritten(now, to + done - n, part@)[i]);
                    }
                }
            }
        } else if to > from {
            let mut left: u64 = len;
            while failed.is_none() && left > 0
                invariant
                    left <= len,
                    from < to,
                    chunk == buf@.len() > 0,
                    (*self).wf(),
                    (*self).limit() == lim,
                    log == (*old(self)).log(),
                    (*self).log() == noted_all(log, made),
                    moves(made, from as int, to as int, len as int),
                    made != seq![Request::Move { from: from as int, to: to as int, n: len as int }],
                    b.len() <= u64::MAX,
                    b == (*old(self)).bytes(),
                    lim == (*old(self)).limit(),
                    failed is Some && lim is Some ==> !(within(b, from as int, len as int) && within(
                        b,
                        to as int,
                        len as int,
                    )),
                    left < len && failed is None ==> to + len <= b.len(),
                    failed is None ==> (*self).bytes().len() == b.len(),
                    failed is None ==> forall|i: int|
                        0 <= i < b.len() ==> #[trigger] (*self).bytes()[i] == (if to + left <= i
                            < to + len {
                            b[i - to + from]
                        } else {
                            b[i]
                        }),
                decreases left, (if failed is None { 1int } else { 0int }),
            {
                let n: usize = if (chunk as u64) < left {
                    chunk
                } else {
                    left as usize
                };
                let ghost now = (*self).bytes();
                let ghost before = left;
                left = left - n as u64;
                let (part, _) = buf.split_at_mut(n);
                let src = from.saturating_add(left);
                let dst = to.saturating_add(left);
                let r = self.read_at(src, part);
                proof {
                    made = lemma_part(
                        log,
                        made,
                        Request::Read { at: src as int, n: n as int },
                        from as int,
                        to as int,
                        len as int,
                    );
                }
                match r {
                    Ok(_) => {},
                    Err(e) => {
                        failed = Some(e);
                        continue ;
                    },
                }
                assert(part@ =~= b.subrange(from + left, from + left + n));
                let r = self.write_at(dst, part);
                proof {
                    made = lemma_part(
                        log,
                        made,
                        Request::Write { at: dst as int, n: n as int },
                        from as int,
                        to as int,
                        len as int,
                    );
                }
                match r {
                    Ok(_) => {},
                    Err(e) => {
                        failed = Some(e);
                        continue ;
                    },
                }
                proof {
                    assert forall|i: int| 0 <= i < b.len() implies #[trigger] (*self).bytes()[i]
                        == (if to + left <= i < to + len {
                        b[i - to + from]
                    } else {
                        b[i]
                    }) by {
                        assert((*self).bytes()[i] == overwritten(now, to + left, part@)[i]);
                    }
                }
            }
        }
        match failed {
            Some(e) => Err(e),
            None => {
                assert((*self).bytes() =~= moved(b, from as int, to as int, len as int));
                Ok(())
            },
        }
    }
}

impl<T: Storage + ?Sized> Storage for &mut T {
    type Error = T::Error;

    open spec fn wf(&self) -> bool {
        (**self).wf()
    }

    open spec fn bytes(&self) -> Seq<u8> {
        (**self).bytes()
    }

    open spec fn limit(&self) -> Option<nat> {
        (**self).limit()
    }

    open spec fn log(&self) -> Option<Seq<Request>> {
        (**self).log()
    }

    proof fn bounds(&self) {
        (**self).bounds();
    }

    fn len(&mut self) -> (r: Result<u64, Self::Error>) {
        (**self).len()
    }

    fn read_at(&mut self, offset: u64, buf: &mut [u8]) -> (r: Result<(), Self::Error>) {
        (**self).read_at(offset, buf)
    }

    fn write_at(&mut self, offset: u64, data: &[u8]) -> (r: Result<(), Self::Error>) {
        (**self).write_at(offset, data)
    }

    fn set_len(&mut self, len: u64) -> (r: Result<(), Self::Error>) {
        (**self).set_len(len)
    }

    fn move_within(&mut self, from: u64, to: u64, len: u64, scratch: &mut [u8]) -> (r: Result<
        (),
        Self::Error,
    >) {
        (**self).move_within(from, to, len, scratch)
    }
}

/// Error of [`MemStorage`]: the edit does not fit in the buffer.
#[derive(Debug, Clone, Copy, PartialEq, Eq)]
pub struct CapacityError;

impl CapacityError {
    /// The text of the error.
    pub fn message(&self) -> (r: &'static str)
        ensures
            r@ == "buffer capacity exceeded"@,
    {
        "buffer capacity exceeded"
    }
}

/// A document in a RAM buffer: the first `len` bytes of `buf` hold the JSON, the rest is
/// room to grow.
#[derive(Debug)]
pub struct MemStorage<'a> {
    buf: &'a mut [u8],
    len: usize,
}

impl<'a> MemStorage<'a> {
    /// The whole buffer.
    pub closed spec fn buffer(&self) -> Seq<u8> {
        self.buf@
    }

    /// Wraps `buf`, whose first `len` bytes are the document.
    pub fn new(buf: &'a mut [u8], len: usize) -> (r: Self)
        requires
            len <= old(buf)@.len(),
        ensures
            r.wf(),
            r.bytes() == old(buf)@.subrange(0, len as int),
            r.buffer() == old(buf)@,
            r.limit() == Some(old(buf)@.len()),
    {
        let n = buf.len();
        Self { buf, len }
    }

    /// The document.
    pub fn as_bytes(&self) -> (r: &[u8])
        requires
            self.wf(),
        ensures
            r@ == self.bytes(),
    {
        slice_subrange(self.buf, 0, self.len)
    }

    /// Length of the document.
    pub fn doc_len(&self) -> (r: usize)
        requires
            self.wf(),
        ensures
            r == self.bytes().len(),
    {
        self.len
    }

    /// Size of the buffer.
    pub fn capacity(&self) -> (r: usize)
        ensures
            r == self.buffer().len(),
    {
        self.buf.len()
    }

    /// Returns the buffer and the document length.
    pub fn into_inner(self) -> (r: (&'a mut [u8], usize))
        requires
            self.wf(),
        ensures
            r.0@ == self.buffer(),
            r.1 == self.bytes().len(),
    {
        (self.buf, self.len)
    }

    /// The position of `n` bytes at `offset`, if they lie within the document.
    fn range(&self, offset: u64, n: usize) -> (r: Result<usize, CapacityError>)
        requires
            self.wf(),
        ensures
            match r {
                Ok(start) => start == offset && within(self.bytes(), offset as int, n as int),
                Err(_) => !within(self.bytes(), offset as int, n as int),
            },
    {
        let len = self.len as u64;
        if offset > len || n as u64 > len - offset {
            Err(CapacityError)
        } else {
            Ok(offset as usize)
        }
    }
}

impl Storage for MemStorage<'_> {
    type Error = CapacityError;

    closed spec fn wf(&self) -> bool {
        self.len <= self.buffer().len() <= usize::MAX
    }

    closed spec fn bytes(&self) -> Seq<u8> {
        self.buffer().subrange(0, self.len as int)
    }

    open spec fn limit(&self) -> Option<nat> {
        Some(self.buffer().len())
    }

    proof fn bounds(&self) {
    }

    fn len(&mut self) -> (r: Result<u64, CapacityError>) {
        Ok(self.len as u64)
    }

    fn read_at(&mut self, offset: u64, buf: &mut [u8]) -> (r: Result<(), CapacityError>) {
        let n = buf.len();
        let start = self.range(offset, n)?;
        let part = slice_subrange(self.buf, start, start + n);
        copy_to(buf, 0, part);
        assert(buf@ =~= (*self).bytes().subrange(offset as int, offset + n));
        Ok(())
    }

    fn write_at(&mut self, offset: u64, data: &[u8]) -> (r: Result<(), CapacityError>) {
        let start = self.range(offset, data.len())?;
        copy_to(self.buf, start, data);
        assert((*self).bytes() =~= overwritten((*old(self)).bytes(), offset as int, data@));
        Ok(())
    }

    fn set_len(&mut self, len: u64) -> (r: Result<(), CapacityError>) {
        if len > self.buf.len() as u64 {
            return Err(CapacityError);
        }
        self.len = len as usize;
        Ok(())
    }

    fn move_within(&mut self, from: u64, to: u64, len: u64, scratch: &mut [u8]) -> (r: Result<
        (),
        CapacityError,
    >) {
        assert(moves(
            seq![Request::Move { from: from as int, to: to as int, n: len as int }],
            from as int,
            to as int,
            len as int,
        ));
        if len > self.len as u64 {
            return Err(CapacityError);
        }
        let n = len as usize;
        let src = self.range(from, n)?;
        let dst = self.range(to, n)?;
        let ghost b = self.buffer();
        if dst < src {
            let mut k: usize = 0;
            while k < n
                invariant
                    k <= n,
                    dst < src,
                    src + n <= b.len() <= usize::MAX,
                    self.len == old(self).len,
                    self.buffer().len() == b.len(),
                    forall|i: int|
                        0 <= i < b.len() ==> #[trigger] self.buffer()[i] == (if dst <= i < dst + k {
                            b[i - dst + src]
                        } else {
                            b[i]
                        }),
                decreases n - k,
            {
                let ghost now = self.buffer();
                let x = self.buf[src + k];
                self.buf[dst + k] = x;
                assert(self.buffer() == now.update(dst + k, x));
                k = k + 1;
            }
        } else {
            let mut k: usize = n;
            while k > 0
                invariant
                    k <= n,
                    src <= dst,
                    dst + n <= b.len() <= usize::MAX,
                    self.len == old(self).len,
                    self.buffer().len() == b.len(),
                    forall|i: int|
                        0 <= i < b.len() ==> #[trigger] self.buffer()[i] == (if dst + k <= i < dst
                            + n {
                            b[i - dst + src]
                        } else {
                            b[i]
                        }),
                decreases k,
            {
                k = k - 1;
                let ghost now = self.buffer();
                let x = self.buf[src + k];
                self.buf[dst + k] = x;
                assert(self.buffer() == now.update(dst + k, x));
            }
        }
        assert((*self).bytes() =~= moved(
            (*old(self)).bytes(),
            from as int,
            to as int,
            len as int,
        ));
        Ok(())
    }
}

/// What a source over a storage reads: the document, from offset 0 on, or nothing if it
/// starts behind the end.
pub open spec fn storage_feed(
    bytes: Seq<u8>,
    limit: Option<nat>,
    asked: Option<Seq<Request>>,
    from: int,
) -> Feed {
    Feed {
        input: if from <= bytes.len() {
            bytes
        } else {
            Seq::empty()
        },
        origin: if from <= bytes.len() {
            0
        } else {
            from
        },
        reliable: limit is Some,
        kept: Kept { limit, asked: but_reads(asked), ..nothing_kept() },
    }
}

/// A [`Source`] reading a [`Storage`] through a caller-provided buffer.
#[derive(Debug)]
pub struct StorageSource<'a, St> {
    pub(crate) st: St,
    pub(crate) buf: &'a mut [u8],
    pub(crate) start: usize,
    pub(crate) end: usize,
    /// Storage offset of `buf[end]`.
    pub(crate) pos: u64,
    pub(crate) len: u64,
}

impl<'a, St: Storage> StorageSource<'a, St> {
    /// The storage.
    pub open(crate) spec fn storage_now(&self) -> St {
        self.st
    }

    pub(crate) open(crate) spec fn content(&self) -> Seq<u8> {
        self.buf@
    }

    /// Creates a source reading the storage from the beginning. `buf` must not be empty.
    pub fn new(st: St, buf: &'a mut [u8]) -> (r: Result<Self, St::Error>)
        requires
            st.wf(),
            old(buf)@.len() > 0,
        ensures
            match r {
                Ok(s) => {
                    &&& s.wf()
                    &&& s.at() == 0
                    &&& s.feed() == storage_feed(
                        st.bytes(),
                        st.limit(),
                        noted(st.log(), Request::Len),
                        0,
                    )
                    &&& s.storage_now().bytes() == st.bytes()
                    &&& s.storage_now().limit() == st.limit()
                },
                Err(_) => st.limit() is None,
            },
    {
        Self::at(st, buf, 0)
    }

    /// Creates a source reading the storage from `offset`.
    pub fn at(st: St, buf: &'a mut [u8], offset: u64) -> (r: Result<Self, St::Error>)
        requires
            st.wf(),
            old(buf)@.len() > 0,
        ensures
            match r {
                Ok(s) => {
                    &&& s.wf()
                    &&& Source::at(&s) == (if offset <= st.bytes().len() {
                        offset as int
                    } else {
                        0
                    })
                    &&& s.feed() == storage_feed(
                        st.bytes(),
                        st.limit(),
                        noted(st.log(), Request::Len),
                        offset as int,
                    )
                    &&& s.storage_now().bytes() == st.bytes()
                    &&& s.storage_now().limit() == st.limit()
                },
                Err(_) => st.limit() is None,
            },
    {
        let mut st = st;
        let n = buf.len();
        let len = st.len()?;
        Ok(Self { st, buf, start: 0, end: 0, pos: offset, len })
    }

    /// Creates a source over a document of `len` bytes, from the beginning.
    pub(crate) fn over(st: St, buf: &'a mut [u8], len: u64) -> (r: Self)
        requires
            st.wf(),
            old(buf)@.len() > 0,
            len == st.bytes().len(),
        ensures
            r.wf(),
            Source::at(&r) == 0,
            r.feed() == storage_feed(st.bytes(), st.limit(), st.log(), 0),
            r.content().len() == old(buf)@.len(),
    {
        let n = buf.len();
        Self { st, buf, start: 0, end: 0, pos: 0, len }
    }

    /// Returns the storage and the buffer.
    pub(crate) fn into_parts(self) -> (r: (St, &'a mut [u8]))
        requires
            self.wf(),
        ensures
            r.0.wf(),
            r.1@.len() > 0,
            self.feed().origin == 0 ==> r.0.bytes() == self.feed().input,
            r.0.limit() == self.feed().kept.limit,
            but_reads(r.0.log()) == self.feed().kept.asked,
    {
        (self.st, self.buf)
    }
}

impl<St: Storage> Source for StorageSource<'_, St> {
    type Error = St::Error;

    open(crate) spec fn wf(&self) -> bool {
        &&& self.st.wf()
        &&& self.start <= self.end <= self.content().len() <= usize::MAX
        &&& 0 < self.content().len()
        &&& self.len == self.st.bytes().len()
        &&& self.end - self.start <= self.pos
        &&& self.pos > self.len ==> self.start == self.end
        &&& self.pos <= self.len ==> self.content().subrange(self.start as int, self.end as int)
            =~= self.st.bytes().subrange(self.pos - (self.end - self.start), self.pos as int)
    }

    open(crate) spec fn feed(&self) -> Feed {
        storage_feed(self.st.bytes(), self.st.limit(), self.st.log(), self.pos as int)
    }

    open(crate) spec fn at(&self) -> int {
        if self.pos <= self.len {
            self.pos - (self.end - self.start)
        } else {
            0
        }
    }

    open(crate) spec fn avail(&self) -> int {
        self.end - self.start
    }

    proof fn bounds(&self) {
        self.st.bounds();
    }

    fn fill(&mut self) -> (r: Result<&[u8], St::Error>) {
        proof {
            self.st.bounds();
        }
        if self.start == self.end && self.pos < self.len {
            let size = self.buf.len();
            let left = self.len - self.pos;
            let n: usize = if (size as u64) < left {
                size
            } else {
                left as usize
            };
            self.start = 0;
            self.end = 0;
            let (part, _) = self.buf.split_at_mut(n);
            proof {
                lemma_but_reads(self.st.log(), self.pos as int, n as int);
            }
            self.st.read_at(self.pos, part)?;
            self.end = n;
            self.pos = self.pos + n as u64;
            assert(self.content().subrange(0, n as int) =~= self.st.bytes().subrange(
                self.pos - n,
                self.pos as int,
            ));
        }
        assert(self.content().subrange(self.start as int, self.end as int)
            =~= (*self).feed().input.subrange((*self).at(), (*self).at() + (*self).avail()));
        Ok(slice_subrange(self.buf, self.start, self.end))
    }

    fn consume(&mut self, n: usize) {
        let left = self.end - self.start;
        self.start = self.start + if n < left {
            n
        } else {
            left
        };
        proof {
            let b = self.st.bytes();
            if self.pos <= self.len {
                assert(self.content().subrange(self.start as int, self.end as int)
                    =~= old(self).content().subrange(
                    old(self).start as int,
                    old(self).end as int,
                ).skip(n as int));
                assert(b.subrange(self.pos - (self.end - self.start), self.pos as int)
                    =~= b.subrange(
                    self.pos - (self.end - old(self).start),
                    self.pos as int,
                ).skip(n as int));
            }
        }
    }

    fn offset(&self) -> (r: u64) {
        self.pos - (self.end - self.start) as u64
    }
}

} // verus!
