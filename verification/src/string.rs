//! String decoding: escapes, UTF-8 validation, and the sinks decoded bytes go to.

use vstd::prelude::*;
use vstd::slice::slice_subrange;
use vstd::string::StringSliceAdditionalSpecFns;
use vstd::utf8::{
    char_u32_cast, encode_scalar, encode_utf8, encode_utf8_valid_utf8, is_scalar,
    length_of_first_scalar, pop_first_scalar, valid_first_scalar, valid_utf8, valid_utf8_concat,
};

use crate::cursor::{no_escape, Cursor, Outcome};
use crate::error::{Error, ErrorKind};
use crate::grammar::{
    chunk, escape, fits, hex, is_plain, lemma_escape, lemma_hex4, lemma_text, lemma_unit,
    lemma_utf8_end, less, pour, prepend, text, unit, utf8_end, utf8_len, utf8_tail, Chunk, Fault,
    BACKSLASH, QUOTE, SLASH, TILDE,
};
use crate::io::Source;
use crate::parser::{Parser, Res};
use crate::path::{in_front, unescape};

verus! {

/// Destination of decoded bytes.
pub(crate) trait Sink {
    /// The sink's own invariant.
    spec fn wf(&self) -> bool;

    /// The bytes it was given.
    spec fn got(&self) -> Seq<u8>;

    /// How many more bytes it can hold, where there is a limit.
    spec fn space(&self) -> Option<nat>;

    /// What it was made with.
    spec fn made(&self) -> (Seq<u8>, bool, int);

    /// How many more bytes can be accepted.
    fn room(&self) -> (r: usize)
        requires
            self.wf(),
        ensures
            match self.space() {
                Some(n) => r == n,
                None => r == usize::MAX,
            },
    ;

    /// Accepts bytes (callers never pass more than `room()` for strings).
    fn put(&mut self, bytes: &[u8])
        requires
            (*old(self)).wf(),
        ensures
            (*final(self)).wf(),
            (*final(self)).got() == (*old(self)).got() + bytes@,
            (*final(self)).space() == less((*old(self)).space(), bytes@.len()),
            (*final(self)).made() == (*old(self)).made(),
    ;
}

/// Discards everything (used to skip).
pub(crate) struct NullSink {
    pub(crate) log: Ghost<Seq<u8>>,
}

impl NullSink {
    pub(crate) fn new() -> (r: Self)
        ensures
            r.wf(),
            r.got() == Seq::<u8>::empty(),
            r.space() is None,
    {
        NullSink { log: Ghost(Seq::empty()) }
    }
}

impl Sink for NullSink {
    open(crate) spec fn wf(&self) -> bool {
        true
    }

    open(crate) spec fn got(&self) -> Seq<u8> {
        self.log@
    }

    open(crate) spec fn space(&self) -> Option<nat> {
        None
    }

    open(crate) spec fn made(&self) -> (Seq<u8>, bool, int) {
        (Seq::empty(), false, 0)
    }

    fn room(&self) -> (r: usize) {
        usize::MAX
    }

    fn put(&mut self, bytes: &[u8]) {
        proof {
            self.log@ = self.log@ + bytes@;
        }
    }
}

/// Collects bytes into a buffer; records overflow instead of failing.
pub(crate) struct BufSink<'b> {
    pub(crate) buf: &'b mut [u8],
    pub(crate) len: usize,
    pub(crate) overflow: bool,
    pub(crate) log: Ghost<Seq<u8>>,
}

impl<'b> BufSink<'b> {
    pub(crate) fn new(buf: &'b mut [u8]) -> (r: Self)
        ensures
            r.wf(),
            r.got() == Seq::<u8>::empty(),
            r.space() == Some(old(buf)@.len()),
            r.made() == (Seq::<u8>::empty(), false, old(buf)@.len() as int),
    {
        let n = buf.len();
        let r = Self { buf, len: 0, overflow: false, log: Ghost(Seq::empty()) };
        assert(r.content().subrange(0, 0) =~= Seq::<u8>::empty());
        r
    }

    pub(crate) open(crate) spec fn content(&self) -> Seq<u8> {
        self.buf@
    }

    /// Returns the buffer, which holds the bytes that were put (unless they overflowed).
    pub(crate) fn into_buf(self) -> (r: &'b mut [u8])
        requires
            self.wf(),
        ensures
            r@.len() == self.made().2,
            self.len <= r@.len(),
            self.overflow <==> self.got().len() > r@.len(),
            !self.overflow ==> self.len == self.got().len() && r@.subrange(0, self.len as int)
                == self.got(),
    {
        self.buf
    }
}

impl Sink for BufSink<'_> {
    open(crate) spec fn wf(&self) -> bool {
        &&& self.len <= self.content().len() <= usize::MAX
        &&& !self.overflow ==> self.log@ == self.content().subrange(0, self.len as int)
        &&& self.overflow ==> self.len == self.content().len() && self.log@.len() > self.len
    }

    open(crate) spec fn got(&self) -> Seq<u8> {
        self.log@
    }

    open(crate) spec fn space(&self) -> Option<nat> {
        Some((self.content().len() - self.len) as nat)
    }

    open(crate) spec fn made(&self) -> (Seq<u8>, bool, int) {
        (Seq::empty(), false, self.content().len() as int)
    }

    fn room(&self) -> (r: usize) {
        self.buf.len() - self.len
    }

    fn put(&mut self, bytes: &[u8]) {
        let room = self.buf.len() - self.len;
        let n = if bytes.len() < room {
            bytes.len()
        } else {
            room
        };
        let start = self.len;
        let mut k: usize = 0;
        while k < n
            invariant
                k <= n <= bytes@.len(),
                start + n <= self.content().len() <= usize::MAX,
                self.len == start,
                self.content().len() == old(self).content().len(),
                self.overflow == old(self).overflow,
                self.log == old(self).log,
                self.content().subrange(0, start as int) == old(self).content().subrange(
                    0,
                    start as int,
                ),
                self.content().subrange(start as int, start + k) == bytes@.subrange(0, k as int),
            decreases n - k,
        {
            let b = bytes[k];
            let ghost before = self.content();
            self.buf[start + k] = b;
            k = k + 1;
            proof {
                assert(self.content() == before.update(start + k - 1, b));
                assert(self.content().subrange(0, start as int) =~= before.subrange(
                    0,
                    start as int,
                ));
                assert(self.content().subrange(start as int, start + k) =~= before.subrange(
                    start as int,
                    start + k - 1,
                ).push(b));
                assert(bytes@.subrange(0, k as int) =~= bytes@.subrange(0, k - 1).push(b));
            }
        }
        self.len = start + n;
        if n < bytes.len() {
            self.overflow = true;
        }
        proof {
            self.log@ = self.log@ + bytes@;
            assert(self.content().subrange(0, start + n) =~= self.content().subrange(
                0,
                start as int,
            ) + self.content().subrange(start as int, start + n));
            assert(bytes@.subrange(0, bytes@.len() as int) =~= bytes@);
        }
    }
}

/// A run of plain bytes stands for itself.
proof fn lemma_plain_run(s: Seq<u8>, at: int, n: int, room: Option<nat>)
    requires
        0 <= at,
        0 <= n,
        at + n <= s.len(),
        forall|k: int| at <= k < at + n ==> is_plain(#[trigger] s[k]),
        fits(room, n as nat),
    ensures
        chunk(s, at, room) == prepend(
            s.subrange(at, at + n),
            chunk(s, at + n, less(room, n as nat)),
        ),
    decreases n,
{
    if n == 0 {
        assert(s.subrange(at, at) =~= Seq::<u8>::empty());
        lemma_prepend_empty(chunk(s, at, room));
    } else {
        lemma_plain_run(s, at + 1, n - 1, less(room, 1));
        assert(less(less(room, 1), (n - 1) as nat) == less(room, n as nat));
        assert(s.subrange(at, at + n) =~= seq![s[at]] + s.subrange(at + 1, at + n));
        lemma_prepend_prepend(
            seq![s[at]],
            s.subrange(at + 1, at + n),
            chunk(s, at + n, less(room, n as nat)),
        );
    }
}

pub(crate) proof fn lemma_prepend_empty(c: Result<Chunk, Fault>)
    ensures
        prepend(Seq::empty(), c) == c,
{
    if c is Ok {
        assert(Seq::<u8>::empty() + c->Ok_0.out =~= c->Ok_0.out);
    }
}

pub(crate) proof fn lemma_prepend_prepend(a: Seq<u8>, b: Seq<u8>, c: Result<Chunk, Fault>)
    ensures
        prepend(a, prepend(b, c)) == prepend(a + b, c),
{
    if c is Ok {
        assert(a + (b + c->Ok_0.out) =~= a + b + c->Ok_0.out);
    }
}

/// Two to four bytes that follow the table of well-formed UTF-8 encode a scalar value.
proof fn lemma_utf8_bits(a: u8, b: u8, c: u8, d: u8)
    by (bit_vector)
    ensures
        0xc2 <= a <= 0xdf && 0x80 <= b <= 0xbf ==> 0x80 <= ((((a & 0x1f) as u32) << 6) | ((b
            & 0x3f) as u32)) <= 0x7ff,
        0xe0 <= a <= 0xef && 0x80 <= b <= 0xbf && 0x80 <= c <= 0xbf && (a == 0xe0 ==> 0xa0 <= b)
            && (a == 0xed ==> b <= 0x9f) ==> {
            let v = (((a & 0x0f) as u32) << 12) | (((b & 0x3f) as u32) << 6) | ((c & 0x3f) as u32);
            0x800 <= v <= 0xffff && !(0xd800 <= v <= 0xdfff)
        },
        0xf0 <= a <= 0xf4 && 0x80 <= b <= 0xbf && 0x80 <= c <= 0xbf && 0x80 <= d <= 0xbf && (a
            == 0xf0 ==> 0x90 <= b) && (a == 0xf4 ==> b <= 0x8f) ==> {
            let v = (((a & 0x07) as u32) << 18) | (((b & 0x3f) as u32) << 12) | (((c & 0x3f) as u32)
                << 6) | ((d & 0x3f) as u32);
            0x10000 <= v <= 0x10ffff
        },
{
}

/// The bytes that a character of a string stands for are valid UTF-8.
pub(crate) proof fn lemma_unit_utf8(s: Seq<u8>, i: int)
    requires
        0 <= i < s.len(),
    ensures
        unit(s, i) matches Ok((k, b)) ==> valid_utf8(b),
{
    lemma_escape(s, i + 1);
    lemma_utf8_end(s, i, 1);
    if unit(s, i) is Ok {
        let b = unit(s, i)->Ok_0.1;
        if s[i] == BACKSLASH {
            let c = escape(s, i + 1)->Ok_0.1 as u32;
            let chars = seq![c as char];
            char_u32_cast(c as char, c);
            assert(chars.drop_first() =~= Seq::<char>::empty());
            assert(encode_utf8(chars.drop_first()) =~= Seq::<u8>::empty());
            assert(encode_utf8(chars) =~= encode_scalar(c));
            encode_utf8_valid_utf8(chars);
        } else if is_plain(s[i]) {
            let x = s[i];
            assert(x < 0x80 ==> (x & 0x7f) < 0x80) by (bit_vector);
            assert(pop_first_scalar(b) =~= Seq::<u8>::empty());
            assert(valid_utf8(pop_first_scalar(b)));
        } else {
            let n = utf8_len(s[i]);
            reveal_with_fuel(utf8_end, 4);
            assert(forall|j: int| 0 <= j < n ==> b[j] == s[i + j]);
            assert(b.len() == n);
            assert(forall|j: int| 1 <= j < n ==> #[trigger] utf8_tail(s[i], j, s[i + j]));
            assert(utf8_tail(s[i], 1, s[i + 1]));
            if n >= 3 {
                assert(utf8_tail(s[i], 2, s[i + 2]));
            }
            if n >= 4 {
                assert(utf8_tail(s[i], 3, s[i + 3]));
            }
            lemma_utf8_bits(b[0], b[1], b[2], b[3]);
            assert(valid_first_scalar(b));
            assert(pop_first_scalar(b) =~= Seq::<u8>::empty());
            assert(valid_utf8(pop_first_scalar(b)));
        }
    }
}

/// A part of a string is valid UTF-8, fits where it is to go, and holds back at most one
/// character.
pub(crate) proof fn lemma_chunk(s: Seq<u8>, i: int, room: Option<nat>)
    requires
        0 <= i <= s.len(),
    ensures
        match chunk(s, i, room) {
            Ok(c) => {
                &&& i <= c.at <= s.len()
                &&& valid_utf8(c.out)
                &&& valid_utf8(c.stash)
                &&& c.stash.len() <= 4
                &&& fits(room, c.out.len())
                &&& c.done ==> c.stash.len() == 0
                &&& room is None ==> c.done
                &&& room is None ==> text(s, i) == Ok::<(int, Seq<u8>), Fault>((c.at, c.out))
            },
            Err(f) => {
                &&& i <= f.at <= s.len()
                &&& room is None ==> text(s, i) == Err::<(int, Seq<u8>), Fault>(f)
            },
        },
    decreases s.len() - i,
{
    if i < s.len() && s[i] != QUOTE && room != Some(0nat) {
        lemma_unit(s, i);
        lemma_unit_utf8(s, i);
        if unit(s, i) is Ok {
            let (k, b) = unit(s, i)->Ok_0;
            if fits(room, b.len()) {
                lemma_chunk(s, k, less(room, b.len()));
                if chunk(s, k, less(room, b.len())) is Ok {
                    valid_utf8_concat(b, chunk(s, k, less(room, b.len()))->Ok_0.out);
                }
            }
        }
    }
}

/// What is true of a part of a string is true of one behind a character held back.
pub(crate) proof fn lemma_pour(s: Seq<u8>, i: int, stash: Seq<u8>, room: Option<nat>)
    requires
        0 <= i <= s.len(),
        valid_utf8(stash),
        stash.len() <= 4,
    ensures
        match pour(s, i, stash, room) {
            Ok(c) => {
                &&& i <= c.at <= s.len()
                &&& valid_utf8(c.out)
                &&& valid_utf8(c.stash)
                &&& c.stash.len() <= 4
                &&& fits(room, c.out.len())
                &&& c.done ==> c.stash.len() == 0
                &&& room is None ==> c.done
                &&& room is None ==> (text(s, i) matches Ok((k, t)) && k == c.at && c.out == stash + t)
            },
            Err(f) => {
                &&& i <= f.at <= s.len()
                &&& room is None ==> text(s, i) == Err::<(int, Seq<u8>), Fault>(f)
            },
        },
{
    lemma_chunk(s, i, less(room, stash.len()));
    if fits(room, stash.len()) && chunk(s, i, less(room, stash.len())) is Ok {
        valid_utf8_concat(stash, chunk(s, i, less(room, stash.len()))->Ok_0.out);
    }
}

/// The parts of a string make up the string: what a part leaves is the rest of the text,
/// behind the character it holds back.
pub proof fn law_chunks(s: Seq<u8>, i: int, room: Option<nat>)
    requires
        0 <= i <= s.len(),
    ensures
        match chunk(s, i, room) {
            Err(f) => text(s, i) == Err::<(int, Seq<u8>), Fault>(f),
            Ok(c) => if c.done {
                text(s, i) == Ok::<(int, Seq<u8>), Fault>((c.at, c.out))
            } else {
                match text(s, c.at) {
                    Err(f) => text(s, i) == Err::<(int, Seq<u8>), Fault>(f),
                    Ok((k, t)) => text(s, i) == Ok::<(int, Seq<u8>), Fault>(
                        (k, c.out + c.stash + t),
                    ),
                }
            },
        },
        chunk(s, i, room) matches Ok(c) ==> !c.done && fits(room, 4) ==> i < c.at,
    decreases s.len() - i,
{
    if i < s.len() && s[i] != QUOTE {
        if room == Some(0nat) {
            if text(s, i) is Ok {
                let t = text(s, i)->Ok_0.1;
                assert(Seq::<u8>::empty() + Seq::<u8>::empty() + t =~= t);
            }
        } else {
            lemma_unit(s, i);
            if unit(s, i) is Ok {
                let (k, b) = unit(s, i)->Ok_0;
                if fits(room, b.len()) {
                    let left = less(room, b.len());
                    law_chunks(s, k, left);
                    lemma_chunk(s, k, left);
                    if chunk(s, k, left) is Ok {
                        let c = chunk(s, k, left)->Ok_0;
                        if !c.done && text(s, c.at) is Ok {
                            let t = text(s, c.at)->Ok_0.1;
                            assert(b + (c.out + c.stash + t) =~= b + c.out + c.stash + t);
                        }
                    }
                } else if text(s, k) is Ok {
                    let t = text(s, k)->Ok_0.1;
                    assert(Seq::<u8>::empty() + b + t =~= b + t);
                }
            }
        }
    }
}

/// The bytes as text, if they are valid UTF-8.
///
/// Trusted: calls `core::str::from_utf8`. It succeeds exactly on valid UTF-8, and the text
/// it gives has the same bytes.
#[verifier::external_body]
pub(crate) fn from_utf8(b: &[u8]) -> (r: Option<&str>)
    ensures
        r is Some <==> valid_utf8(b@),
        r matches Some(s) ==> s.spec_bytes() == b@,
{
    core::str::from_utf8(b).ok()
}

/// Writes the UTF-8 encoding of the scalar value `c` to the front of `out`, and returns its
/// length.
pub(crate) fn encode_char(c: u32, out: &mut [u8; 4]) -> (r: usize)
    requires
        is_scalar(c),
    ensures
        1 <= r <= 4,
        final(out)@.subrange(0, r as int) == encode_scalar(c),
{
    if c <= 0x7f {
        out[0] = (c & 0x7f) as u8;
        assert(out@.subrange(0, 1) =~= encode_scalar(c));
        1
    } else if c <= 0x7ff {
        out[0] = 0xc0 | ((c >> 6) & 0x1f) as u8;
        out[1] = 0x80 | (c & 0x3f) as u8;
        assert(out@.subrange(0, 2) =~= encode_scalar(c));
        2
    } else if c <= 0xffff {
        out[0] = 0xe0 | ((c >> 12) & 0x0f) as u8;
        out[1] = 0x80 | ((c >> 6) & 0x3f) as u8;
        out[2] = 0x80 | (c & 0x3f) as u8;
        assert(out@.subrange(0, 3) =~= encode_scalar(c));
        3
    } else {
        out[0] = 0xf0 | ((c >> 18) & 0x07) as u8;
        out[1] = 0x80 | ((c >> 12) & 0x3f) as u8;
        out[2] = 0x80 | ((c >> 6) & 0x3f) as u8;
        out[3] = 0x80 | (c & 0x3f) as u8;
        assert(out@.subrange(0, 4) =~= encode_scalar(c));
        4
    }
}

/// What decoding does to the parser: it reads the chunk `c` of the open string.
pub(crate) open(crate) spec fn decoded(before: Cursor, c: Result<Chunk, Fault>) -> Outcome<bool> {
    match c {
        Err(f) => Outcome::Broken(f),
        Ok(c) => Outcome::Done(c.done, Cursor { at: c.at, stash: c.stash, ..before }),
    }
}

impl<S: Source, const N: usize> Parser<S, N> {
    /// Decodes string content (after the opening quote) into `sink`.
    ///
    /// Returns `true` when the closing quote was consumed, `false` when the sink is full.
    /// Stops only between characters: a character that does not fit is stashed and
    /// emitted first on the next call.
    #[verifier::rlimit(40)]
    pub(crate) fn decode<K: Sink>(&mut self, sink: &mut K) -> (r: Res<bool, S>)
        requires
            old(self).wf(),
            old(self).state is InStr,
            (*old(sink)).wf(),
        ensures
            (*final(sink)).wf(),
            (*final(sink)).made() == (*old(sink)).made(),
            ({
                let c = old(self).cursor();
                let want = pour(old(self).doc().bytes, c.at, c.stash, (*old(sink)).space());
                &&& final(self).did(&*old(self), r, decoded(c, want))
                &&& r is Ok ==> {
                    &&& (*final(sink)).got() == (*old(sink)).got() + want->Ok_0.out
                    &&& (*final(sink)).space() == less((*old(sink)).space(), want->Ok_0.out.len())
                }
            }),
    {
        let ghost s = self.doc().bytes;
        let ghost c0 = self.cursor();
        let ghost want = pour(s, c0.at, c0.stash, (*sink).space());
        let ghost mut sent = Seq::<u8>::empty();
        if self.stash_len > 0 {
            let n = self.stash_len as usize;
            if sink.room() < n {
                return Ok(false);
            }
            sink.put(slice_subrange(self.stash.as_slice(), 0, n));
            proof {
                sent = c0.stash;
            }
            self.stash_len = 0;
        }
        proof {
            assert(self.cursor().stash =~= Seq::<u8>::empty());
            assert(want == prepend(sent, chunk(s, c0.at, (*sink).space())));
            assert((*old(sink)).got() + sent =~= (*sink).got());
        }
        loop
            invariant
                self.wf(),
                self.follows(&*old(self)),
                s == old(self).doc().bytes,
                self.stash_len == 0,
                c0 == old(self).cursor(),
                self.state == c0.state,
                self.state is InStr,
                self.stack@ == c0.stack,
                (*sink).wf(),
                (*sink).made() == (*old(sink)).made(),
                (*sink).got() == (*old(sink)).got() + sent,
                (*sink).space() == less((*old(sink)).space(), sent.len()),
                want == pour(s, c0.at, c0.stash, (*old(sink)).space()),
                want == prepend(sent, chunk(s, self.src.at(), (*sink).space())),
            decreases s.len() - self.src.at(),
        {
            let room = sink.room();
            let ghost at = self.src.at();
            let ghost space = (*sink).space();
            let ghost was = self.cursor();
            proof {
                self.src.bounds();
            }
            let buf = match self.src.fill() {
                Ok(b) => b,
                Err(e) => {
                    proof {
                        self.src.bounds();
                    }
                    return Err(Error::Io(e));
                },
            };
            if buf.len() == 0 {
                return self.fail(ErrorKind::UnexpectedEof);
            }
            let lim = if buf.len() < room {
                buf.len()
            } else {
                room
            };
            let mut i: usize = 0;
            while i < lim && buf[i] != QUOTE && buf[i] != BACKSLASH && 0x20 <= buf[i] && buf[i]
                < 0x80
                invariant
                    i <= lim <= buf@.len(),
                    0 <= at,
                    at + buf@.len() <= s.len(),
                    buf@ == s.subrange(at, at + buf@.len()),
                    forall|k: int| at <= k < at + i ==> is_plain(#[trigger] s[k]),
                decreases lim - i,
            {
                assert(buf@[i as int] == s[at + i]);
                i = i + 1;
            }
            if i > 0 {
                sink.put(slice_subrange(buf, 0, i));
                proof {
                    assert(buf@.subrange(0, i as int) =~= s.subrange(at, at + i));
                    lemma_plain_run(s, at, i as int, space);
                    lemma_prepend_prepend(
                        sent,
                        s.subrange(at, at + i),
                        chunk(s, at + i, (*sink).space()),
                    );
                    sent = sent + s.subrange(at, at + i);
                    assert((*sink).got() =~= (*old(sink)).got() + sent);
                }
                self.src.consume(i);
                proof {
                    self.src.bounds();
                }
                continue ;
            }
            let b = buf[0];
            assert(b == s[at]);
            if b == QUOTE {
                self.src.consume(1);
                proof {
                    self.src.bounds();
                    assert(sent + Seq::<u8>::empty() =~= sent);
                    assert(self.cursor().stash =~= Seq::<u8>::empty());
                }
                return Ok(true);
            }
            if room == 0 {
                proof {
                    assert(sent + Seq::<u8>::empty() =~= sent);
                    assert(self.cursor().stash =~= Seq::<u8>::empty());
                }
                return Ok(false);
            }
            let mut tmp = [0u8;4];
            proof {
                lemma_unit(s, at);
                lemma_escape(s, at + 1);
            }
            let len = match b {
                BACKSLASH => {
                    self.src.consume(1);
                    proof {
                        self.src.bounds();
                    }
                    let c = self.decode_escape()?;
                    encode_char(c, &mut tmp)
                },
                0..=0x1f => return self.fail(ErrorKind::ControlCharacter),
                _ => self.decode_utf8(&mut tmp)?,
            };
            let ghost piece = tmp@.subrange(0, len as int);
            assert(unit(s, at) == Ok::<(int, Seq<u8>), Fault>((self.src.at(), piece)));
            if len <= sink.room() {
                sink.put(slice_subrange(tmp.as_slice(), 0, len));
                proof {
                    lemma_prepend_prepend(
                        sent,
                        piece,
                        chunk(s, self.src.at(), (*sink).space()),
                    );
                    sent = sent + piece;
                    assert((*sink).got() =~= (*old(sink)).got() + sent);
                }
            } else {
                self.stash = tmp;
                self.stash_len = len as u8;
                proof {
                    lemma_unit_utf8(s, at);
                    self.src.bounds();
                    assert(sent + Seq::<u8>::empty() =~= sent);
                }
                return Ok(false);
            }
        }
    }

    /// Decodes an escape sequence (after the backslash).
    fn decode_escape(&mut self) -> (r: Res<u32, S>)
        requires
            old(self).wf(),
        ensures
            final(self).did(
                &*old(self),
                r,
                match escape(old(self).doc().bytes, old(self).cursor().at) {
                    Err(f) => Outcome::Broken(f),
                    Ok((k, c)) => Outcome::Done(c as u32, Cursor { at: k, ..old(self).cursor() }),
                },
            ),
    {
        let ghost s = self.doc().bytes;
        let ghost at = self.src.at();
        let ghost c0 = self.cursor();
        proof {
            lemma_hex4(s, at + 1);
            lemma_hex4(s, at + 7);
        }
        let e = match self.peek_byte()? {
            Some(e) => e,
            None => return self.fail(ErrorKind::UnexpectedEof),
        };
        let c: u32 = match e {
            QUOTE | BACKSLASH | SLASH => e as u32,
            0x62 => 0x08,
            0x66 => 0x0c,
            0x6e => 0x0a,
            0x72 => 0x0d,
            0x74 => 0x09,
            0x75 => {
                self.src.consume(1);
                proof {
                    self.src.bounds();
                }
                let hi = self.hex4()?;
                if 0xd800 <= hi && hi <= 0xdbff {
                    if self.peek_byte()? != Some(BACKSLASH) {
                        return self.fail(ErrorKind::InvalidUnicode);
                    }
                    self.src.consume(1);
                    proof {
                        self.src.bounds();
                    }
                    if self.peek_byte()? != Some(0x75) {
                        return self.fail(ErrorKind::InvalidUnicode);
                    }
                    self.src.consume(1);
                    proof {
                        self.src.bounds();
                    }
                    let lo = self.hex4()?;
                    if lo < 0xdc00 || 0xdfff < lo {
                        return self.fail(ErrorKind::InvalidUnicode);
                    }
                    return Ok(0x10000 + (hi - 0xd800) * 0x400 + (lo - 0xdc00));
                }
                if 0xdc00 <= hi && hi <= 0xdfff {
                    return self.fail(ErrorKind::InvalidUnicode);
                }
                return Ok(hi);
            },
            _ => return self.fail(ErrorKind::InvalidEscape),
        };
        self.src.consume(1);
        proof {
            self.src.bounds();
        }
        Ok(c)
    }

    /// Reads four hexadecimal digits.
    fn hex4(&mut self) -> (r: Res<u32, S>)
        requires
            old(self).wf(),
        ensures
            final(self).did(
                &*old(self),
                r,
                match hex(old(self).doc().bytes, old(self).cursor().at, 4, 0) {
                    Err(f) => Outcome::Broken(f),
                    Ok(v) => Outcome::Done(
                        v as u32,
                        Cursor { at: old(self).cursor().at + 4, ..old(self).cursor() },
                    ),
                },
            ),
    {
        let ghost s = self.doc().bytes;
        let mut v: u32 = 0;
        let mut k: u32 = 0;
        let ghost mut top: int = 1;
        while k < 4
            invariant
                k <= 4,
                self.wf(),
                self.follows(&*old(self)),
                s == old(self).doc().bytes,
                self.cursor() == (Cursor {
                    at: old(self).cursor().at + k,
                    ..old(self).cursor()
                }),
                v < top,
                k == 0 ==> top == 1,
                k == 1 ==> top == 16,
                k == 2 ==> top == 256,
                k == 3 ==> top == 4096,
                k == 4 ==> top == 65536,
                hex(s, old(self).cursor().at, 4, 0) == hex(
                    s,
                    self.src.at(),
                    (4 - k) as nat,
                    v as int,
                ),
            decreases 4 - k,
        {
            let d = match self.peek_byte()? {
                Some(b) => match b {
                    0x30..=0x39 => b - 0x30,
                    0x61..=0x66 => b - 0x61 + 10,
                    0x41..=0x46 => b - 0x41 + 10,
                    _ => return self.fail(ErrorKind::InvalidEscape),
                },
                None => return self.fail(ErrorKind::UnexpectedEof),
            };
            self.src.consume(1);
            v = v * 16 + d as u32;
            k = k + 1;
            proof {
                top = top * 16;
                self.src.bounds();
            }
        }
        Ok(v)
    }

    /// Validates and copies one multi-byte UTF-8 character.
    fn decode_utf8(&mut self, out: &mut [u8; 4]) -> (r: Res<usize, S>)
        requires
            old(self).wf(),
            old(self).cursor().at < old(self).doc().bytes.len(),
            old(self).doc().bytes[old(self).cursor().at] >= 0x80,
        ensures
            final(self).did(
                &*old(self),
                r,
                match unit(old(self).doc().bytes, old(self).cursor().at) {
                    Err(f) => Outcome::Broken(f),
                    Ok((k, b)) => Outcome::Done(
                        b.len() as usize,
                        Cursor { at: k, ..old(self).cursor() },
                    ),
                },
            ),
            r matches Ok(n) ==> n <= 4 && final(out)@.subrange(0, n as int) == unit(
                old(self).doc().bytes,
                old(self).cursor().at,
            )->Ok_0.1,
    {
        let ghost s = self.doc().bytes;
        let ghost at = self.src.at();
        proof {
            lemma_utf8_end(s, at, 1);
        }
        let b0 = match self.peek_byte()? {
            Some(b) => b,
            None => 0,
        };
        let (len, lo, hi): (usize, u8, u8) = match b0 {
            0xc2..=0xdf => (2, 0x80, 0xbf),
            0xe0 => (3, 0xa0, 0xbf),
            0xe1..=0xec | 0xee..=0xef => (3, 0x80, 0xbf),
            0xed => (3, 0x80, 0x9f),
            0xf0 => (4, 0x90, 0xbf),
            0xf1..=0xf3 => (4, 0x80, 0xbf),
            0xf4 => (4, 0x80, 0x8f),
            _ => return self.fail(ErrorKind::InvalidUnicode),
        };
        self.src.consume(1);
        proof {
            self.src.bounds();
        }
        out[0] = b0;
        let mut k: usize = 1;
        while k < len
            invariant
                1 <= k <= len <= 4,
                self.wf(),
                self.follows(&*old(self)),
                s == old(self).doc().bytes,
                at == old(self).cursor().at,
                0 <= at,
                at + k <= s.len(),
                self.cursor() == (Cursor { at: at + k, ..old(self).cursor() }),
                b0 == s[at],
                len == utf8_len(b0),
                forall|b: u8| #[trigger] utf8_tail(b0, 1, b) <==> lo <= b <= hi,
                utf8_end(s, at, 1) == utf8_end(s, at, k as int),
                unit(s, at) == (match utf8_end(s, at, 1) {
                    Err(f) => Err(f),
                    Ok(e) => Ok((e, s.subrange(at, e))),
                }),
                forall|j: int| 0 <= j < k ==> out@[j] == s[at + j],
            decreases len - k,
        {
            let (l, h): (u8, u8) = if k == 1 {
                (lo, hi)
            } else {
                (0x80, 0xbf)
            };
            match self.peek_byte()? {
                Some(b) => {
                    assert(utf8_tail(b0, k as int, b) <==> l <= b <= h) by {
                        assert(utf8_tail(b0, 1, b) <==> lo <= b <= hi);
                    }
                    if l <= b && b <= h {
                        self.src.consume(1);
                        proof {
                            self.src.bounds();
                        }
                        out[k] = b;
                    } else {
                        return self.fail(ErrorKind::InvalidUnicode);
                    }
                },
                None => return self.fail(ErrorKind::UnexpectedEof),
            }
            k = k + 1;
        }
        assert(out@.subrange(0, len as int) =~= s.subrange(at, at + len));
        Ok(len)
    }
}

/// Multi-byte characters in valid UTF-8 follow the table of well-formed UTF-8.
proof fn lemma_utf8_table(a: u8, b: u8, c: u8, d: u8)
    by (bit_vector)
    ensures
        0xc0 <= a <= 0xdf && 0x80 <= b <= 0xbf && 0x80 <= ((((a & 0x1f) as u32) << 6) | ((b
            & 0x3f) as u32)) ==> 0xc2 <= a,
        0xe0 <= a <= 0xef && 0x80 <= b <= 0xbf && 0x80 <= c <= 0xbf && ({
            let v = (((a & 0x0f) as u32) << 12) | (((b & 0x3f) as u32) << 6) | ((c & 0x3f) as u32);
            0x800 <= v && !(0xd800 <= v <= 0xdfff)
        }) ==> (a == 0xe0 ==> 0xa0 <= b) && (a == 0xed ==> b <= 0x9f),
        0xf0 <= a <= 0xf7 && 0x80 <= b <= 0xbf && 0x80 <= c <= 0xbf && 0x80 <= d <= 0xbf && ({
            let v = (((a & 0x07) as u32) << 18) | (((b & 0x3f) as u32) << 12) | (((c & 0x3f) as u32)
                << 6) | ((d & 0x3f) as u32);
            0x10000 <= v <= 0x10ffff
        }) ==> a <= 0xf4 && (a == 0xf0 ==> 0x90 <= b) && (a == 0xf4 ==> b <= 0x8f),
{
}

/// A byte that stands for itself, or for a part of a character.
pub(crate) open(crate) spec fn is_raw(b: u8) -> bool {
    b >= 0x20 && b != QUOTE && b != BACKSLASH
}

/// A character in valid UTF-8 stands for itself.
pub(crate) proof fn lemma_raw_unit(s: Seq<u8>, i: int, b: Seq<u8>)
    requires
        0 <= i,
        i + b.len() <= s.len(),
        b == s.subrange(i, i + b.len()),
        b.len() > 0,
        is_raw(b[0]),
        valid_first_scalar(b),
    ensures
        unit(s, i) == Ok::<(int, Seq<u8>), Fault>(
            (i + length_of_first_scalar(b), s.subrange(i, i + length_of_first_scalar(b))),
        ),
{
    let n = length_of_first_scalar(b);
    assert(forall|j: int| 0 <= j < b.len() ==> b[j] == s[i + j]);
    if b[0] < 0x80 {
        assert(s.subrange(i, i + 1) =~= seq![s[i]]);
    } else {
        lemma_utf8_table(b[0], b[1], b[2], b[3]);
        reveal_with_fuel(utf8_end, 4);
        assert(utf8_len(b[0]) == n);
        assert(b[1] == s[i + 1]);
        if n >= 3 {
            assert(b[2] == s[i + 2]);
        }
        if n >= 4 {
            assert(b[3] == s[i + 3]);
        }
    }
}

/// Valid UTF-8 up to the next quote, without escapes and control characters, stands for
/// itself.
pub(crate) proof fn lemma_raw_text(s: Seq<u8>, i: int, n: int)
    requires
        0 <= i,
        0 <= n,
        i + n < s.len(),
        s[i + n] == QUOTE,
        forall|k: int| i <= k < i + n ==> is_raw(#[trigger] s[k]),
        valid_utf8(s.subrange(i, i + n)),
    ensures
        text(s, i) == Ok::<(int, Seq<u8>), Fault>((i + n + 1, s.subrange(i, i + n))),
    decreases n,
{
    let b = s.subrange(i, i + n);
    if n == 0 {
        assert(b =~= Seq::<u8>::empty());
    } else {
        assert(b[0] == s[i]);
        lemma_raw_unit(s, i, b);
        let m = length_of_first_scalar(b);
        assert(pop_first_scalar(b) =~= s.subrange(i + m, i + n));
        lemma_raw_text(s, i + m, n - m);
        assert(s.subrange(i, i + m) + s.subrange(i + m, i + n) =~= b);
    }
}

/// A string without escape sequences stands for its own bytes.
pub(crate) proof fn lemma_text_raw(s: Seq<u8>, i: int)
    requires
        0 <= i <= s.len(),
    ensures
        text(s, i) matches Ok((k, t)) ==> {
            &&& i < k <= s.len()
            &&& s[k - 1] == QUOTE
            &&& no_escape(s, i, k) ==> {
                &&& t == s.subrange(i, k - 1)
                &&& valid_utf8(t)
                &&& forall|j: int| i <= j < k - 1 ==> is_raw(#[trigger] s[j])
            }
        },
    decreases s.len() - i,
{
    lemma_text(s, i);
    lemma_chunk(s, i, None);
    if text(s, i) is Ok && s[i] != QUOTE {
        lemma_unit(s, i);
        lemma_utf8_end(s, i, 1);
        let (k, b) = unit(s, i)->Ok_0;
        lemma_text_raw(s, k);
        let (e, t) = text(s, k)->Ok_0;
        if no_escape(s, i, e) {
            assert(s[i] != BACKSLASH);
            assert(b =~= s.subrange(i, k));
            assert(b + t =~= s.subrange(i, e - 1));
            if !is_plain(s[i]) {
                reveal_with_fuel(utf8_end, 4);
            }
            assert forall|j: int| i <= j < e - 1 implies is_raw(#[trigger] s[j]) by {
                if j < k && !is_plain(s[i]) {
                    assert(j == i || utf8_tail(s[i], j - i, s[j]));
                }
            }
        }
    }
}

/// What a pattern stands for: itself, or what a JSON Pointer token stands for.
pub(crate) open(crate) spec fn meaning(pat: Seq<u8>, escaped: bool) -> Option<Seq<u8>> {
    if escaped {
        unescape(pat)
    } else {
        Some(pat)
    }
}

/// Compares decoded bytes with a pattern, optionally JSON-Pointer-escaped (`~0`, `~1`).
pub(crate) struct KeyMatcher<'p> {
    pub(crate) pat: &'p [u8],
    pub(crate) pos: usize,
    pub(crate) escaped: bool,
    pub(crate) ok: bool,
    pub(crate) log: Ghost<Seq<u8>>,
}

impl<'p> KeyMatcher<'p> {
    pub(crate) fn new(pat: &'p [u8], escaped: bool) -> (r: Self)
        ensures
            r.wf(),
            r.got() == Seq::<u8>::empty(),
            r.space() is None,
            r.made() == (pat@, escaped, 0int),
    {
        let r = Self { pat, pos: 0, escaped, ok: true, log: Ghost(Seq::empty()) };
        proof {
            assert(pat@.skip(0) =~= pat@);
            let m = meaning(pat@, escaped);
            if m is Some {
                assert(Seq::<u8>::empty() + m->Some_0 =~= m->Some_0);
            }
        }
        r
    }

    /// The next byte that the pattern stands for.
    fn next_pat(&mut self) -> (r: Option<u8>)
        requires
            old(self).pos <= old(self).pat@.len(),
        ensures
            final(self).pos <= final(self).pat@.len(),
            final(self).pat == old(self).pat,
            final(self).escaped == old(self).escaped,
            final(self).ok == old(self).ok,
            final(self).log == old(self).log,
            ({
                let before = unescape(old(self).pat@.skip(old(self).pos as int));
                match r {
                    Some(b) => before == in_front(
                        seq![b],
                        unescape(old(self).pat@.skip(final(self).pos as int)),
                    ),
                    None => before is None || before == Some(Seq::<u8>::empty()),
                }
            }),
    {
        let ghost p = self.pat@.skip(self.pos as int);
        if self.pos >= self.pat.len() {
            return None;
        }
        let b = self.pat[self.pos];
        self.pos = self.pos + 1;
        assert(p.skip(1) =~= self.pat@.skip(self.pos as int));
        if b != TILDE {
            return Some(b);
        }
        if self.pos >= self.pat.len() {
            return None;
        }
        let e = self.pat[self.pos];
        self.pos = self.pos + 1;
        assert(p.skip(2) =~= self.pat@.skip(self.pos as int));
        match e {
            0x30 => Some(TILDE),
            0x31 => Some(SLASH),
            _ => None,
        }
    }

    /// Whether the bytes that were put are what the pattern stands for.
    pub(crate) fn matched(&self) -> (r: bool)
        requires
            self.wf(),
        ensures
            r == (meaning(self.made().0, self.made().1) == Some(self.got())),
    {
        proof {
            let all = meaning(self.pat@, self.escaped);
            let left = self.pat@.skip(self.pos as int);
            if self.ok && all is Some && meaning(left, self.escaped) is Some {
                let t = meaning(left, self.escaped)->Some_0;
                assert(all == Some(self.log@ + t));
                assert(self.log@ + t == self.log@ <==> t.len() == 0) by {
                    if t.len() == 0 {
                        assert(self.log@ + t =~= self.log@);
                    }
                }
            } else if !self.ok {
                assert(self.log@ + Seq::<u8>::empty() =~= self.log@);
            }
            if self.pos == self.pat@.len() {
                assert(left =~= Seq::<u8>::empty());
            }
        }
        self.ok && self.pos == self.pat.len()
    }
}

impl Sink for KeyMatcher<'_> {
    open(crate) spec fn wf(&self) -> bool {
        let all = meaning(self.pat@, self.escaped);
        &&& self.pos <= self.pat@.len()
        &&& self.ok ==> all == in_front(
            self.log@,
            meaning(self.pat@.skip(self.pos as int), self.escaped),
        )
        &&& !self.ok ==> forall|t: Seq<u8>| all != Some(#[trigger] (self.log@ + t))
    }

    open(crate) spec fn got(&self) -> Seq<u8> {
        self.log@
    }

    open(crate) spec fn space(&self) -> Option<nat> {
        None
    }

    open(crate) spec fn made(&self) -> (Seq<u8>, bool, int) {
        (self.pat@, self.escaped, 0)
    }

    fn room(&self) -> (r: usize) {
        usize::MAX
    }

    fn put(&mut self, bytes: &[u8]) {
        let ghost before = self.log@;
        let ghost all = meaning(self.pat@, self.escaped);
        if !self.ok {
            proof {
                self.log@ = before + bytes@;
                assert forall|t: Seq<u8>| all != Some(#[trigger] (self.log@ + t)) by {
                    assert(before + bytes@ + t =~= before + (bytes@ + t));
                }
            }
            return ;
        }
        let mut k: usize = 0;
        assert(before =~= before + bytes@.subrange(0, 0));
        while k < bytes.len()
            invariant
                k <= bytes@.len(),
                self.ok,
                self.pos <= self.pat@.len(),
                self.pat == old(self).pat,
                self.escaped == old(self).escaped,
                self.log == old(self).log,
                before == self.log@,
                all == meaning(self.pat@, self.escaped),
                all == in_front(
                    before + bytes@.subrange(0, k as int),
                    meaning(self.pat@.skip(self.pos as int), self.escaped),
                ),
            decreases bytes@.len() - k,
        {
            let ghost left = self.pat@.skip(self.pos as int);
            let b = bytes[k];
            let want = if self.escaped {
                self.next_pat()
            } else if self.pos < self.pat.len() {
                self.pos = self.pos + 1;
                Some(self.pat[self.pos - 1])
            } else {
                None
            };
            proof {
                let done = before + bytes@.subrange(0, k as int);
                let next = self.pat@.skip(self.pos as int);
                if !self.escaped && want is Some {
                    assert(left =~= seq![want->Some_0] + next);
                }
                if want is None && !self.escaped {
                    assert(left =~= Seq::<u8>::empty());
                }
                if want == Some(b) {
                    assert(bytes@.subrange(0, k + 1) =~= bytes@.subrange(0, k as int).push(b));
                    if meaning(next, self.escaped) is Some {
                        let t = meaning(next, self.escaped)->Some_0;
                        assert(done + (seq![b] + t) =~= before + bytes@.subrange(0, k + 1) + t);
                    }
                } else {
                    let log = before + bytes@;
                    assert forall|t: Seq<u8>| all != Some(#[trigger] (log + t)) by {
                        if all == Some(log + t) {
                            let m = all->Some_0;
                            assert(m[done.len() as int] == b);
                            assert(m.len() > done.len());
                        }
                    }
                }
            }
            if want != Some(b) {
                self.ok = false;
                proof {
                    self.log@ = before + bytes@;
                }
                return ;
            }
            k = k + 1;
        }
        proof {
            self.log@ = before + bytes@;
            assert(bytes@.subrange(0, bytes@.len() as int) =~= bytes@);
        }
    }
}

} // verus!
