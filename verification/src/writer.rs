//! JSON encoding: [`JsonWriter`], the [`ToJson`] trait and [`encoded_len`].

use core::convert::Infallible;
use vstd::prelude::*;
use vstd::slice::slice_subrange;
use vstd::string::StringSliceAdditionalSpecFns;
use vstd::utf8::{char_is_scalar, encode_scalar, valid_utf8};

use crate::grammar::{
    word_false, word_null, word_true, BACKSLASH, BRACE_CLOSE, BRACE_OPEN, BRACKET_CLOSE,
    BRACKET_OPEN, COLON, COMMA, MINUS, NEWLINE, QUOTE, RETURN, SPACE, TAB,
};
use crate::io::{counted, wrote, BufferFull, Counter, SliceWriter, Write};
use crate::number::{
    decimal, fmt_u128, fmt_u32, fmt_u64, fmt_usize, lemma_decimal_len, lemma_widths,
};
use crate::string::{encode_char, from_utf8};

verus! {

/// What was written last.
#[derive(Debug, Clone, Copy, PartialEq, Eq, Structural)]
pub enum Pos {
    /// Nothing written yet in the current container (or at top level).
    Start,
    /// After a key: the value follows directly.
    AfterKey,
    /// After a value: a separator is needed.
    AfterValue,
}

/// Where a writer stands: what was written last, how deep, and how it indents.
pub struct Place {
    pub pos: Pos,
    pub depth: u32,
    pub indent: u8,
}

/// Where a writer of compact JSON starts.
pub open spec fn compact() -> Place {
    Place { pos: Pos::Start, depth: 0, indent: 0 }
}

/// `n` spaces.
pub open spec fn spaces(n: nat) -> Seq<u8> {
    Seq::new(n, |i: int| SPACE)
}

/// A line break with the indentation of the current level, or nothing in compact JSON.
pub open spec fn newline(p: Place) -> Seq<u8> {
    if p.indent == 0 {
        Seq::empty()
    } else {
        seq![NEWLINE] + spaces((p.depth * p.indent) as nat)
    }
}

/// What must precede a new key or value.
pub open spec fn separator(p: Place) -> Seq<u8> {
    match p.pos {
        Pos::AfterKey => Seq::empty(),
        Pos::AfterValue => if p.depth == 0 {
            seq![NEWLINE]
        } else {
            seq![COMMA] + newline(p)
        },
        Pos::Start => if p.depth > 0 {
            newline(p)
        } else {
            Seq::empty()
        },
    }
}

/// The place after a value.
pub open spec fn after_value(p: Place) -> Place {
    Place { pos: Pos::AfterValue, ..p }
}

/// An opening bracket, with what precedes it.
pub open spec fn open_text(p: Place, b: u8) -> Seq<u8> {
    separator(p) + seq![b]
}

/// The place inside a container that was opened. The depth is not counted further than the
/// counter goes.
pub open spec fn inside(p: Place) -> Place {
    Place {
        pos: Pos::Start,
        depth: if p.depth < u32::MAX {
            (p.depth + 1) as u32
        } else {
            u32::MAX
        },
        ..p
    }
}

/// The place after a container that was closed.
pub open spec fn outside(p: Place) -> Place {
    Place {
        pos: Pos::AfterValue,
        depth: if p.depth > 0 {
            (p.depth - 1) as u32
        } else {
            0
        },
        ..p
    }
}

/// A closing bracket, with what precedes it: a line break unless the container is empty.
pub open spec fn close_text(p: Place, b: u8) -> Seq<u8> {
    (if p.pos != Pos::Start {
        newline(outside(p))
    } else {
        Seq::empty()
    }) + seq![b]
}

/// A hexadecimal digit.
pub open spec fn hex_char(n: int) -> u8 {
    if n < 10 {
        (0x30 + n) as u8
    } else {
        (0x61 + n - 10) as u8
    }
}

/// The escape sequence for a byte of a string, or the byte itself where it needs none.
pub open spec fn escape_byte(b: u8) -> Seq<u8> {
    if b == QUOTE || b == BACKSLASH {
        seq![BACKSLASH, b]
    } else if b == NEWLINE {
        seq![BACKSLASH, 0x6e]
    } else if b == RETURN {
        seq![BACKSLASH, 0x72]
    } else if b == TAB {
        seq![BACKSLASH, 0x74]
    } else if b == 0x08 {
        seq![BACKSLASH, 0x62]
    } else if b == 0x0c {
        seq![BACKSLASH, 0x66]
    } else if b < 0x20 {
        seq![BACKSLASH, 0x75, 0x30, 0x30, hex_char(b as int / 16), hex_char(b as int % 16)]
    } else {
        seq![b]
    }
}

/// The bytes of a string, escaped.
pub open spec fn escaped(s: Seq<u8>) -> Seq<u8>
    decreases s.len(),
{
    if s.len() == 0 {
        Seq::empty()
    } else {
        escaped(s.drop_last()) + escape_byte(s.last())
    }
}

/// A string value, with what precedes it.
pub open spec fn string_text(p: Place, s: Seq<u8>) -> Seq<u8> {
    separator(p) + seq![QUOTE] + escaped(s) + seq![QUOTE]
}

/// What ends a key.
pub open spec fn key_end(p: Place) -> Seq<u8> {
    if p.indent > 0 {
        seq![QUOTE, COLON, SPACE]
    } else {
        seq![QUOTE, COLON]
    }
}

/// A key, with what precedes it and its colon.
pub open spec fn key_text(p: Place, s: Seq<u8>) -> Seq<u8> {
    separator(p) + seq![QUOTE] + escaped(s) + key_end(p)
}

/// The place after a key.
pub open spec fn after_key(p: Place) -> Place {
    Place { pos: Pos::AfterKey, ..p }
}

/// An integer, in decimal.
pub open spec fn integer_text(v: int) -> Seq<u8> {
    if v < 0 {
        seq![MINUS] + decimal((-v) as nat)
    } else {
        decimal(v as nat)
    }
}

/// `true` or `false`.
pub open spec fn bool_text(v: bool) -> Seq<u8> {
    if v {
        word_true()
    } else {
        word_false()
    }
}

/// Streaming JSON encoder writing to any [`Write`]r, with no buffering.
///
/// Commas and colons are inserted automatically. The writer does not check that calls
/// are well nested (a key outside an object, for instance, produces invalid JSON).
#[derive(Debug)]
pub struct JsonWriter<W> {
    pub(crate) out: W,
    pub(crate) pos: Pos,
    pub(crate) depth: u32,
    pub(crate) indent: u8,
}

impl<W: Write> JsonWriter<W> {
    /// The output.
    pub open(crate) spec fn inner(&self) -> W {
        self.out
    }

    /// Where the writer stands.
    pub open(crate) spec fn place(&self) -> Place {
        Place { pos: self.pos, depth: self.depth, indent: self.indent }
    }

    /// The writer's invariant.
    pub open spec fn wf(&self) -> bool {
        self.inner().wf()
    }

    /// An operation that took the writer from `before` to this state, and succeeded if `ok`,
    /// wrote `piece` and leads to `next`.
    pub open spec fn put(&self, before: &Self, ok: bool, piece: Seq<u8>, next: Place) -> bool {
        &&& wrote(ok, &before.inner(), &self.inner(), piece)
        &&& ok ==> self.place() == next
    }
}

/// Two writes in a row are one.
pub proof fn lemma_wrote<W: Write + ?Sized>(ok: bool, a: &W, b: &W, c: &W, p: Seq<u8>, q: Seq<u8>)
    requires
        wrote(true, a, b, p),
        wrote(ok, b, c, q),
    ensures
        wrote(ok, a, c, p + q),
{
    assert(a.written() + p + q =~= a.written() + (p + q));
}

/// A write that fails makes a longer one fail.
pub proof fn lemma_failed<W: Write + ?Sized>(a: &W, c: &W, p: Seq<u8>, total: Seq<u8>)
    requires
        wrote(false, a, c, p),
        p.len() <= total.len(),
    ensures
        wrote(false, a, c, total),
{
}

impl<W: Write> JsonWriter<W> {
    /// Creates a writer producing compact JSON.
    pub fn new(out: W) -> (r: Self)
        requires
            out.wf(),
        ensures
            r.wf(),
            r.inner() == out,
            r.place() == compact(),
    {
        Self { out, pos: Pos::Start, depth: 0, indent: 0 }
    }

    /// Creates a writer producing indented JSON (`indent` spaces per level).
    pub fn pretty(out: W, indent: u8) -> (r: Self)
        requires
            out.wf(),
        ensures
            r.wf(),
            r.inner() == out,
            r.place() == (Place { indent, ..compact() }),
    {
        Self { out, pos: Pos::Start, depth: 0, indent }
    }

    /// The output.
    pub fn get_ref(&self) -> (r: &W)
        ensures
            *r == self.inner(),
    {
        &self.out
    }

    /// The output. Writing to it directly may produce invalid JSON.
    pub fn get_mut(&mut self) -> (r: &mut W)
        ensures
            *r == old(self).inner(),
            final(self).inner() == *final(r),
            final(self).place() == old(self).place(),
    {
        &mut self.out
    }

    /// Returns the output.
    pub fn into_inner(self) -> (r: W)
        ensures
            r == self.inner(),
    {
        self.out
    }

    /// Current nesting depth.
    pub fn depth(&self) -> (r: usize)
        ensures
            r == self.place().depth,
    {
        self.depth as usize
    }

    fn newline(&mut self) -> (r: Result<(), W::Error>)
        requires
            old(self).wf(),
        ensures
            final(final(self).inner().target())@ == final(old(self).inner().target())@,
            final(self).put(&*old(self), r is Ok, newline(old(self).place()), old(self).place()),
            final(self).place() == old(self).place(),
    {
        if self.indent == 0 {
            assert(self.out.written() + Seq::<u8>::empty() =~= self.out.written());
            return Ok(());
        }
        let ghost p = self.place();
        let ghost a = self.out;
        match self.out.write_all(&[NEWLINE]) {
            Ok(_) => {},
            Err(e) => {
                proof {
                    lemma_failed(&a, &self.out, seq![NEWLINE], newline(p));
                }
                return Err(e);
            },
        }
        assert([NEWLINE]@ =~= seq![NEWLINE]);
        let blank = [SPACE;32];
        let (x, y) = (self.depth as u64, self.indent as u64);
        assert(x * y <= 0xffff_ffff * 0xff) by (nonlinear_arith)
            requires
                x <= 0xffff_ffff,
                y <= 0xff,
        ;
        let total: u64 = x * y;
        let mut n: u64 = total;
        assert(seq![NEWLINE] + spaces(0) =~= seq![NEWLINE]);
        while n > 0
            invariant
                final(self.inner().target())@ == final(old(self).inner().target())@,
                n <= total,
                total == p.depth * p.indent,
                p == old(self).place(),
                p.indent > 0,
                self.place() == p,
                a == old(self).out,
                blank@ == spaces(32),
                wrote(true, &a, &self.out, seq![NEWLINE] + spaces((total - n) as nat)),
            decreases n,
        {
            let k: usize = if n < 32 {
                n as usize
            } else {
                32
            };
            let ghost b = self.out;
            let ghost done = seq![NEWLINE] + spaces((total - n) as nat);
            let piece = slice_subrange(blank.as_slice(), 0, k);
            assert(piece@ =~= spaces(k as nat));
            match self.out.write_all(piece) {
                Ok(_) => {},
                Err(e) => {
                    proof {
                        lemma_wrote(false, &a, &b, &self.out, done, piece@);
                        lemma_failed(&a, &self.out, done + piece@, newline(p));
                    }
                    return Err(e);
                },
            }
            proof {
                lemma_wrote(true, &a, &b, &self.out, done, piece@);
                assert(done + piece@ =~= seq![NEWLINE] + spaces((total - n + k) as nat));
            }
            n = n - k as u64;
        }
        Ok(())
    }

    /// Writes what must precede a new key or value.
    fn separator(&mut self) -> (r: Result<(), W::Error>)
        requires
            old(self).wf(),
        ensures
            final(final(self).inner().target())@ == final(old(self).inner().target())@,
            final(self).put(&*old(self), r is Ok, separator(old(self).place()), old(self).place()),
            final(self).place() == old(self).place(),
    {
        let ghost a = self.out;
        let ghost p = self.place();
        assert(self.out.written() + Seq::<u8>::empty() =~= self.out.written());
        match self.pos {
            Pos::AfterKey => Ok(()),
            Pos::AfterValue => {
                if self.depth == 0 {
                    assert([NEWLINE]@ =~= seq![NEWLINE]);
                    return self.out.write_all(&[NEWLINE]);
                }
                assert([COMMA]@ =~= seq![COMMA]);
                match self.out.write_all(&[COMMA]) {
                    Ok(_) => {},
                    Err(e) => {
                        proof {
                            lemma_failed(&a, &self.out, seq![COMMA], separator(p));
                        }
                        return Err(e);
                    },
                }
                let ghost b = self.out;
                let r = self.newline();
                proof {
                    lemma_wrote(r is Ok, &a, &b, &self.out, seq![COMMA], newline(p));
                }
                r
            },
            Pos::Start => {
                if self.depth > 0 {
                    self.newline()
                } else {
                    Ok(())
                }
            },
        }
    }

    /// Writes what must precede a value, and then `bytes`.
    fn lead(&mut self, bytes: &[u8]) -> (r: Result<(), W::Error>)
        requires
            old(self).wf(),
        ensures
            final(final(self).inner().target())@ == final(old(self).inner().target())@,
            final(self).put(
                &*old(self),
                r is Ok,
                separator(old(self).place()) + bytes@,
                old(self).place(),
            ),
            final(self).place() == old(self).place(),
    {
        let ghost a = self.out;
        let ghost p = self.place();
        match self.separator() {
            Ok(_) => {},
            Err(e) => {
                proof {
                    lemma_failed(&a, &self.out, separator(p), separator(p) + bytes@);
                }
                return Err(e);
            },
        }
        let ghost b = self.out;
        let r = self.out.write_all(bytes);
        proof {
            lemma_wrote(r is Ok, &a, &b, &self.out, separator(p), bytes@);
        }
        r
    }

    /// Writes `{`.
    pub fn begin_object(&mut self) -> (r: Result<(), W::Error>)
        requires
            old(self).wf(),
        ensures
            final(final(self).inner().target())@ == final(old(self).inner().target())@,
            final(self).put(
                &*old(self),
                r is Ok,
                open_text(old(self).place(), BRACE_OPEN),
                inside(old(self).place()),
            ),
    {
        self.open(BRACE_OPEN)
    }

    /// Writes `[`.
    pub fn begin_array(&mut self) -> (r: Result<(), W::Error>)
        requires
            old(self).wf(),
        ensures
            final(final(self).inner().target())@ == final(old(self).inner().target())@,
            final(self).put(
                &*old(self),
                r is Ok,
                open_text(old(self).place(), BRACKET_OPEN),
                inside(old(self).place()),
            ),
    {
        self.open(BRACKET_OPEN)
    }

    /// Writes `}`.
    pub fn end_object(&mut self) -> (r: Result<(), W::Error>)
        requires
            old(self).wf(),
        ensures
            final(final(self).inner().target())@ == final(old(self).inner().target())@,
            final(self).put(
                &*old(self),
                r is Ok,
                close_text(old(self).place(), BRACE_CLOSE),
                outside(old(self).place()),
            ),
    {
        self.close(BRACE_CLOSE)
    }

    /// Writes `]`.
    pub fn end_array(&mut self) -> (r: Result<(), W::Error>)
        requires
            old(self).wf(),
        ensures
            final(final(self).inner().target())@ == final(old(self).inner().target())@,
            final(self).put(
                &*old(self),
                r is Ok,
                close_text(old(self).place(), BRACKET_CLOSE),
                outside(old(self).place()),
            ),
    {
        self.close(BRACKET_CLOSE)
    }

    fn open(&mut self, b: u8) -> (r: Result<(), W::Error>)
        requires
            old(self).wf(),
        ensures
            final(final(self).inner().target())@ == final(old(self).inner().target())@,
            final(self).put(
                &*old(self),
                r is Ok,
                open_text(old(self).place(), b),
                inside(old(self).place()),
            ),
    {
        assert([b]@ =~= seq![b]);
        self.lead(&[b])?;
        self.depth = self.depth.saturating_add(1);
        self.pos = Pos::Start;
        Ok(())
    }

    fn close(&mut self, b: u8) -> (r: Result<(), W::Error>)
        requires
            old(self).wf(),
        ensures
            final(final(self).inner().target())@ == final(old(self).inner().target())@,
            final(self).put(
                &*old(self),
                r is Ok,
                close_text(old(self).place(), b),
                outside(old(self).place()),
            ),
    {
        let ghost p = self.place();
        let ghost a = self.out;
        let ghost mut head = Seq::<u8>::empty();
        self.depth = self.depth.saturating_sub(1);
        assert(self.out.written() + head =~= self.out.written());
        if self.pos != Pos::Start {
            proof {
                head = newline(outside(p));
            }
            match self.newline() {
                Ok(_) => {},
                Err(e) => {
                    proof {
                        lemma_failed(&a, &self.out, head, close_text(p, b));
                    }
                    return Err(e);
                },
            }
        }
        let ghost m = self.out;
        assert([b]@ =~= seq![b]);
        let r = self.out.write_all(&[b]);
        proof {
            lemma_wrote(r is Ok, &a, &m, &self.out, head, seq![b]);
        }
        r?;
        self.pos = Pos::AfterValue;
        Ok(())
    }

    /// Writes an object key (and the following `:`).
    pub fn key(&mut self, key: &str) -> (r: Result<(), W::Error>)
        requires
            old(self).wf(),
        ensures
            final(final(self).inner().target())@ == final(old(self).inner().target())@,
            final(self).put(
                &*old(self),
                r is Ok,
                key_text(old(self).place(), key.spec_bytes()),
                after_key(old(self).place()),
            ),
    {
        self.key_bytes(key.as_bytes())
    }

    pub(crate) fn key_bytes(&mut self, key: &[u8]) -> (r: Result<(), W::Error>)
        requires
            old(self).wf(),
        ensures
            final(final(self).inner().target())@ == final(old(self).inner().target())@,
            final(self).put(
                &*old(self),
                r is Ok,
                key_text(old(self).place(), key@),
                after_key(old(self).place()),
            ),
    {
        self.quoted(key)?;
        let ghost m = self.out;
        let r = self.end_key();
        proof {
            let p = old(self).place();
            let head = separator(p) + seq![QUOTE] + escaped(key@);
            lemma_wrote(r is Ok, &old(self).out, &m, &self.out, head, key_end(p));
        }
        r
    }

    /// Writes an opening quote and the escaped bytes of a string.
    fn quoted(&mut self, s: &[u8]) -> (r: Result<(), W::Error>)
        requires
            old(self).wf(),
        ensures
            final(final(self).inner().target())@ == final(old(self).inner().target())@,
            final(self).place() == old(self).place(),
            r is Ok ==> wrote(
                true,
                &old(self).inner(),
                &final(self).inner(),
                separator(old(self).place()) + seq![QUOTE] + escaped(s@),
            ),
            r is Err ==> forall|total: Seq<u8>|
                total.len() >= separator(old(self).place()).len() + 1 + escaped(s@).len()
                    ==> #[trigger] wrote(false, &old(self).inner(), &final(self).inner(), total),
    {
        let ghost a = self.out;
        let ghost p = self.place();
        let ghost open = separator(p) + seq![QUOTE];
        match self.begin_string() {
            Ok(_) => {},
            Err(e) => {
                assert forall|total: Seq<u8>|
                    total.len() >= separator(p).len() + 1 + escaped(
                        s@,
                    ).len() implies #[trigger] wrote(false, &a, &self.out, total) by {
                    lemma_failed(&a, &self.out, open, total);
                }
                return Err(e);
            },
        }
        let ghost b = self.out;
        let r = self.fragment(s);
        proof {
            lemma_wrote(r is Ok, &a, &b, &self.out, open, escaped(s@));
            if r is Err {
                assert forall|total: Seq<u8>|
                    total.len() >= separator(p).len() + 1 + escaped(
                        s@,
                    ).len() implies #[trigger] wrote(false, &a, &self.out, total) by {
                    lemma_failed(&a, &self.out, open + escaped(s@), total);
                }
            }
        }
        r
    }

    /// Writes a string value.
    pub fn string(&mut self, s: &str) -> (r: Result<(), W::Error>)
        requires
            old(self).wf(),
        ensures
            final(final(self).inner().target())@ == final(old(self).inner().target())@,
            final(self).put(
                &*old(self),
                r is Ok,
                string_text(old(self).place(), s.spec_bytes()),
                after_value(old(self).place()),
            ),
    {
        self.string_bytes(s.as_bytes())
    }

    fn string_bytes(&mut self, s: &[u8]) -> (r: Result<(), W::Error>)
        requires
            old(self).wf(),
        ensures
            final(final(self).inner().target())@ == final(old(self).inner().target())@,
            final(self).put(
                &*old(self),
                r is Ok,
                string_text(old(self).place(), s@),
                after_value(old(self).place()),
            ),
    {
        self.quoted(s)?;
        let ghost m = self.out;
        let r = self.end_string();
        proof {
            let head = separator(old(self).place()) + seq![QUOTE] + escaped(s@);
            lemma_wrote(r is Ok, &old(self).out, &m, &self.out, head, seq![QUOTE]);
        }
        r
    }

    /// Starts a string written in pieces with [`string_fragment`](JsonWriter::string_fragment)
    /// and terminated by [`end_string`](JsonWriter::end_string) (for a value) or
    /// [`end_key`](JsonWriter::end_key) (for an object key).
    pub fn begin_string(&mut self) -> (r: Result<(), W::Error>)
        requires
            old(self).wf(),
        ensures
            final(final(self).inner().target())@ == final(old(self).inner().target())@,
            final(self).put(
                &*old(self),
                r is Ok,
                open_text(old(self).place(), QUOTE),
                old(self).place(),
            ),
            final(self).place() == old(self).place(),
    {
        assert([QUOTE]@ =~= seq![QUOTE]);
        self.lead(&[QUOTE])
    }

    /// Writes part of a string, escaping as needed.
    pub fn string_fragment(&mut self, s: &str) -> (r: Result<(), W::Error>)
        requires
            old(self).wf(),
        ensures
            final(final(self).inner().target())@ == final(old(self).inner().target())@,
            final(self).put(&*old(self), r is Ok, escaped(s.spec_bytes()), old(self).place()),
            final(self).place() == old(self).place(),
    {
        self.fragment(s.as_bytes())
    }

    pub(crate) fn fragment(&mut self, s: &[u8]) -> (r: Result<(), W::Error>)
        requires
            old(self).wf(),
        ensures
            final(final(self).inner().target())@ == final(old(self).inner().target())@,
            final(self).put(&*old(self), r is Ok, escaped(s@), old(self).place()),
            final(self).place() == old(self).place(),
    {
        let ghost a = self.out;
        let ghost mut done = Seq::<u8>::empty();
        let mut start: usize = 0;
        let mut i: usize = 0;
        proof {
            assert(self.out.written() + done =~= self.out.written());
            assert(s@.subrange(0, 0) =~= Seq::<u8>::empty());
        }
        while i < s.len()
            invariant
                final(self.inner().target())@ == final(old(self).inner().target())@,
                start <= i <= s@.len(),
                self.place() == old(self).place(),
                a == old(self).out,
                wrote(true, &a, &self.out, done),
                escaped(s@.subrange(0, i as int)) == done + s@.subrange(start as int, i as int),
            decreases s@.len() - i,
        {
            let b = s[i];
            proof {
                let next = s@.subrange(0, i + 1);
                assert(next.drop_last() =~= s@.subrange(0, i as int));
                lemma_escaped_prefix(s@, i + 1);
            }
            let ghost sofar = escaped(s@.subrange(0, i as int));
            let n: usize = match b {
                QUOTE | BACKSLASH | NEWLINE | RETURN | TAB | 0x08 | 0x0c => 2,
                0..=0x1f => 6,
                _ => 0,
            };
            if n > 0 {
                let ghost m = self.out;
                let run = slice_subrange(s, start, i);
                if start < i {
                    match self.out.write_all(run) {
                        Ok(_) => {},
                        Err(e) => {
                            proof {
                                lemma_wrote(false, &a, &m, &self.out, done, run@);
                                lemma_failed(&a, &self.out, done + run@, escaped(s@));
                            }
                            return Err(e);
                        },
                    }
                } else {
                    assert(m.written() + run@ =~= m.written());
                }
                let ghost m2 = self.out;
                proof {
                    lemma_wrote(true, &a, &m, &m2, done, run@);
                }
                let (hi, lo) = (b / 16, b % 16);
                let esc: [u8; 6] = match b {
                    QUOTE | BACKSLASH => [BACKSLASH, b, 0, 0, 0, 0],
                    NEWLINE => [BACKSLASH, 0x6e, 0, 0, 0, 0],
                    RETURN => [BACKSLASH, 0x72, 0, 0, 0, 0],
                    TAB => [BACKSLASH, 0x74, 0, 0, 0, 0],
                    0x08 => [BACKSLASH, 0x62, 0, 0, 0, 0],
                    0x0c => [BACKSLASH, 0x66, 0, 0, 0, 0],
                    _ => [BACKSLASH, 0x75, 0x30, 0x30, hex_digit(hi), hex_digit(lo)],
                };
                let piece = slice_subrange(esc.as_slice(), 0, n);
                assert(piece@ =~= escape_byte(b));
                match self.out.write_all(piece) {
                    Ok(_) => {},
                    Err(e) => {
                        proof {
                            lemma_wrote(false, &a, &m2, &self.out, sofar, piece@);
                            lemma_failed(&a, &self.out, sofar + piece@, escaped(s@));
                        }
                        return Err(e);
                    },
                }
                start = i + 1;
                proof {
                    lemma_wrote(true, &a, &m2, &self.out, sofar, piece@);
                    done = sofar + piece@;
                    assert(s@.subrange(start as int, i + 1) =~= Seq::<u8>::empty());
                    assert(done + Seq::<u8>::empty() =~= done);
                }
            } else {
                proof {
                    assert(escape_byte(b) == seq![b]);
                    assert(sofar + seq![b] =~= done + s@.subrange(start as int, i + 1));
                }
            }
            i = i + 1;
        }
        let ghost m = self.out;
        let run = slice_subrange(s, start, s.len());
        proof {
            assert(s@.subrange(0, i as int) =~= s@);
        }
        if start < s.len() {
            let r = self.out.write_all(run);
            proof {
                lemma_wrote(r is Ok, &a, &m, &self.out, done, run@);
            }
            return r;
        }
        assert(done + run@ =~= done);
        Ok(())
    }

    /// Ends a string started with [`begin_string`](JsonWriter::begin_string) as a value.
    pub fn end_string(&mut self) -> (r: Result<(), W::Error>)
        requires
            old(self).wf(),
        ensures
            final(final(self).inner().target())@ == final(old(self).inner().target())@,
            final(self).put(
                &*old(self),
                r is Ok,
                seq![QUOTE],
                after_value(old(self).place()),
            ),
    {
        assert([QUOTE]@ =~= seq![QUOTE]);
        self.out.write_all(&[QUOTE])?;
        self.pos = Pos::AfterValue;
        Ok(())
    }

    /// Ends a string started with [`begin_string`](JsonWriter::begin_string) as an object
    /// key, and writes the `:`.
    pub fn end_key(&mut self) -> (r: Result<(), W::Error>)
        requires
            old(self).wf(),
        ensures
            final(final(self).inner().target())@ == final(old(self).inner().target())@,
            final(self).put(
                &*old(self),
                r is Ok,
                key_end(old(self).place()),
                after_key(old(self).place()),
            ),
    {
        if self.indent > 0 {
            assert([QUOTE, COLON, SPACE]@ =~= seq![QUOTE, COLON, SPACE]);
            self.out.write_all(&[QUOTE, COLON, SPACE])?;
        } else {
            assert([QUOTE, COLON]@ =~= seq![QUOTE, COLON]);
            self.out.write_all(&[QUOTE, COLON])?;
        }
        self.pos = Pos::AfterKey;
        Ok(())
    }

    /// Writes `null`.
    pub fn null(&mut self) -> (r: Result<(), W::Error>)
        requires
            old(self).wf(),
        ensures
            final(final(self).inner().target())@ == final(old(self).inner().target())@,
            final(self).put(
                &*old(self),
                r is Ok,
                separator(old(self).place()) + word_null(),
                after_value(old(self).place()),
            ),
    {
        let word = [0x6eu8, 0x75, 0x6c, 0x6c];
        assert(word@ =~= word_null());
        self.raw_bytes(&word)
    }

    /// Writes `true` or `false`.
    pub fn bool(&mut self, v: bool) -> (r: Result<(), W::Error>)
        requires
            old(self).wf(),
        ensures
            final(final(self).inner().target())@ == final(old(self).inner().target())@,
            final(self).put(
                &*old(self),
                r is Ok,
                separator(old(self).place()) + bool_text(v),
                after_value(old(self).place()),
            ),
    {
        if v {
            let word = [0x74u8, 0x72, 0x75, 0x65];
            assert(word@ =~= word_true());
            self.raw_bytes(&word)
        } else {
            let word = [0x66u8, 0x61, 0x6c, 0x73, 0x65];
            assert(word@ =~= word_false());
            self.raw_bytes(&word)
        }
    }

    /// Writes an already encoded JSON value as is. The caller is responsible for its
    /// validity.
    pub fn raw(&mut self, json: &str) -> (r: Result<(), W::Error>)
        requires
            old(self).wf(),
        ensures
            final(final(self).inner().target())@ == final(old(self).inner().target())@,
            final(self).put(
                &*old(self),
                r is Ok,
                separator(old(self).place()) + json.spec_bytes(),
                after_value(old(self).place()),
            ),
    {
        self.raw_bytes(json.as_bytes())
    }

    fn raw_bytes(&mut self, b: &[u8]) -> (r: Result<(), W::Error>)
        requires
            old(self).wf(),
        ensures
            final(final(self).inner().target())@ == final(old(self).inner().target())@,
            final(self).put(
                &*old(self),
                r is Ok,
                separator(old(self).place()) + b@,
                after_value(old(self).place()),
            ),
    {
        self.lead(b)?;
        self.end_raw();
        Ok(())
    }

    pub(crate) fn begin_raw(&mut self) -> (r: Result<(), W::Error>)
        requires
            old(self).wf(),
        ensures
            final(final(self).inner().target())@ == final(old(self).inner().target())@,
            final(self).put(&*old(self), r is Ok, separator(old(self).place()), old(self).place()),
            final(self).place() == old(self).place(),
    {
        self.separator()
    }

    pub(crate) fn raw_fragment(&mut self, b: &[u8]) -> (r: Result<(), W::Error>)
        requires
            old(self).wf(),
        ensures
            final(final(self).inner().target())@ == final(old(self).inner().target())@,
            final(self).put(&*old(self), r is Ok, b@, old(self).place()),
            final(self).place() == old(self).place(),
    {
        self.out.write_all(b)
    }

    pub(crate) fn end_raw(&mut self)
        ensures
            final(final(self).inner().target())@ == final(old(self).inner().target())@,
            final(self).inner() == old(self).inner(),
            final(self).place() == after_value(old(self).place()),
    {
        self.pos = Pos::AfterValue;
    }

    /// Writes an integer given by its sign and the digits of its absolute value.
    fn digits(&mut self, neg: bool, digits: &[u8], Ghost(v): Ghost<int>) -> (r: Result<
        (),
        W::Error,
    >)
        requires
            old(self).wf(),
            neg == (v < 0),
            digits@ == decimal((if v < 0 {
                -v
            } else {
                v
            }) as nat),
        ensures
            final(final(self).inner().target())@ == final(old(self).inner().target())@,
            final(self).put(
                &*old(self),
                r is Ok,
                separator(old(self).place()) + integer_text(v),
                after_value(old(self).place()),
            ),
    {
        let ghost p = self.place();
        let ghost a = self.out;
        if neg {
            assert([MINUS]@ =~= seq![MINUS]);
            match self.lead(&[MINUS]) {
                Ok(_) => {},
                Err(e) => {
                    proof {
                        lemma_failed(
                            &a,
                            &self.out,
                            separator(p) + seq![MINUS],
                            separator(p) + integer_text(v),
                        );
                    }
                    return Err(e);
                },
            }
            let ghost m = self.out;
            let r = self.out.write_all(digits);
            proof {
                lemma_wrote(r is Ok, &a, &m, &self.out, separator(p) + seq![MINUS], digits@);
                assert(separator(p) + seq![MINUS] + digits@ =~= separator(p) + integer_text(v));
            }
            r?;
        } else {
            self.lead(digits)?;
        }
        self.end_raw();
        Ok(())
    }
}

/// Text escaped in parts is the text escaped.
pub proof fn law_escaped_parts(a: Seq<u8>, b: Seq<u8>)
    ensures
        escaped(a + b) == escaped(a) + escaped(b),
    decreases b.len(),
{
    if b.len() == 0 {
        assert(a + b =~= a);
        assert(escaped(a) + escaped(b) =~= escaped(a));
    } else {
        law_escaped_parts(a, b.drop_last());
        assert((a + b).drop_last() =~= a + b.drop_last());
        assert(escaped(a) + escaped(b.drop_last()) + escape_byte(b.last()) =~= escaped(a) + escaped(
            b,
        ));
    }
}

/// A prefix of a string is no longer than all of it when escaped.
proof fn lemma_escaped_prefix(s: Seq<u8>, k: int)
    requires
        0 <= k <= s.len(),
    ensures
        escaped(s.subrange(0, k)).len() <= escaped(s).len(),
    decreases s.len(),
{
    if k == s.len() {
        assert(s.subrange(0, k) =~= s);
    } else {
        lemma_escaped_prefix(s.drop_last(), k);
        assert(s.drop_last().subrange(0, k) =~= s.subrange(0, k));
    }
}

pub(crate) fn hex_digit(n: u8) -> (r: u8)
    requires
        n < 16,
    ensures
        r == hex_char(n as int),
{
    if n < 10 {
        0x30 + n
    } else {
        0x61 + (n - 10)
    }
}

impl<W: Write> JsonWriter<W> {
    /// Writes an unsigned integer.
    pub fn u32(&mut self, v: u32) -> (r: Result<(), W::Error>)
        requires
            old(self).wf(),
        ensures
            final(final(self).inner().target())@ == final(old(self).inner().target())@,
            final(self).put(
                &*old(self),
                r is Ok,
                separator(old(self).place()) + integer_text(v as int),
                after_value(old(self).place()),
            ),
    {
        let mut buf = [0u8;10];
        proof {
            lemma_widths();
            lemma_decimal_len(v as nat, 10);
        }
        self.digits(false, fmt_u32(v, &mut buf), Ghost(v as int))
    }

    /// Writes a signed integer.
    pub fn i32(&mut self, v: i32) -> (r: Result<(), W::Error>)
        requires
            old(self).wf(),
        ensures
            final(final(self).inner().target())@ == final(old(self).inner().target())@,
            final(self).put(
                &*old(self),
                r is Ok,
                separator(old(self).place()) + integer_text(v as int),
                after_value(old(self).place()),
            ),
    {
        let mut buf = [0u8;10];
        let abs: u32 = if v < 0 {
            (-(v + 1)) as u32 + 1
        } else {
            v as u32
        };
        proof {
            lemma_widths();
            lemma_decimal_len(abs as nat, 10);
        }
        self.digits(v < 0, fmt_u32(abs, &mut buf), Ghost(v as int))
    }

    /// Writes an unsigned integer.
    pub fn u64(&mut self, v: u64) -> (r: Result<(), W::Error>)
        requires
            old(self).wf(),
        ensures
            final(final(self).inner().target())@ == final(old(self).inner().target())@,
            final(self).put(
                &*old(self),
                r is Ok,
                separator(old(self).place()) + integer_text(v as int),
                after_value(old(self).place()),
            ),
    {
        let mut buf = [0u8;20];
        proof {
            lemma_widths();
            lemma_decimal_len(v as nat, 20);
        }
        self.digits(false, fmt_u64(v, &mut buf), Ghost(v as int))
    }

    /// Writes a signed integer.
    pub fn i64(&mut self, v: i64) -> (r: Result<(), W::Error>)
        requires
            old(self).wf(),
        ensures
            final(final(self).inner().target())@ == final(old(self).inner().target())@,
            final(self).put(
                &*old(self),
                r is Ok,
                separator(old(self).place()) + integer_text(v as int),
                after_value(old(self).place()),
            ),
    {
        let mut buf = [0u8;20];
        let abs: u64 = if v < 0 {
            (-(v + 1)) as u64 + 1
        } else {
            v as u64
        };
        proof {
            lemma_widths();
            lemma_decimal_len(abs as nat, 20);
        }
        self.digits(v < 0, fmt_u64(abs, &mut buf), Ghost(v as int))
    }

    fn usize(&mut self, v: usize, neg: bool) -> (r: Result<(), W::Error>)
        requires
            old(self).wf(),
            neg ==> v > 0,
        ensures
            final(final(self).inner().target())@ == final(old(self).inner().target())@,
            final(self).put(
                &*old(self),
                r is Ok,
                separator(old(self).place()) + integer_text(if neg {
                    -(v as int)
                } else {
                    v as int
                }),
                after_value(old(self).place()),
            ),
    {
        let mut buf = [0u8;20];
        self.digits(
            neg,
            fmt_usize(v, &mut buf),
            Ghost(if neg {
                -(v as int)
            } else {
                v as int
            }),
        )
    }

    fn u128(&mut self, v: u128, neg: bool) -> (r: Result<(), W::Error>)
        requires
            old(self).wf(),
            neg ==> v > 0,
        ensures
            final(final(self).inner().target())@ == final(old(self).inner().target())@,
            final(self).put(
                &*old(self),
                r is Ok,
                separator(old(self).place()) + integer_text(if neg {
                    -(v as int)
                } else {
                    v as int
                }),
                after_value(old(self).place()),
            ),
    {
        let mut buf = [0u8;40];
        proof {
            lemma_widths();
            lemma_decimal_len(v as nat, 39);
        }
        self.digits(
            neg,
            fmt_u128(v, &mut buf),
            Ghost(if neg {
                -(v as int)
            } else {
                v as int
            }),
        )
    }

    /// Writes a key and a value.
    pub fn member<T: ToJson + ?Sized>(&mut self, key: &str, value: &T) -> (r: Result<(), W::Error>)
        requires
            old(self).wf(),
        ensures
            final(final(self).inner().target())@ == final(old(self).inner().target())@,
            ({
                let p = old(self).place();
                let j = value.json(after_key(p));
                final(self).put(&*old(self), r is Ok, key_text(p, key.spec_bytes()) + j.0, j.1)
            }),
    {
        let ghost p = self.place();
        let ghost a = self.out;
        let ghost j = value.json(after_key(p));
        match self.key(key) {
            Ok(_) => {},
            Err(e) => {
                proof {
                    let k = key_text(p, key.spec_bytes());
                    lemma_failed(&a, &self.out, k, k + j.0);
                }
                return Err(e);
            },
        }
        let ghost m = self.out;
        let r = value.to_json(self);
        proof {
            lemma_wrote(r is Ok, &a, &m, &self.out, key_text(p, key.spec_bytes()), j.0);
        }
        r
    }

    /// Writes a value.
    pub fn value<T: ToJson + ?Sized>(&mut self, value: &T) -> (r: Result<(), W::Error>)
        requires
            old(self).wf(),
        ensures
            final(final(self).inner().target())@ == final(old(self).inner().target())@,
            ({
                let j = value.json(old(self).place());
                final(self).put(&*old(self), r is Ok, j.0, j.1)
            }),
    {
        value.to_json(self)
    }
}

/// Types that can be encoded as JSON with a [`JsonWriter`].
pub trait ToJson {
    /// The text that is written for the value at a place, and the place after it.
    open spec fn json(&self, p: Place) -> (Seq<u8>, Place) {
        (Seq::empty(), p)
    }

    /// Writes `self` as one JSON value.
    fn to_json<W: Write>(&self, w: &mut JsonWriter<W>) -> (r: Result<(), W::Error>)
        requires
            old(w).wf(),
        ensures
            final(final(w).inner().target())@ == final(old(w).inner().target())@,
            final(w).put(
                &*old(w),
                r is Ok,
                self.json(old(w).place()).0,
                self.json(old(w).place()).1,
            ),
    ;
}

impl<T: ToJson + ?Sized> ToJson for &T {
    open spec fn json(&self, p: Place) -> (Seq<u8>, Place) {
        (**self).json(p)
    }

    fn to_json<W: Write>(&self, w: &mut JsonWriter<W>) -> (r: Result<(), W::Error>) {
        (**self).to_json(w)
    }
}

impl<T: ToJson + ?Sized> ToJson for &mut T {
    open spec fn json(&self, p: Place) -> (Seq<u8>, Place) {
        (**self).json(p)
    }

    fn to_json<W: Write>(&self, w: &mut JsonWriter<W>) -> (r: Result<(), W::Error>) {
        (**self).to_json(w)
    }
}

impl ToJson for str {
    open spec fn json(&self, p: Place) -> (Seq<u8>, Place) {
        (string_text(p, self.spec_bytes()), after_value(p))
    }

    fn to_json<W: Write>(&self, w: &mut JsonWriter<W>) -> (r: Result<(), W::Error>) {
        w.string(self)
    }
}

impl ToJson for char {
    open spec fn json(&self, p: Place) -> (Seq<u8>, Place) {
        (string_text(p, encode_scalar(*self as u32)), after_value(p))
    }

    fn to_json<W: Write>(&self, w: &mut JsonWriter<W>) -> (r: Result<(), W::Error>) {
        let mut buf = [0u8;4];
        proof {
            char_is_scalar(*self);
        }
        let n = encode_char(*self as u32, &mut buf);
        w.string_bytes(slice_subrange(buf.as_slice(), 0, n))
    }
}

impl ToJson for bool {
    open spec fn json(&self, p: Place) -> (Seq<u8>, Place) {
        (separator(p) + bool_text(*self), after_value(p))
    }

    fn to_json<W: Write>(&self, w: &mut JsonWriter<W>) -> (r: Result<(), W::Error>) {
        w.bool(*self)
    }
}

/// `()` is written as `null`.
impl ToJson for () {
    open spec fn json(&self, p: Place) -> (Seq<u8>, Place) {
        (separator(p) + word_null(), after_value(p))
    }

    fn to_json<W: Write>(&self, w: &mut JsonWriter<W>) -> (r: Result<(), W::Error>) {
        w.null()
    }
}

impl ToJson for u8 {
    open spec fn json(&self, p: Place) -> (Seq<u8>, Place) {
        (separator(p) + integer_text(*self as int), after_value(p))
    }

    fn to_json<W: Write>(&self, w: &mut JsonWriter<W>) -> (r: Result<(), W::Error>) {
        w.u32(*self as u32)
    }
}

impl ToJson for u16 {
    open spec fn json(&self, p: Place) -> (Seq<u8>, Place) {
        (separator(p) + integer_text(*self as int), after_value(p))
    }

    fn to_json<W: Write>(&self, w: &mut JsonWriter<W>) -> (r: Result<(), W::Error>) {
        w.u32(*self as u32)
    }
}

impl ToJson for u32 {
    open spec fn json(&self, p: Place) -> (Seq<u8>, Place) {
        (separator(p) + integer_text(*self as int), after_value(p))
    }

    fn to_json<W: Write>(&self, w: &mut JsonWriter<W>) -> (r: Result<(), W::Error>) {
        w.u32(*self as u32)
    }
}

impl ToJson for i8 {
    open spec fn json(&self, p: Place) -> (Seq<u8>, Place) {
        (separator(p) + integer_text(*self as int), after_value(p))
    }

    fn to_json<W: Write>(&self, w: &mut JsonWriter<W>) -> (r: Result<(), W::Error>) {
        w.i32(*self as i32)
    }
}

impl ToJson for i16 {
    open spec fn json(&self, p: Place) -> (Seq<u8>, Place) {
        (separator(p) + integer_text(*self as int), after_value(p))
    }

    fn to_json<W: Write>(&self, w: &mut JsonWriter<W>) -> (r: Result<(), W::Error>) {
        w.i32(*self as i32)
    }
}

impl ToJson for i32 {
    open spec fn json(&self, p: Place) -> (Seq<u8>, Place) {
        (separator(p) + integer_text(*self as int), after_value(p))
    }

    fn to_json<W: Write>(&self, w: &mut JsonWriter<W>) -> (r: Result<(), W::Error>) {
        w.i32(*self as i32)
    }
}

impl ToJson for u64 {
    open spec fn json(&self, p: Place) -> (Seq<u8>, Place) {
        (separator(p) + integer_text(*self as int), after_value(p))
    }

    fn to_json<W: Write>(&self, w: &mut JsonWriter<W>) -> (r: Result<(), W::Error>) {
        w.u64(*self)
    }
}

impl ToJson for i64 {
    open spec fn json(&self, p: Place) -> (Seq<u8>, Place) {
        (separator(p) + integer_text(*self as int), after_value(p))
    }

    fn to_json<W: Write>(&self, w: &mut JsonWriter<W>) -> (r: Result<(), W::Error>) {
        w.i64(*self)
    }
}

impl ToJson for usize {
    open spec fn json(&self, p: Place) -> (Seq<u8>, Place) {
        (separator(p) + integer_text(*self as int), after_value(p))
    }

    fn to_json<W: Write>(&self, w: &mut JsonWriter<W>) -> (r: Result<(), W::Error>) {
        w.usize(*self, false)
    }
}

impl ToJson for isize {
    open spec fn json(&self, p: Place) -> (Seq<u8>, Place) {
        (separator(p) + integer_text(*self as int), after_value(p))
    }

    fn to_json<W: Write>(&self, w: &mut JsonWriter<W>) -> (r: Result<(), W::Error>) {
        let v = *self;
        if v < 0 {
            w.usize((-(v + 1)) as usize + 1, true)
        } else {
            w.usize(v as usize, false)
        }
    }
}

impl ToJson for u128 {
    open spec fn json(&self, p: Place) -> (Seq<u8>, Place) {
        (separator(p) + integer_text(*self as int), after_value(p))
    }

    fn to_json<W: Write>(&self, w: &mut JsonWriter<W>) -> (r: Result<(), W::Error>) {
        w.u128(*self, false)
    }
}

impl ToJson for i128 {
    open spec fn json(&self, p: Place) -> (Seq<u8>, Place) {
        (separator(p) + integer_text(*self as int), after_value(p))
    }

    fn to_json<W: Write>(&self, w: &mut JsonWriter<W>) -> (r: Result<(), W::Error>) {
        let v = *self;
        if v < 0 {
            w.u128((-(v + 1)) as u128 + 1, true)
        } else {
            w.u128(v as u128, false)
        }
    }
}

/// `None` is written as `null`.
impl<T: ToJson> ToJson for Option<T> {
    open spec fn json(&self, p: Place) -> (Seq<u8>, Place) {
        match *self {
            Some(v) => v.json(p),
            None => (separator(p) + word_null(), after_value(p)),
        }
    }

    fn to_json<W: Write>(&self, w: &mut JsonWriter<W>) -> (r: Result<(), W::Error>) {
        match self {
            Some(v) => v.to_json(w),
            None => w.null(),
        }
    }
}

/// The elements of an array, one after the other.
pub open spec fn elements_json<T: ToJson>(s: Seq<T>, p: Place) -> (Seq<u8>, Place)
    decreases s.len(),
{
    if s.len() == 0 {
        (Seq::empty(), p)
    } else {
        let init = elements_json(s.drop_last(), p);
        let last = s.last().json(init.1);
        (init.0 + last.0, last.1)
    }
}

/// An array.
pub open spec fn array_json<T: ToJson>(s: Seq<T>, p: Place) -> (Seq<u8>, Place) {
    let items = elements_json(s, inside(p));
    (
        open_text(p, BRACKET_OPEN) + items.0 + close_text(items.1, BRACKET_CLOSE),
        outside(items.1),
    )
}

/// The first elements of an array take no more room than all of them.
proof fn lemma_elements_prefix<T: ToJson>(s: Seq<T>, k: int, p: Place)
    requires
        0 <= k <= s.len(),
    ensures
        elements_json(s.subrange(0, k), p).0.len() <= elements_json(s, p).0.len(),
    decreases s.len(),
{
    if k == s.len() {
        assert(s.subrange(0, k) =~= s);
    } else {
        lemma_elements_prefix(s.drop_last(), k, p);
        assert(s.drop_last().subrange(0, k) =~= s.subrange(0, k));
    }
}

impl<T: ToJson> ToJson for [T] {
    open spec fn json(&self, p: Place) -> (Seq<u8>, Place) {
        array_json(self@, p)
    }

    fn to_json<W: Write>(&self, w: &mut JsonWriter<W>) -> (r: Result<(), W::Error>) {
        let ghost p = w.place();
        let ghost a = w.out;
        let ghost total = array_json(self@, p).0;
        let ghost head = open_text(p, BRACKET_OPEN);
        match w.begin_array() {
            Ok(_) => {},
            Err(e) => {
                proof {
                    lemma_failed(&a, &w.out, head, total);
                }
                return Err(e);
            },
        }
        let mut i: usize = 0;
        proof {
            assert(self@.subrange(0, 0) =~= Seq::<T>::empty());
            assert(head + Seq::<u8>::empty() =~= head);
        }
        while i < self.len()
            invariant
                final(w.inner().target())@ == final(old(w).inner().target())@,
                i <= self@.len(),
                p == old(w).place(),
                a == old(w).out,
                total == array_json(self@, p).0,
                head == open_text(p, BRACKET_OPEN),
                wrote(
                    true,
                    &a,
                    &w.out,
                    head + elements_json(self@.subrange(0, i as int), inside(p)).0,
                ),
                w.place() == elements_json(self@.subrange(0, i as int), inside(p)).1,
            decreases self@.len() - i,
        {
            let ghost done = elements_json(self@.subrange(0, i as int), inside(p));
            let ghost m = w.out;
            let ghost j = self@[i as int].json(done.1);
            let ghost next = self@.subrange(0, i + 1);
            proof {
                assert(next.drop_last() =~= self@.subrange(0, i as int));
                assert(elements_json(next, inside(p)).0 == done.0 + j.0);
                lemma_elements_prefix(self@, i + 1, inside(p));
            }
            match self[i].to_json(w) {
                Ok(_) => {},
                Err(e) => {
                    proof {
                        lemma_wrote(false, &a, &m, &w.out, head + done.0, j.0);
                        lemma_failed(&a, &w.out, head + done.0 + j.0, total);
                    }
                    return Err(e);
                },
            }
            proof {
                lemma_wrote(true, &a, &m, &w.out, head + done.0, j.0);
                assert(head + done.0 + j.0 =~= head + (done.0 + j.0));
            }
            i = i + 1;
        }
        let ghost m = w.out;
        let ghost items = elements_json(self@, inside(p));
        let r = w.end_array();
        proof {
            assert(self@.subrange(0, i as int) =~= self@);
            lemma_wrote(
                r is Ok,
                &a,
                &m,
                &w.out,
                head + items.0,
                close_text(items.1, BRACKET_CLOSE),
            );
        }
        r
    }
}

impl<T: ToJson, const M: usize> ToJson for [T; M] {
    open spec fn json(&self, p: Place) -> (Seq<u8>, Place) {
        array_json(self@, p)
    }

    fn to_json<W: Write>(&self, w: &mut JsonWriter<W>) -> (r: Result<(), W::Error>) {
        self.as_slice().to_json(w)
    }
}

/// Object members given as `(key, value)` pairs.
#[derive(Debug, Clone, Copy)]
pub struct Object<'a, T>(pub &'a [(&'a str, T)]);

/// The members of an object, one after the other.
pub open spec fn members_json<T: ToJson>(s: Seq<(&str, T)>, p: Place) -> (Seq<u8>, Place)
    decreases s.len(),
{
    if s.len() == 0 {
        (Seq::empty(), p)
    } else {
        let init = members_json(s.drop_last(), p);
        let last = s.last().1.json(after_key(init.1));
        (init.0 + (key_text(init.1, s.last().0.spec_bytes()) + last.0), last.1)
    }
}

/// An object.
pub open spec fn object_json<T: ToJson>(s: Seq<(&str, T)>, p: Place) -> (Seq<u8>, Place) {
    let items = members_json(s, inside(p));
    (
        open_text(p, BRACE_OPEN) + items.0 + close_text(items.1, BRACE_CLOSE),
        outside(items.1),
    )
}

/// The first members of an object take no more room than all of them.
proof fn lemma_members_prefix<T: ToJson>(s: Seq<(&str, T)>, k: int, p: Place)
    requires
        0 <= k <= s.len(),
    ensures
        members_json(s.subrange(0, k), p).0.len() <= members_json(s, p).0.len(),
    decreases s.len(),
{
    if k == s.len() {
        assert(s.subrange(0, k) =~= s);
    } else {
        lemma_members_prefix(s.drop_last(), k, p);
        assert(s.drop_last().subrange(0, k) =~= s.subrange(0, k));
    }
}

impl<'a, T: ToJson> ToJson for Object<'a, T> {
    open spec fn json(&self, p: Place) -> (Seq<u8>, Place) {
        object_json(self.0@, p)
    }

    fn to_json<W: Write>(&self, w: &mut JsonWriter<W>) -> (r: Result<(), W::Error>) {
        let ghost p = w.place();
        let ghost a = w.out;
        let ghost s = self.0@;
        let ghost total = object_json(s, p).0;
        let ghost head = open_text(p, BRACE_OPEN);
        match w.begin_object() {
            Ok(_) => {},
            Err(e) => {
                proof {
                    lemma_failed(&a, &w.out, head, total);
                }
                return Err(e);
            },
        }
        let mut i: usize = 0;
        proof {
            assert(s.subrange(0, 0) =~= Seq::<(&str, T)>::empty());
            assert(head + Seq::<u8>::empty() =~= head);
        }
        while i < self.0.len()
            invariant
                final(w.inner().target())@ == final(old(w).inner().target())@,
                i <= s.len(),
                s == self.0@,
                p == old(w).place(),
                a == old(w).out,
                total == object_json(s, p).0,
                head == open_text(p, BRACE_OPEN),
                wrote(true, &a, &w.out, head + members_json(s.subrange(0, i as int), inside(p)).0),
                w.place() == members_json(s.subrange(0, i as int), inside(p)).1,
            decreases s.len() - i,
        {
            let ghost done = members_json(s.subrange(0, i as int), inside(p));
            let ghost m = w.out;
            let ghost piece = key_text(done.1, s[i as int].0.spec_bytes()) + s[i as int].1.json(
                after_key(done.1),
            ).0;
            let ghost next = s.subrange(0, i + 1);
            proof {
                assert(next.drop_last() =~= s.subrange(0, i as int));
                assert(members_json(next, inside(p)).0 == done.0 + piece);
                lemma_members_prefix(s, i + 1, inside(p));
            }
            let item = &self.0[i];
            match w.member(item.0, &item.1) {
                Ok(_) => {},
                Err(e) => {
                    proof {
                        lemma_wrote(false, &a, &m, &w.out, head + done.0, piece);
                        lemma_failed(&a, &w.out, head + done.0 + piece, total);
                    }
                    return Err(e);
                },
            }
            proof {
                lemma_wrote(true, &a, &m, &w.out, head + done.0, piece);
                assert(head + done.0 + piece =~= head + (done.0 + piece));
            }
            i = i + 1;
        }
        let ghost m = w.out;
        let ghost items = members_json(s, inside(p));
        let r = w.end_object();
        proof {
            assert(s.subrange(0, i as int) =~= s);
            lemma_wrote(r is Ok, &a, &m, &w.out, head + items.0, close_text(items.1, BRACE_CLOSE));
        }
        r
    }
}

/// Already encoded JSON, written as is (the caller is responsible for its validity).
#[derive(Debug, Clone, Copy, PartialEq, Eq)]
pub struct RawJson<'a>(pub &'a str);

impl<'a> ToJson for RawJson<'a> {
    open spec fn json(&self, p: Place) -> (Seq<u8>, Place) {
        (separator(p) + self.0.spec_bytes(), after_value(p))
    }

    fn to_json<W: Write>(&self, w: &mut JsonWriter<W>) -> (r: Result<(), W::Error>) {
        w.raw(self.0)
    }
}

/// The compact JSON encoding of a value.
pub open spec fn encoding<T: ToJson + ?Sized>(value: &T) -> Seq<u8> {
    value.json(compact()).0
}

/// Returns the length in bytes of the compact JSON encoding of `value`, without
/// writing it anywhere.
pub fn encoded_len<T: ToJson + ?Sized>(value: &T) -> (r: u64)
    ensures
        r == counted(encoding(value).len()),
{
    let mut w = JsonWriter::new(Counter::new());
    let r: Result<(), Infallible> = value.to_json(&mut w);
    assert(w.inner().written() =~= encoding(value));
    w.into_inner().count()
}

/// Encodes `value` as compact JSON into `buf`.
pub fn to_slice<'b, T: ToJson + ?Sized>(value: &T, buf: &'b mut [u8]) -> (r: Result<
    &'b str,
    BufferFull,
>)
    ensures
        match r {
            Ok(s) => {
                &&& s.spec_bytes() == encoding(value)
                &&& final(buf)@.len() == old(buf)@.len()
                &&& final(buf)@.subrange(0, encoding(value).len() as int) == encoding(value)
            },
            Err(_) => encoding(value).len() > old(buf)@.len() || !valid_utf8(encoding(value)),
        },
        encoding(value).len() > old(buf)@.len() ==> r is Err,
{
    let mut w = JsonWriter::new(SliceWriter::new(buf));
    value.to_json(&mut w)?;
    let ghost out = w.inner();
    assert(Write::written(&out) =~= encoding(value));
    let text = w.into_inner().into_written();
    match from_utf8(text) {
        Some(s) => {
            proof {
                let rest = out.target()@.skip(text@.len() as int);
                assert((text@ + rest).subrange(0, text@.len() as int) =~= text@);
            }
            Ok(s)
        },
        None => Err(BufferFull),
    }
}

} // verus!
