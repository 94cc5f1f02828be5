//! Carrying a modification out: in place with [`apply`], or while copying with [`apply_copy`]
//! and [`copy_edit`].

use vstd::prelude::*;
use vstd::slice::slice_subrange;
use vstd::string::StringSliceAdditionalSpecFns;
use vstd::utf8::{
    is_char_boundary, is_char_boundary_start_end_of_seq, length_of_first_scalar, pop_first_scalar,
    valid_utf8, valid_utf8_concat, valid_utf8_split,
};
use crate::cursor::{room, skip, span, Doc, Outcome};
use crate::error::{Error, ErrorKind};
use crate::grammar::{text, value, COMMA, QUOTE, SLASH, SPACE, TILDE};
use crate::io::{
    copy_to, counted, forward, nothing_kept, refuses, same_storage, takes, wrote, Bound, Feed, Kept,
    PipeError, Source, Tee, Write,
};
use crate::number::{decimal, fmt_usize, lemma_ascii_utf8};
use crate::parser::{start, Parser};
use crate::path::{lemma_decimal_index, Path, Seg, Step};
use crate::util::PipeResult;
use crate::writer::{
    after_key, compact, encoded_len, encoding, escaped, key_end, key_text, law_escaped_parts,
    lemma_failed, lemma_wrote, open_text, spaces, JsonWriter, Place, ToJson,
};
use crate::Span;
use super::storage::{moves, noted, noted_all, Request, Storage};
use super::plan::{change, lemma_skip, lemma_spot, locate, Change, Kind, Op, Patch, Shape, Target};

verus! {

/// What a JSON Pointer reference token stands for when it names a new member: like
/// [`unescape`](crate::path::unescape), but a `~` that starts no escape stands for itself.
pub open spec fn pointer_name(p: Seq<u8>) -> Seq<u8>
    decreases p.len(),
{
    if p.len() == 0 {
        Seq::empty()
    } else if p[0] != TILDE {
        seq![p[0]] + pointer_name(p.skip(1))
    } else if p.len() >= 2 && p[1] == 0x30 {
        seq![TILDE] + pointer_name(p.skip(2))
    } else if p.len() >= 2 && p[1] == 0x31 {
        seq![SLASH] + pointer_name(p.skip(2))
    } else {
        seq![TILDE] + pointer_name(p.skip(1))
    }
}

/// The name of a new member.
pub open spec fn new_name(step: Step) -> Seq<u8> {
    match step {
        Step::Key(k) => k,
        Step::Index(i) => decimal(i),
        Step::Pointer(p) => pointer_name(p),
    }
}

/// A comma, or nothing.
pub open spec fn comma(there: bool) -> Seq<u8> {
    if there {
        seq![COMMA]
    } else {
        Seq::empty()
    }
}

/// The text that a patch writes for a value at a place, and the place after it.
pub open spec fn content_json<V: ToJson + ?Sized>(shape: Shape, value: &V, p: Place) -> (
    Seq<u8>,
    Place,
) {
    match shape {
        Shape::Value => value.json(p),
        Shape::Remove => (Seq::empty(), p),
        Shape::Member { lead, key } => {
            let j = value.json(after_key(p));
            (comma(lead) + key_text(p, new_name(key)) + j.0, j.1)
        },
        Shape::Element { lead, trail } => {
            let j = value.json(p);
            (comma(lead) + j.0 + comma(trail), j.1)
        },
    }
}

/// The bytes that a patch puts in place of those it removes.
pub open spec fn content<V: ToJson + ?Sized>(shape: Shape, value: &V) -> Seq<u8> {
    content_json(shape, value, compact()).0
}

/// The document after a change.
pub open spec fn edited<V: ToJson + ?Sized>(b: Seq<u8>, c: Change, value: &V) -> Seq<u8> {
    b.subrange(0, c.start) + content(c.shape, value) + b.skip(c.end)
}

/// Bytes without a `~` stand for themselves.
proof fn lemma_pointer_run(p: Seq<u8>, k: int)
    requires
        0 <= k <= p.len(),
        forall|i: int| 0 <= i < k ==> #[trigger] p[i] != TILDE,
    ensures
        pointer_name(p) == p.subrange(0, k) + pointer_name(p.skip(k)),
    decreases k,
{
    if k == 0 {
        assert(p.skip(0) =~= p);
        assert(p.subrange(0, 0) + pointer_name(p) =~= pointer_name(p));
    } else {
        let q = p.skip(1);
        lemma_pointer_run(q, k - 1);
        assert(q.skip(k - 1) =~= p.skip(k));
        assert(seq![p[0]] + q.subrange(0, k - 1) =~= p.subrange(0, k));
        assert(seq![p[0]] + (q.subrange(0, k - 1) + pointer_name(p.skip(k))) =~= seq![p[0]]
            + q.subrange(0, k - 1) + pointer_name(p.skip(k)));
    }
}

/// A JSON Pointer reference token in valid UTF-8 stands for valid UTF-8.
proof fn lemma_pointer_name_utf8(p: Seq<u8>)
    requires
        valid_utf8(p),
    ensures
        valid_utf8(pointer_name(p)),
    decreases p.len(),
{
    if p.len() > 0 {
        let m = length_of_first_scalar(p);
        let tail = pop_first_scalar(p);
        assert(tail =~= p.skip(m));
        if p[0] == TILDE {
            lemma_ascii_utf8(seq![TILDE]);
            lemma_ascii_utf8(seq![SLASH]);
            if p.len() >= 2 && (p[1] == 0x30 || p[1] == 0x31) {
                assert(tail[0] == p[1]);
                assert(valid_utf8(tail));
                assert(valid_utf8(pop_first_scalar(tail)));
                assert(pop_first_scalar(tail) =~= p.skip(2));
                lemma_pointer_name_utf8(p.skip(2));
                valid_utf8_concat(seq![TILDE], pointer_name(p.skip(2)));
                valid_utf8_concat(seq![SLASH], pointer_name(p.skip(2)));
            } else {
                lemma_pointer_name_utf8(p.skip(1));
                valid_utf8_concat(seq![TILDE], pointer_name(p.skip(1)));
            }
        } else {
            let h = p.subrange(0, m);
            assert forall|i: int| 0 <= i < m implies #[trigger] p[i] != TILDE by {
            }
            lemma_pointer_run(p, m);
            lemma_pointer_name_utf8(p.skip(m));
            is_char_boundary_start_end_of_seq(p);
            assert(is_char_boundary(tail, 0));
            assert(is_char_boundary(p, m));
            valid_utf8_split(p, m);
            valid_utf8_concat(h, pointer_name(p.skip(m)));
        }
    }
}

/// A step whose names are valid UTF-8, as those of every path are.
pub open spec fn step_valid(step: Step) -> bool {
    match step {
        Step::Key(k) => valid_utf8(k),
        Step::Index(_) => true,
        Step::Pointer(p) => valid_utf8(p),
    }
}

/// The name of a new member is valid UTF-8.
pub proof fn lemma_new_name_utf8(step: Step)
    requires
        step_valid(step),
    ensures
        valid_utf8(new_name(step)),
{
    match step {
        Step::Key(_) => {},
        Step::Index(i) => {
            lemma_decimal_index(i);
            lemma_ascii_utf8(decimal(i));
        },
        Step::Pointer(p) => {
            lemma_pointer_name_utf8(p);
        },
    }
}

/// Writes one more part of a name of which `done` was written, behind `head`.
fn name_part<W: Write>(
    w: &mut JsonWriter<W>,
    part: &[u8],
    Ghost(a): Ghost<W>,
    Ghost(head): Ghost<Seq<u8>>,
    Ghost(done): Ghost<Seq<u8>>,
    Ghost(total): Ghost<Seq<u8>>,
) -> (r: Result<(), W::Error>)
    requires
        old(w).wf(),
        wrote(true, &a, &old(w).inner(), head + escaped(done)),
        head.len() + escaped(done + part@).len() <= total.len(),
    ensures
        final(final(w).inner().target())@ == final(old(w).inner().target())@,
        final(w).wf(),
        final(w).place() == old(w).place(),
        r is Ok ==> wrote(true, &a, &final(w).inner(), head + escaped(done + part@)),
        r is Err ==> wrote(false, &a, &final(w).inner(), total),
{
    let ghost m = w.inner();
    let r = w.fragment(part);
    proof {
        let n = w.inner();
        law_escaped_parts(done, part@);
        lemma_wrote(r is Ok, &a, &m, &n, head + escaped(done), escaped(part@));
        assert(head + escaped(done) + escaped(part@) =~= head + escaped(done + part@));
        if r is Err {
            lemma_failed(&a, &n, head + escaped(done + part@), total);
        }
    }
    r
}

/// Writes the name that a JSON Pointer reference token stands for, without its quotes.
fn write_pointer<W: Write>(
    w: &mut JsonWriter<W>,
    s: &[u8],
    Ghost(a): Ghost<W>,
    Ghost(head): Ghost<Seq<u8>>,
    Ghost(total): Ghost<Seq<u8>>,
) -> (r: Result<(), W::Error>)
    requires
        old(w).wf(),
        wrote(true, &a, &old(w).inner(), head),
        head.len() + escaped(pointer_name(s@)).len() <= total.len(),
    ensures
        final(final(w).inner().target())@ == final(old(w).inner().target())@,
        final(w).wf(),
        final(w).place() == old(w).place(),
        r is Ok ==> wrote(true, &a, &final(w).inner(), head + escaped(pointer_name(s@))),
        r is Err ==> wrote(false, &a, &final(w).inner(), total),
{
    let ghost mut done = Seq::<u8>::empty();
    let mut i: usize = 0;
    proof {
        assert(s@.skip(0) =~= s@);
        assert(done + pointer_name(s@) =~= pointer_name(s@));
        assert(head + escaped(done) =~= head);
    }
    loop
        invariant
            i <= s@.len(),
            w.wf(),
            w.place() == old(w).place(),
            final(w.inner().target())@ == final(old(w).inner().target())@,
            wrote(true, &a, &w.inner(), head + escaped(done)),
            pointer_name(s@) == done + pointer_name(s@.skip(i as int)),
            head.len() + escaped(pointer_name(s@)).len() <= total.len(),
        decreases s@.len() - i,
    {
        let mut j = i;
        while j < s.len() && s[j] != TILDE
            invariant
                i <= j <= s@.len(),
                forall|k: int| i <= k < j ==> #[trigger] s@[k] != TILDE,
            decreases s@.len() - j,
        {
            j = j + 1;
        }
        let run = slice_subrange(s, i, j);
        let ghost tail = pointer_name(s@.skip(j as int));
        proof {
            let p = s@.skip(i as int);
            assert forall|k: int| 0 <= k < j - i implies #[trigger] p[k] != TILDE by {
                assert(p[k] == s@[i + k]);
            }
            lemma_pointer_run(p, j - i);
            assert(p.subrange(0, j - i) =~= run@);
            assert(p.skip(j - i) =~= s@.skip(j as int));
            assert(done + (run@ + tail) =~= done + run@ + tail);
            law_escaped_parts(done + run@, tail);
        }
        name_part(w, run, Ghost(a), Ghost(head), Ghost(done), Ghost(total))?;
        proof {
            done = done + run@;
        }
        if j == s.len() {
            assert(tail =~= Seq::<u8>::empty());
            assert(done + tail =~= done);
            return Ok(());
        }
        let zero = j + 1 < s.len() && s[j + 1] == 0x30;
        let one = j + 1 < s.len() && s[j + 1] == 0x31;
        let c: [u8; 1] = if one {
            [SLASH]
        } else {
            [TILDE]
        };
        i = if zero || one {
            j + 2
        } else {
            j + 1
        };
        proof {
            let p = s@.skip(j as int);
            assert(p[0] == TILDE);
            assert(p.skip(i - j) =~= s@.skip(i as int));
            if j + 1 < s@.len() {
                assert(p[1] == s@[j + 1]);
            }
            assert(c@ =~= seq![c[0]]);
            assert(tail =~= c@ + pointer_name(s@.skip(i as int)));
            assert(done + (c@ + pointer_name(s@.skip(i as int))) =~= done + c@ + pointer_name(
                s@.skip(i as int),
            ));
            law_escaped_parts(done + c@, pointer_name(s@.skip(i as int)));
        }
        name_part(w, &c, Ghost(a), Ghost(head), Ghost(done), Ghost(total))?;
        proof {
            done = done + c@;
        }
    }
}

/// Writes the name of a new member.
fn write_key<W: Write>(w: &mut JsonWriter<W>, key: Seg<'_>) -> (r: Result<(), W::Error>)
    requires
        old(w).wf(),
    ensures
        final(final(w).inner().target())@ == final(old(w).inner().target())@,
        final(w).put(
            &*old(w),
            r is Ok,
            key_text(old(w).place(), new_name(key@)),
            after_key(old(w).place()),
        ),
{
    match key {
        Seg::Key(k) => w.key(k),
        Seg::Index(i) => {
            let mut buf = [0u8;20];
            let digits = fmt_usize(i, &mut buf);
            w.key_bytes(digits)
        },
        Seg::Pointer(s) => {
            let ghost a = w.inner();
            let ghost p = w.place();
            let ghost name = pointer_name(s.spec_bytes());
            let ghost head = open_text(p, QUOTE);
            let ghost total = key_text(p, name);
            match w.begin_string() {
                Ok(_) => {},
                Err(e) => {
                    proof {
                        lemma_failed(&a, &w.inner(), head, total);
                    }
                    return Err(e);
                },
            }
            write_pointer(w, s.as_bytes(), Ghost(a), Ghost(head), Ghost(total))?;
            let ghost m = w.inner();
            let r = w.end_key();
            proof {
                let n = w.inner();
                lemma_wrote(r is Ok, &a, &m, &n, head + escaped(name), key_end(p));
            }
            r
        },
    }
}

/// What a patch writes for a value.
struct Content<'v, 'k, V: ?Sized> {
    kind: Kind<'k>,
    value: &'v V,
}

impl<V: ToJson + ?Sized> ToJson for Content<'_, '_, V> {
    closed spec fn json(&self, p: Place) -> (Seq<u8>, Place) {
        content_json(self.kind@, self.value, p)
    }

    fn to_json<W: Write>(&self, w: &mut JsonWriter<W>) -> (r: Result<(), W::Error>) {
        let ghost a = w.inner();
        let ghost p = w.place();
        let ghost total = content_json(self.kind@, self.value, p).0;
        proof {
            assert(a.written() + Seq::<u8>::empty() =~= a.written());
        }
        match self.kind {
            Kind::Value => w.value(self.value),
            Kind::Remove => Ok(()),
            Kind::Member { lead, key } => {
                match write_comma(w, lead) {
                    Ok(_) => {},
                    Err(e) => {
                        proof {
                            lemma_failed(&a, &w.inner(), comma(lead), total);
                        }
                        return Err(e);
                    },
                }
                let ghost m = w.inner();
                let ghost name = key_text(p, new_name(key@));
                let ghost j = self.value.json(after_key(p)).0;
                let r = write_key(w, key);
                proof {
                    let n = w.inner();
                    lemma_wrote(r is Ok, &a, &m, &n, comma(lead), name);
                }
                match r {
                    Ok(_) => {},
                    Err(e) => {
                        proof {
                            lemma_failed(&a, &w.inner(), comma(lead) + name, total);
                        }
                        return Err(e);
                    },
                }
                let ghost m = w.inner();
                let r = w.value(self.value);
                proof {
                    let n = w.inner();
                    lemma_wrote(r is Ok, &a, &m, &n, comma(lead) + name, j);
                }
                r
            },
            Kind::Element { lead, trail } => {
                match write_comma(w, lead) {
                    Ok(_) => {},
                    Err(e) => {
                        proof {
                            lemma_failed(&a, &w.inner(), comma(lead), total);
                        }
                        return Err(e);
                    },
                }
                let ghost m = w.inner();
                let ghost j = self.value.json(p).0;
                let r = w.value(self.value);
                proof {
                    let n = w.inner();
                    lemma_wrote(r is Ok, &a, &m, &n, comma(lead), j);
                }
                match r {
                    Ok(_) => {},
                    Err(e) => {
                        proof {
                            lemma_failed(&a, &w.inner(), comma(lead) + j, total);
                        }
                        return Err(e);
                    },
                }
                let ghost m = w.inner();
                let r = write_comma(w, trail);
                proof {
                    let n = w.inner();
                    lemma_wrote(r is Ok, &a, &m, &n, comma(lead) + j, comma(trail));
                }
                r
            },
        }
    }
}

/// Writes a comma, or nothing.
fn write_comma<W: Write>(w: &mut JsonWriter<W>, there: bool) -> (r: Result<(), W::Error>)
    requires
        old(w).wf(),
    ensures
        final(final(w).inner().target())@ == final(old(w).inner().target())@,
        final(w).put(&*old(w), r is Ok, comma(there), old(w).place()),
        final(w).place() == old(w).place(),
{
    proof {
        assert(w.inner().written() + Seq::<u8>::empty() =~= w.inner().written());
        assert([COMMA]@ =~= seq![COMMA]);
    }
    if there {
        w.raw_fragment(&[COMMA])
    } else {
        Ok(())
    }
}

impl<'k> Patch<'k> {
    /// A patch replacing a value at `span` (as returned by
    /// [`Parser::value_span`] or [`Node::span`](crate::Node::span)).
    pub fn replace(span: Span) -> (r: Self)
        ensures
            r@ == (Change {
                start: span.start as int,
                end: span.end as int,
                shape: Shape::Value,
            }),
    {
        Self { start: span.start, end: span.end, kind: Kind::Value }
    }

    /// The bytes replaced by this patch.
    pub fn span(&self) -> (r: Span)
        ensures
            r.start == self@.start,
            r.end == self@.end,
    {
        Span { start: self.start, end: self.end }
    }

    /// Whether this patch deletes bytes without writing anything.
    pub fn is_removal(&self) -> (r: bool)
        ensures
            r == (self@.shape is Remove),
    {
        match self.kind {
            Kind::Remove => true,
            _ => false,
        }
    }

    /// Length of the content this patch writes for `value`.
    pub fn content_len<V: ToJson + ?Sized>(&self, value: &V) -> (r: u64)
        ensures
            r == counted(content(self@.shape, value).len()),
    {
        encoded_len(&self.content(value))
    }

    /// Change of the document length when applied with `value`.
    pub fn delta<V: ToJson + ?Sized>(&self, value: &V) -> (r: i64)
        requires
            self@.start <= self@.end,
            self@.end - self@.start <= i64::MAX,
            content(self@.shape, value).len() <= i64::MAX,
        ensures
            r == content(self@.shape, value).len() - (self@.end - self@.start),
    {
        self.content_len(value) as i64 - (self.end - self.start) as i64
    }

    /// Writes the content this patch puts at `start` for `value`. Hands the writer back.
    pub fn write_content<W: Write, V: ToJson + ?Sized>(&self, out: W, value: &V) -> (r: Result<
        W,
        W::Error,
    >)
        requires
            out.wf(),
        ensures
            match r {
                Ok(w) => {
                    &&& wrote(true, &out, &w, content(self@.shape, value))
                    &&& final(w.target())@ == final(out.target())@
                },
                Err(_) => !takes(
                    out.bound(),
                    out.written().len(),
                    content(self@.shape, value).len(),
                ),
            },
    {
        let mut w = JsonWriter::new(out);
        self.content(value).to_json(&mut w)?;
        Ok(w.into_inner())
    }

    fn content<'v, V: ToJson + ?Sized>(&self, value: &'v V) -> (r: Content<'v, 'k, V>)
        ensures
            r.kind == self.kind,
            r.value == value,
    {
        Content { kind: self.kind, value }
    }
}

/// Requests to write, from `start` up to `end`.
pub open spec fn writes_within(q: Seq<Request>, start: int, end: int) -> bool {
    forall|k: int|
        0 <= k < q.len() ==> ((#[trigger] q[k]) matches Request::Write { at, n } && start <= at && at
            + n <= end)
}

/// Between the records `a` and `b`, if they are kept, nothing was done but to write, from `start`
/// up to `end`.
spec fn only_wrote(
    a: Option<Seq<Request>>,
    b: Option<Seq<Request>>,
    start: int,
    end: int,
) -> bool {
    match a {
        None => b is None,
        Some(x) => b matches Some(y) && x.len() <= y.len() && y.subrange(0, x.len() as int) == x
            && writes_within(y.skip(x.len() as int), start, end),
    }
}

proof fn lemma_wrote_nothing(a: Option<Seq<Request>>, start: int, end: int)
    ensures
        only_wrote(a, a, start, end),
{
    match a {
        None => {},
        Some(x) => {
            assert(x.subrange(0, x.len() as int) =~= x);
        },
    }
}

proof fn lemma_only_wrote(
    a: Option<Seq<Request>>,
    b: Option<Seq<Request>>,
    start: int,
    end: int,
    at: int,
    n: int,
)
    requires
        only_wrote(a, b, start, end),
        start <= at,
        at + n <= end,
    ensures
        only_wrote(a, noted(b, (Request::Write { at, n })), start, end),
{
    match a {
        None => {},
        Some(x) => {
            let y = b->Some_0;
            let q = Request::Write { at, n };
            let z = y.push(q);
            assert(z.subrange(0, x.len() as int) =~= y.subrange(0, x.len() as int));
            assert(z.skip(x.len() as int) =~= y.skip(x.len() as int).push(q));
        },
    }
}

/// Buffered writer into storage, limited to a range: what does not fit there is dropped.
struct StorageWriter<'a, St> {
    st: St,
    pos: u64,
    end: u64,
    buf: &'a mut [u8],
    n: usize,
    /// Whether anything was dropped.
    over: bool,
    dropped: Ghost<Seq<u8>>,
    /// Where the range starts.
    start: Ghost<int>,
    /// What the storage was asked for before.
    asked: Ghost<Option<Seq<Request>>>,
}

impl<'a, St: Storage> StorageWriter<'a, St> {
    spec fn buffered(&self) -> Seq<u8> {
        self.buf@
    }

    fn flush_buf(&mut self) -> (r: Result<(), St::Error>)
        requires
            (*old(self)).wf(),
        ensures
            (*final(self)).wf(),
            final(self).end == old(self).end,
            final(self).over == old(self).over,
            final(self).start == old(self).start,
            final(self).asked == old(self).asked,
            r is Ok ==> {
                &&& (*final(self)).written() == (*old(self)).written()
                &&& (*final(self)).bound() == (*old(self)).bound()
                &&& (*final(self)).kept() == (*old(self)).kept()
                &&& final(self).n == 0
            },
            r is Err ==> {
                &&& same_storage((*final(self)).kept(), (*old(self)).kept())
                &&& (*old(self)).bound() is Unknown
            },
    {
        if self.n > 0 {
            let ghost before = self.st.bytes();
            let part = slice_subrange(self.buf, 0, self.n);
            proof {
                lemma_only_wrote(
                    self.asked@,
                    self.st.log(),
                    self.start@,
                    self.end as int,
                    self.pos as int,
                    self.n as int,
                );
            }
            self.st.write_at(self.pos, part)?;
            assert(self.st.bytes().skip(self.end as int) =~= before.skip(self.end as int));
            self.pos = self.pos + self.n as u64;
            self.n = 0;
            assert((*self).written() =~= (*old(self)).written());
        }
        Ok(())
    }

    /// Flushes and pads the rest of the range with spaces.
    fn finish(&mut self) -> (r: Result<(), St::Error>)
        requires
            (*old(self)).wf(),
            !old(self).over,
        ensures
            (*final(self)).wf(),
            r is Ok ==> {
                &&& (*final(self)).kept() == (*old(self)).kept()
                &&& final(self).st.bytes() == (*old(self)).written() + spaces(
                    (old(self).end - (*old(self)).written().len()) as nat,
                ) + (*old(self)).kept().sent
            },
            r is Err ==> {
                &&& same_storage((*final(self)).kept(), (*old(self)).kept())
                &&& (*old(self)).bound() is Unknown
            },
    {
        self.flush_buf()?;
        let blank = [SPACE;16];
        let ghost head = (*self).written();
        assert(head =~= head + spaces(0));
        while self.pos < self.end
            invariant
                (*self).wf(),
                self.n == 0,
                !self.over,
                self.end == old(self).end,
                (*self).bound() == (*old(self)).bound(),
                (*self).kept() == (*old(self)).kept(),
                head == (*old(self)).written(),
                head.len() <= self.pos,
                (*self).written() == head + spaces((self.pos - head.len()) as nat),
                blank@ == spaces(16),
            decreases self.end - self.pos,
        {
            let left = self.end - self.pos;
            let k: usize = if left < 16 {
                left as usize
            } else {
                16
            };
            let ghost before = self.st.bytes();
            let part = slice_subrange(blank.as_slice(), 0, k);
            let ghost held = (*self).written();
            proof {
                lemma_only_wrote(
                    self.asked@,
                    self.st.log(),
                    self.start@,
                    self.end as int,
                    self.pos as int,
                    k as int,
                );
            }
            self.st.write_at(self.pos, part)?;
            assert(self.st.bytes().skip(self.end as int) =~= before.skip(self.end as int));
            self.pos = self.pos + k as u64;
            assert((*self).written() =~= held + part@);
            assert(held + part@ =~= head + spaces((self.pos - head.len()) as nat));
        }
        assert(self.st.bytes() =~= (*self).written() + (*self).kept().sent);
        Ok(())
    }
}

impl<St: Storage> Write for StorageWriter<'_, St> {
    type Error = St::Error;

    closed spec fn wf(&self) -> bool {
        &&& self.st.wf()
        &&& self.n <= self.buffered().len() <= usize::MAX
        &&& self.start@ <= self.pos
        &&& self.pos + self.n <= self.end <= self.st.bytes().len()
        &&& only_wrote(self.asked@, self.st.log(), self.start@, self.end as int)
        &&& if self.over {
            self.pos + self.n + self.dropped@.len() > self.end
        } else {
            self.dropped@ == Seq::<u8>::empty()
        }
    }

    /// The document up to where the next byte goes, and what was dropped.
    closed spec fn written(&self) -> Seq<u8> {
        self.st.bytes().subrange(0, self.pos as int) + self.buffered().subrange(0, self.n as int)
            + self.dropped@
    }

    closed spec fn bound(&self) -> Bound {
        if self.st.limit() is Some {
            Bound::Endless
        } else {
            Bound::Unknown
        }
    }

    /// What lies behind the range, where that starts, and the size of the buffer.
    closed spec fn kept(&self) -> Kept {
        Kept {
            sent: self.st.bytes().skip(self.end as int),
            from: self.end as int,
            limit: self.st.limit(),
            room: self.buffered().len(),
            asked: self.asked@,
            range: (self.start@, self.end as int),
            ..nothing_kept()
        }
    }

    proof fn bounds(&self) {
    }

    fn write_all(&mut self, data: &[u8]) -> (r: Result<(), Self::Error>) {
        let size = self.buf.len();
        if self.over || data.len() as u64 > self.end - self.pos - self.n as u64 {
            self.over = true;
            proof {
                self.dropped@ = self.dropped@ + data@;
            }
            assert((*self).written() =~= (*old(self)).written() + data@);
            return Ok(());
        }
        let ghost tail = self.st.bytes().skip(self.end as int);
        if size == 0 {
            proof {
                lemma_only_wrote(
                    self.asked@,
                    self.st.log(),
                    self.start@,
                    self.end as int,
                    self.pos as int,
                    data@.len() as int,
                );
            }
            match self.st.write_at(self.pos, data) {
                Ok(_) => {},
                Err(e) => return Err(e),
            }
            assert(self.st.bytes().skip(self.end as int) =~= tail);
            self.pos = self.pos + data.len() as u64;
            assert((*self).written() =~= (*old(self)).written() + data@);
            return Ok(());
        }
        let mut i: usize = 0;
        assert(data@.subrange(0, 0) =~= Seq::<u8>::empty());
        assert((*self).written() =~= (*old(self)).written() + data@.subrange(0, 0));
        while i < data.len()
            invariant
                i <= data@.len(),
                size == self.buffered().len() > 0,
                (*self).wf(),
                !self.over,
                self.end == old(self).end,
                self.pos + self.n + (data@.len() - i) <= self.end,
                (*self).bound() == (*old(self)).bound(),
                (*self).kept() == (*old(self)).kept(),
                (*self).written() == (*old(self)).written() + data@.subrange(0, i as int),
                !refuses(
                    (*old(self)).bound(),
                    (*old(self)).written().len(),
                    data@.len(),
                ),
            decreases data@.len() - i, self.n,
        {
            let free = size - self.n;
            let left = data.len() - i;
            let k = if free < left {
                free
            } else {
                left
            };
            let ghost held = (*self).written();
            let ghost b = self.buffered();
            let part = slice_subrange(data, i, i + k);
            copy_to(self.buf, self.n, part);
            self.n = self.n + k;
            i = i + k;
            proof {
                assert(self.buffered().subrange(0, self.n as int) =~= b.subrange(
                    0,
                    self.n - k,
                ) + part@);
                assert((*self).written() =~= held + part@);
                assert(held + part@ =~= (*old(self)).written() + data@.subrange(0, i as int));
            }
            if self.n == size {
                match self.flush_buf() {
                    Ok(_) => {},
                    Err(e) => return Err(e),
                }
            }
        }
        assert(data@.subrange(0, i as int) =~= data@);
        Ok(())
    }
}

/// The length of a document.
fn measure<St: Storage>(st: &mut St) -> (r: Result<u64, St::Error>)
    requires
        (*old(st)).wf(),
    ensures
        exists|a: &mut St|
            {
                &&& #[trigger] call_ensures(St::len, (a,), r)
                &&& *a == *old(st)
                &&& *final(a) == *final(st)
            },
{
    let f = St::len;
    f(st)
}

/// Sets the length of a document.
fn resize<St: Storage>(st: &mut St, len: u64) -> (r: Result<(), St::Error>)
    requires
        (*old(st)).wf(),
    ensures
        exists|a: &mut St|
            {
                &&& #[trigger] call_ensures(St::set_len, (a, len), r)
                &&& *a == *old(st)
                &&& *final(a) == *final(st)
            },
{
    let f = St::set_len;
    f(st, len)
}

/// Moves a part of a document.
fn shift<St: Storage>(st: &mut St, from: u64, to: u64, len: u64, scratch: &mut [u8]) -> (r: Result<
    (),
    St::Error,
>)
    requires
        (*old(st)).wf(),
    ensures
        exists|a: &mut St, s: &mut [u8]|
            {
                &&& #[trigger] call_ensures(St::move_within, (a, from, to, len, s), r)
                &&& *a == *old(st)
                &&& *final(a) == *final(st)
                &&& &*s == &*old(scratch)
                &&& &*final(s) == &*final(scratch)
            },
{
    let f = St::move_within;
    f(st, from, to, len, scratch)
}

/// The requests that change the length of a document of `total` bytes and move its tail, once, from
/// `end` to `new_end`. Where it stays there, there are none. To grow, the length is set first, to
/// shrink, last.
pub open spec fn makes_room(q: Seq<Request>, total: int, end: int, new_end: int) -> bool {
    let set = Request::SetLen(total + (new_end - end));
    if new_end == end {
        q.len() == 0
    } else if new_end > end {
        q.len() > 0 && q[0] == set && moves(q.skip(1), end, new_end, total - end)
    } else {
        q.len() > 0 && q.last() == set && moves(q.drop_last(), end, new_end, total - end)
    }
}

/// The requests of [`makes_room`], all of them if `whole`, or else those up to one that failed.
pub open spec fn room_requests(
    whole: bool,
    q: Seq<Request>,
    total: int,
    end: int,
    new_end: int,
) -> bool {
    ||| makes_room(q, total, end, new_end)
    ||| !whole && new_end > end && q == seq![Request::SetLen(total + (new_end - end))]
    ||| !whole && new_end < end && moves(q, end, new_end, total - end)
}

/// The requests that were made of a storage to apply a patch, between the records `a` and `b`, if
/// they are kept: its length first; then those that make room, of which the last may have failed;
/// then writes, which all lie within the new content.
pub open spec fn followed<V: ToJson + ?Sized>(
    ok: bool,
    a: Option<Seq<Request>>,
    b: Option<Seq<Request>>,
    doc: Seq<u8>,
    c: Change,
    value: &V,
) -> bool {
    let new_end = c.start + content(c.shape, value).len();
    ||| !ok && b == noted(a, Request::Len)
    ||| !ok && applicable(doc, c, value) && exists|q: Seq<Request>|
        {
            &&& #[trigger] room_requests(false, q, doc.len() as int, c.end, new_end)
            &&& b == noted_all(noted(a, Request::Len), q)
        }
    ||| applicable(doc, c, value) && exists|q: Seq<Request>, w: Seq<Request>|
        {
            &&& #[trigger] makes_room(q, doc.len() as int, c.end, new_end)
            &&& #[trigger] writes_within(w, c.start, new_end)
            &&& b == noted_all(noted(a, Request::Len), q + w)
        }
}

proof fn lemma_noted_none(log: Option<Seq<Request>>)
    ensures
        noted_all(log, Seq::empty()) == log,
{
    match log {
        Some(l) => {
            assert(l + Seq::<Request>::empty() =~= l);
        },
        None => {},
    }
}

proof fn lemma_noted_one(log: Option<Seq<Request>>, set: Request)
    ensures
        noted(log, set) == noted_all(log, seq![set]),
{
    match log {
        Some(l) => {
            assert(l.push(set) =~= l + seq![set]);
        },
        None => {},
    }
}

proof fn lemma_noted_first(log: Option<Seq<Request>>, set: Request, q: Seq<Request>)
    ensures
        noted_all(noted(log, set), q) == noted_all(log, seq![set] + q),
{
    match log {
        Some(l) => {
            assert(l.push(set) + q =~= l + (seq![set] + q));
        },
        None => {},
    }
}

proof fn lemma_noted_last(log: Option<Seq<Request>>, q: Seq<Request>, set: Request)
    ensures
        noted(noted_all(log, q), set) == noted_all(log, q.push(set)),
{
    match log {
        Some(l) => {
            assert((l + q).push(set) =~= l + q.push(set));
        },
        None => {},
    }
}

proof fn lemma_followed<V: ToJson + ?Sized>(
    ok: bool,
    a: Option<Seq<Request>>,
    mid: Option<Seq<Request>>,
    b: Option<Seq<Request>>,
    doc: Seq<u8>,
    c: Change,
    value: &V,
    q: Seq<Request>,
)
    requires
        applicable(doc, c, value),
        mid == noted_all(noted(a, Request::Len), q),
        only_wrote(mid, b, c.start, c.start + content(c.shape, value).len()),
        makes_room(q, doc.len() as int, c.end, c.start + content(c.shape, value).len()),
    ensures
        followed(ok, a, b, doc, c, value),
{
    let w = match mid {
        Some(x) => b->Some_0.skip(x.len() as int),
        None => Seq::empty(),
    };
    match mid {
        Some(x) => {
            let l = a->Some_0.push(Request::Len);
            assert(x == l + q);
            assert(b->Some_0 =~= x + w);
            assert(l + (q + w) =~= l + q + w);
        },
        None => {},
    }
    assert(writes_within(w, c.start, c.start + content(c.shape, value).len()));
}

/// Moves the tail of a document of `total` bytes, from `end` on, to `new_end`.
fn make_room<St: Storage>(
    st: &mut St,
    total: u64,
    end: u64,
    new_end: u64,
    scratch: &mut [u8],
) -> (r: Result<(), St::Error>)
    requires
        (*old(st)).wf(),
        total == (*old(st)).bytes().len(),
        end <= total,
        new_end + (total - end) <= u64::MAX,
    ensures
        (*final(st)).wf(),
        (*final(st)).limit() == (*old(st)).limit(),
        final(scratch)@.len() == old(scratch)@.len(),
        r is Ok ==> {
            let b = (*final(st)).bytes();
            let least = if end < new_end {
                end
            } else {
                new_end
            };
            &&& b.len() == new_end + (total - end)
            &&& b.subrange(0, least as int) == (*old(st)).bytes().subrange(0, least as int)
            &&& b.skip(new_end as int) == (*old(st)).bytes().skip(end as int)
            &&& (*old(st)).limit() matches Some(c) ==> b.len() <= c
        },
        r is Err ==> ((*old(st)).limit() matches Some(c) ==> {
            &&& new_end + (total - end) > c
            &&& (*final(st)).bytes() == (*old(st)).bytes()
        }),
        new_end == end ==> r is Ok && *final(st) == *old(st),
        exists|q: Seq<Request>|
            {
                &&& #[trigger] room_requests(
                    r is Ok,
                    q,
                    total as int,
                    end as int,
                    new_end as int,
                )
                &&& (*final(st)).log() == noted_all((*old(st)).log(), q)
            },
        // To grow, the length is set first; then the tail is moved, once.
        new_end > end ==> exists|a: &mut St, x: Result<(), St::Error>|
            {
                &&& #[trigger] call_ensures(St::set_len, (a, (total + (new_end - end)) as u64), x)
                &&& *a == *old(st)
                &&& x is Err ==> r == x && *final(a) == *final(st)
                &&& x is Ok ==> exists|b: &mut St, s: &mut [u8]|
                    {
                        &&& #[trigger] call_ensures(
                            St::move_within,
                            (b, end, new_end, (total - end) as u64, s),
                            r,
                        )
                        &&& *b == *final(a)
                        &&& *final(b) == *final(st)
                    }
            },
        // To shrink, the tail is moved first, once; then the length is set.
        new_end < end ==> exists|b: &mut St, s: &mut [u8], x: Result<(), St::Error>|
            {
                &&& #[trigger] call_ensures(
                    St::move_within,
                    (b, end, new_end, (total - end) as u64, s),
                    x,
                )
                &&& *b == *old(st)
                &&& x is Err ==> r == x && *final(b) == *final(st)
                &&& x is Ok ==> exists|a: &mut St|
                    {
                        &&& #[trigger] call_ensures(
                            St::set_len,
                            (a, (total - (end - new_end)) as u64),
                            r,
                        )
                        &&& *a == *final(b)
                        &&& *final(a) == *final(st)
                    }
            },
{
    proof {
        (*st).bounds();
    }
    let ghost b = (*st).bytes();
    let ghost log = (*st).log();
    let ghost set = Request::SetLen(total + (new_end - end));
    let tail = total - end;
    if new_end > end {
        match resize(st, total + (new_end - end)) {
            Ok(_) => {},
            Err(e) => {
                proof {
                    lemma_noted_one(log, set);
                    assert(room_requests(
                        false,
                        seq![set],
                        total as int,
                        end as int,
                        new_end as int,
                    ));
                }
                return Err(e);
            },
        }
        let moved = shift(st, end, new_end, tail, scratch);
        proof {
            let q = choose|q: Seq<Request>|
                {
                    &&& #[trigger] moves(q, end as int, new_end as int, tail as int)
                    &&& (*st).log() == noted_all(noted(log, set), q)
                };
            lemma_noted_first(log, set, q);
            assert((seq![set] + q).skip(1) =~= q);
            assert(room_requests(
                moved is Ok,
                seq![set] + q,
                total as int,
                end as int,
                new_end as int,
            ));
        }
        match moved {
            Ok(done) => {
                assert(done == ());
            },
            Err(e) => return Err(e),
        }
        assert((*st).bytes().subrange(0, end as int) =~= b.subrange(0, end as int));
        assert((*st).bytes().skip(new_end as int) =~= b.skip(end as int));
    } else if new_end < end {
        let moved = shift(st, end, new_end, tail, scratch);
        let ghost q = choose|q: Seq<Request>|
            {
                &&& #[trigger] moves(q, end as int, new_end as int, tail as int)
                &&& (*st).log() == noted_all(log, q)
            };
        match moved {
            Ok(_) => {},
            Err(e) => {
                assert(room_requests(false, q, total as int, end as int, new_end as int));
                return Err(e);
            },
        }
        let set_len = resize(st, total - (end - new_end));
        proof {
            lemma_noted_last(log, q, set);
            assert(q.push(set).drop_last() =~= q);
            assert(room_requests(
                set_len is Ok,
                q.push(set),
                total as int,
                end as int,
                new_end as int,
            ));
        }
        match set_len {
            Ok(done) => {
                assert(done == ());
            },
            Err(e) => return Err(e),
        }
        assert((*st).bytes().subrange(0, new_end as int) =~= b.subrange(0, new_end as int));
        assert((*st).bytes().skip(new_end as int) =~= b.skip(end as int));
    } else {
        proof {
            lemma_noted_none(log);
            assert(room_requests(
                true,
                Seq::empty(),
                total as int,
                end as int,
                new_end as int,
            ));
        }
    }
    Ok(())
}

/// Whether a patch fits a document of `total` bytes.
pub open spec fn applies(c: Change, total: nat) -> bool {
    c.start <= c.end <= total
}

/// Whether a patch fits a document, and 64 bits count the bytes that it puts there and those of the
/// document that comes of it.
pub open spec fn applicable<V: ToJson + ?Sized>(b: Seq<u8>, c: Change, value: &V) -> bool {
    &&& applies(c, b.len())
    &&& content(c.shape, value).len() < u64::MAX
    &&& edited(b, c, value).len() <= u64::MAX
}

/// The result of applying a patch to a document in a storage: `before` became `after`.
pub open spec fn applied<St: Storage, V: ToJson + ?Sized>(
    r: Result<Span, Error<St::Error>>,
    before: St,
    after: St,
    c: Change,
    value: &V,
) -> bool {
    let new = edited(before.bytes(), c, value);
    &&& after.wf()
    &&& after.limit() == before.limit()
    &&& match r {
        Ok(span) => {
            &&& applicable(before.bytes(), c, value)
            &&& after.bytes() == new
            &&& span.start == c.start
            &&& span.end == c.start + content(c.shape, value).len()
            &&& before.limit() matches Some(n) ==> new.len() <= n
        },
        Err(Error::Json { kind, offset }) => {
            &&& kind == ErrorKind::InvalidState
            &&& offset == c.start
            &&& !applicable(before.bytes(), c, value)
        },
        Err(Error::Io(_)) => before.limit() matches Some(n) ==> {
            &&& applicable(before.bytes(), c, value)
            &&& new.len() > n
        },
    }
    &&& r is Err && (before.limit() is Some || !applicable(before.bytes(), c, value))
        ==> after.bytes() == before.bytes()
}

/// Applies `patch` to the document in `st`, in place, writing `value` (ignored for
/// removals). Hands the storage back, and the span of the new content.
///
/// Fails with [`ErrorKind::InvalidState`] if the patch does not fit the document, or 64 bits do
/// not count the bytes of the new one.
///
/// The document tail after the patch is moved once, through `scratch` (any size; larger
/// is faster for storage that does not implement [`Storage::move_within`] natively).
pub fn apply<St: Storage, V: ToJson + ?Sized>(
    st: St,
    patch: &Patch<'_>,
    value: &V,
    scratch: &mut [u8],
) -> (r: (St, Result<Span, Error<St::Error>>))
    requires
        st.wf(),
    ensures
        applied(r.1, st, r.0, patch@, value),
        followed(r.1 is Ok, st.log(), r.0.log(), st.bytes(), patch@, value),
        // The length is asked for first. Then, to grow, it is set before the tail is moved, once;
        // to shrink, after that. A request that fails is the last one, and ends the edit.
        exists|l: &mut St, n: Result<u64, St::Error>|
            {
                let total = st.bytes().len();
                let new_end = (patch@.start + content(patch@.shape, value).len()) as u64;
                let end = patch@.end as u64;
                &&& #[trigger] call_ensures(St::len, (l,), n)
                &&& *l == st
                &&& n matches Err(e) ==> r.1 == Err::<Span, Error<St::Error>>(Error::Io(e))
                    && r.0 == *final(l)
                &&& n is Ok && applicable(st.bytes(), patch@, value) && new_end > end ==> exists|
                    a: &mut St,
                    x: Result<(), St::Error>,
                |
                    {
                        &&& #[trigger] call_ensures(
                            St::set_len,
                            (a, (total + (new_end - end)) as u64),
                            x,
                        )
                        &&& *a == *final(l)
                        &&& x matches Err(e) ==> r.1 == Err::<Span, Error<St::Error>>(
                            Error::Io(e),
                        ) && r.0 == *final(a)
                        &&& x is Ok ==> exists|b: &mut St, s: &mut [u8], y: Result<(), St::Error>|
                            {
                                &&& #[trigger] call_ensures(
                                    St::move_within,
                                    (b, end, new_end, (total - end) as u64, s),
                                    y,
                                )
                                &&& *b == *final(a)
                                &&& y matches Err(e) ==> r.1 == Err::<Span, Error<St::Error>>(
                                    Error::Io(e),
                                ) && r.0 == *final(b)
                            }
                    }
                &&& n is Ok && applicable(st.bytes(), patch@, value) && new_end < end ==> exists|
                    b: &mut St,
                    s: &mut [u8],
                    y: Result<(), St::Error>,
                |
                    {
                        &&& #[trigger] call_ensures(
                            St::move_within,
                            (b, end, new_end, (total - end) as u64, s),
                            y,
                        )
                        &&& *b == *final(l)
                        &&& y matches Err(e) ==> r.1 == Err::<Span, Error<St::Error>>(
                            Error::Io(e),
                        ) && r.0 == *final(b)
                        &&& y is Ok ==> exists|a: &mut St, x: Result<(), St::Error>|
                            {
                                &&& #[trigger] call_ensures(
                                    St::set_len,
                                    (a, (total - (end - new_end)) as u64),
                                    x,
                                )
                                &&& *a == *final(b)
                                &&& x matches Err(e) ==> r.1 == Err::<Span, Error<St::Error>>(
                                    Error::Io(e),
                                ) && r.0 == *final(a)
                            }
                    }
            },
{
    let (st, _, r) = apply_through(st, patch, value, scratch);
    (st, r)
}

/// Like [`apply`]. Hands the buffer back too.
pub(crate) fn apply_through<'a, St: Storage, V: ToJson + ?Sized>(
    st: St,
    patch: &Patch<'_>,
    value: &V,
    scratch: &'a mut [u8],
) -> (r: (St, &'a mut [u8], Result<Span, Error<St::Error>>))
    requires
        st.wf(),
    ensures
        applied(r.2, st, r.0, patch@, value),
        followed(r.2 is Ok, st.log(), r.0.log(), st.bytes(), patch@, value),
        // The length is asked for first. Then, to grow, it is set before the tail is moved, once;
        // to shrink, after that. A request that fails is the last one, and ends the edit.
        exists|l: &mut St, n: Result<u64, St::Error>|
            {
                let total = st.bytes().len();
                let new_end = (patch@.start + content(patch@.shape, value).len()) as u64;
                let end = patch@.end as u64;
                &&& #[trigger] call_ensures(St::len, (l,), n)
                &&& *l == st
                &&& n matches Err(e) ==> r.2 == Err::<Span, Error<St::Error>>(Error::Io(e))
                    && r.0 == *final(l)
                &&& n is Ok && applicable(st.bytes(), patch@, value) && new_end > end ==> exists|
                    a: &mut St,
                    x: Result<(), St::Error>,
                |
                    {
                        &&& #[trigger] call_ensures(
                            St::set_len,
                            (a, (total + (new_end - end)) as u64),
                            x,
                        )
                        &&& *a == *final(l)
                        &&& x matches Err(e) ==> r.2 == Err::<Span, Error<St::Error>>(
                            Error::Io(e),
                        ) && r.0 == *final(a)
                        &&& x is Ok ==> exists|b: &mut St, s: &mut [u8], y: Result<(), St::Error>|
                            {
                                &&& #[trigger] call_ensures(
                                    St::move_within,
                                    (b, end, new_end, (total - end) as u64, s),
                                    y,
                                )
                                &&& *b == *final(a)
                                &&& y matches Err(e) ==> r.2 == Err::<Span, Error<St::Error>>(
                                    Error::Io(e),
                                ) && r.0 == *final(b)
                            }
                    }
                &&& n is Ok && applicable(st.bytes(), patch@, value) && new_end < end ==> exists|
                    b: &mut St,
                    s: &mut [u8],
                    y: Result<(), St::Error>,
                |
                    {
                        &&& #[trigger] call_ensures(
                            St::move_within,
                            (b, end, new_end, (total - end) as u64, s),
                            y,
                        )
                        &&& *b == *final(l)
                        &&& y matches Err(e) ==> r.2 == Err::<Span, Error<St::Error>>(
                            Error::Io(e),
                        ) && r.0 == *final(b)
                        &&& y is Ok ==> exists|a: &mut St, x: Result<(), St::Error>|
                            {
                                &&& #[trigger] call_ensures(
                                    St::set_len,
                                    (a, (total - (end - new_end)) as u64),
                                    x,
                                )
                                &&& *a == *final(b)
                                &&& x matches Err(e) ==> r.2 == Err::<Span, Error<St::Error>>(
                                    Error::Io(e),
                                ) && r.0 == *final(a)
                            }
                    }
            },
        r.1@.len() == old(scratch)@.len(),
{
    let ghost before = st;
    let mut st = st;
    let content = patch.content(value);
    let new_len = encoded_len(&content);
    let ghost text = encoding(&content);
    let total = match measure(&mut st) {
        Ok(n) => n,
        Err(e) => return (st, scratch, Err(Error::Io(e))),
    };
    let (start, end) = (patch.start, patch.end);
    proof {
        st.bounds();
    }
    if start > end || end > total || new_len == u64::MAX || new_len > u64::MAX - start || total
        - end > u64::MAX - start - new_len {
        return (
            st,
            scratch,
            Err(Error::Json { kind: ErrorKind::InvalidState, offset: start }),
        );
    }
    let new_end = start + new_len;
    let ghost asked = st.log();
    let made = make_room(&mut st, total, end, new_end, scratch);
    let ghost q = choose|q: Seq<Request>|
        {
            &&& #[trigger] room_requests(made is Ok, q, total as int, end as int, new_end as int)
            &&& st.log() == noted_all(asked, q)
        };
    match made {
        Ok(_) => {},
        Err(e) => {
            assert(room_requests(false, q, total as int, end as int, new_end as int));
            return (st, scratch, Err(Error::Io(e)));
        },
    }
    let size = scratch.len();
    let ghost asked_now = st.log();
    let w = StorageWriter {
        st,
        pos: start,
        end: new_end,
        buf: scratch,
        n: 0,
        over: false,
        dropped: Ghost(Seq::empty()),
        start: Ghost(start as int),
        asked: Ghost(st.log()),
    };
    proof {
        lemma_wrote_nothing(st.log(), start as int, new_end as int);
    }
    let ghost tail = before.bytes().skip(end as int);
    let ghost head = before.bytes().subrange(0, start as int);
    proof {
        let b = st.bytes();
        let least = if end < new_end {
            end
        } else {
            new_end
        };
        assert(b.subrange(0, start as int) =~= b.subrange(0, least as int).subrange(
            0,
            start as int,
        ));
        assert(head =~= before.bytes().subrange(0, least as int).subrange(0, start as int));
        assert(w.written() =~= head);
        assert(w.kept().sent == tail);
    }
    let mut out = JsonWriter::new(w);
    let r = content.to_json(&mut out);
    let mut w = out.into_inner();
    proof {
        lemma_followed(false, before.log(), asked_now, w.st.log(), before.bytes(), patch@, value, q);
    }
    match r {
        Ok(_) => {},
        Err(e) => return (w.st, w.buf, Err(Error::Io(e))),
    }
    if w.over {
        // `value` wrote more on the second call than when it was measured.
        return (
            w.st,
            w.buf,
            Err(Error::Json { kind: ErrorKind::InvalidState, offset: start }),
        );
    }
    let finished = w.finish();
    proof {
        let ok = finished is Ok;
        lemma_followed(ok, before.log(), asked_now, w.st.log(), before.bytes(), patch@, value, q);
    }
    match finished {
        Ok(_) => {},
        Err(e) => return (w.st, w.buf, Err(Error::Io(e))),
    }
    assert(w.st.bytes() =~= edited(before.bytes(), patch@, value));
    (w.st, w.buf, Ok(Span { start, end: new_end }))
}

/// Where in the input a copy stops: at offset `until` (or at the end of the input if `None`).
spec fn stop(feed: Feed, until: Option<u64>) -> int {
    match until {
        Some(u) => u - feed.origin,
        None => feed.input.len() as int,
    }
}

/// The smaller of two numbers.
pub open spec fn least(a: int, b: int) -> int {
    if a < b {
        a
    } else {
        b
    }
}

/// How many of the `n` bytes that are buffered lie before offset `until`, if `at` is the
/// offset of the first.
fn up_to(at: u64, n: usize, until: Option<u64>) -> (r: usize)
    requires
        until matches Some(u) ==> at <= u,
    ensures
        r == least(n as int, match until {
            Some(u) => u - at,
            None => n as int,
        }),
{
    match until {
        Some(u) => if u - at < n as u64 {
            (u - at) as usize
        } else {
            n
        },
        None => n,
    }
}

/// Copies bytes from `src` to `dst` until offset `until` (or the end of input if `None`).
fn pump<S: Source, W: Write>(src: &mut S, dst: &mut W, until: Option<u64>) -> (r: PipeResult<
    (),
    S,
    W,
>)
    requires
        (*old(src)).wf(),
        (*old(dst)).wf(),
        until matches Some(u) ==> (*old(src)).feed().origin + (*old(src)).at() <= u,
    ensures
        (*final(src)).wf(),
        (*final(dst)).wf(),
        ({
            let f = (*old(src)).feed();
            let at = (*old(src)).at();
            let to = stop(f, until);
            let len = f.input.len() as int;
            match r {
                Ok(_) => {
                    &&& to <= len
                    &&& (*final(src)).feed() == f
                    &&& (*final(src)).at() == to
                    &&& wrote(true, &*old(dst), &*final(dst), f.input.subrange(at, to))
                },
                Err(Error::Json { kind, offset }) => {
                    &&& to > len
                    &&& kind == ErrorKind::UnexpectedEof
                    &&& offset == f.origin + len
                },
                Err(Error::Io(_)) => !(f.reliable && takes(
                    (*old(dst)).bound(),
                    (*old(dst)).written().len(),
                    (least(to, len) - at) as nat,
                )),
            }
        }),
{
    let ghost f = (*src).feed();
    let ghost from = (*src).at();
    let ghost to = stop(f, until);
    proof {
        (*src).bounds();
        assert(f.input.subrange(from, from) =~= Seq::<u8>::empty());
        assert((*dst).written() + Seq::<u8>::empty() =~= (*dst).written());
    }
    loop
        invariant
            (*src).wf(),
            (*dst).wf(),
            f == (*old(src)).feed(),
            from == (*old(src)).at(),
            to == stop(f, until),
            (*src).feed() == f,
            0 <= from <= (*src).at() <= to,
            (*src).at() <= f.input.len(),
            wrote(true, &*old(dst), &*dst, f.input.subrange(from, (*src).at())),
        decreases f.input.len() - (*src).at(),
    {
        let ghost at = (*src).at();
        let ghost held = *dst;
        proof {
            (*src).bounds();
        }
        let offset = src.offset();
        if let Some(u) = until {
            if u == offset {
                return Ok(());
            }
        }
        let buf = match src.fill() {
            Ok(buf) => buf,
            Err(e) => return Err(Error::Io(PipeError::Read(e))),
        };
        if buf.len() == 0 {
            return match until {
                None => Ok(()),
                Some(_) => Err(Error::Json { kind: ErrorKind::UnexpectedEof, offset }),
            };
        }
        let n = up_to(offset, buf.len(), until);
        let part = slice_subrange(buf, 0, n);
        assert(part@ =~= f.input.subrange(at, at + n));
        proof {
            assert(f.input.subrange(from, at) + part@ =~= f.input.subrange(from, at + n));
        }
        match dst.write_all(part) {
            Ok(_) => {},
            Err(e) => return Err(Error::Io(PipeError::Write(e))),
        }
        proof {
            lemma_wrote(true, &*old(dst), &held, &*dst, f.input.subrange(from, at), part@);
        }
        src.consume(n);
    }
}

/// Drops bytes of `src` until offset `until`.
fn drop_until<S: Source, W: Write>(src: &mut S, until: u64) -> (r: PipeResult<(), S, W>)
    requires
        (*old(src)).wf(),
        (*old(src)).feed().origin + (*old(src)).at() <= until,
    ensures
        (*final(src)).wf(),
        ({
            let f = (*old(src)).feed();
            let to = until - f.origin;
            let len = f.input.len() as int;
            match r {
                Ok(_) => {
                    &&& to <= len
                    &&& (*final(src)).feed() == f
                    &&& (*final(src)).at() == to
                },
                Err(Error::Json { kind, offset }) => {
                    &&& to > len
                    &&& kind == ErrorKind::UnexpectedEof
                    &&& offset == f.origin + len
                },
                Err(Error::Io(_)) => !f.reliable,
            }
        }),
{
    let ghost f = (*src).feed();
    proof {
        (*src).bounds();
    }
    loop
        invariant
            (*src).wf(),
            f == (*old(src)).feed(),
            (*src).feed() == f,
            f.origin + (*src).at() <= until,
            (*src).at() <= f.input.len(),
        decreases f.input.len() - (*src).at(),
    {
        proof {
            (*src).bounds();
        }
        let offset = src.offset();
        if offset == until {
            return Ok(());
        }
        let len = match src.fill() {
            Ok(buf) => buf.len(),
            Err(e) => return Err(Error::Io(PipeError::Read(e))),
        };
        if len == 0 {
            return Err(Error::Json { kind: ErrorKind::UnexpectedEof, offset });
        }
        src.consume(up_to(offset, len, Some(until)));
    }
}

/// What a copy of `input` from `at` on writes, if a change puts `new` in place of its bytes
/// from `start` to `end`; as far as `input` goes.
pub open spec fn patched(input: Seq<u8>, at: int, start: int, end: int, new: Seq<u8>) -> Seq<u8> {
    let len = input.len() as int;
    input.subrange(at, least(start, len)) + (if start <= len {
        new
    } else {
        Seq::empty()
    }) + (if end <= len {
        input.skip(end)
    } else {
        Seq::empty()
    })
}

/// Copies the document from `src` to `dst`, applying `patch` on the way. Hands `dst` back.
///
/// `src` must be positioned at or before `patch.start` (typically a fresh source over the
/// same data that was used to [`plan`] the patch).
pub fn apply_copy<S: Source, W: Write, V: ToJson + ?Sized>(
    src: S,
    dst: W,
    patch: &Patch<'_>,
    value: &V,
) -> (r: PipeResult<W, S, W>)
    requires
        src.wf(),
        dst.wf(),
    ensures
        ({
            let f = src.feed();
            let start = patch@.start - f.origin;
            let end = patch@.end - f.origin;
            let len = f.input.len();
            let new = patched(f.input, src.at(), start, end, content(patch@.shape, value));
            match r {
                Ok(w) => {
                    &&& src.at() <= start <= end <= len
                    &&& wrote(true, &dst, &w, new)
                    &&& exists|x: &mut W|
                        {
                            &&& #[trigger] call_ensures(W::flush, (x,), Ok(()))
                            &&& (*x).written() == dst.written() + new
                            &&& *final(x) == w
                        }
                },
                Err(Error::Json { kind, offset }) => if src.at() <= start <= end {
                    end > len && kind == ErrorKind::UnexpectedEof && offset == f.origin + len
                } else {
                    kind == ErrorKind::InvalidState && offset == f.origin + src.at()
                },
                Err(Error::Io(_)) => {
                    &&& src.at() <= start <= end
                    &&& !(f.reliable && takes(dst.bound(), dst.written().len(), new.len()))
                },
            }
        }),
{
    let ghost f = src.feed();
    let ghost at = src.at();
    let ghost s = patch@.start - f.origin;
    let ghost e = patch@.end - f.origin;
    let ghost new = content(patch@.shape, value);
    let ghost before = dst;
    proof {
        src.bounds();
    }
    let mut src = src;
    let mut dst = dst;
    let offset = src.offset();
    if offset > patch.start || patch.start > patch.end {
        return Err(Error::Json { kind: ErrorKind::InvalidState, offset });
    }
    pump(&mut src, &mut dst, Some(patch.start))?;
    let ghost m = dst;
    let mut dst = match patch.write_content(dst, value) {
        Ok(w) => w,
        Err(e) => return Err(Error::Io(PipeError::Write(e))),
    };
    proof {
        lemma_wrote(true, &before, &m, &dst, f.input.subrange(at, s), new);
    }
    drop_until::<S, W>(&mut src, patch.end)?;
    let ghost m = dst;
    proof {
        assert(f.input.subrange(e, f.input.len() as int) =~= f.input.skip(e));
    }
    pump(&mut src, &mut dst, None)?;
    proof {
        lemma_wrote(true, &before, &m, &dst, f.input.subrange(at, s) + new, f.input.skip(e));
    }
    match forward(W::flush, &mut dst) {
        Ok(done) => {
            assert(done == ());
            Ok(dst)
        },
        Err(e) => Err(Error::Io(PipeError::Write(e))),
    }
}

/// What [`copy_edit`] writes: the input from `at` on, as it is or changed.
pub open spec fn copy_of<V: ToJson + ?Sized>(
    input: Seq<u8>,
    at: int,
    c: Option<Change>,
    value: &V,
) -> Seq<u8> {
    match c {
        None => input.skip(at),
        Some(c) => patched(input, at, c.start, c.end, content(c.shape, value)),
    }
}

/// How much [`copy_edit`] may have to write.
pub open spec fn copy_size<V: ToJson + ?Sized>(
    input: Seq<u8>,
    at: int,
    c: Outcome<Option<Change>>,
    value: &V,
) -> nat {
    (input.len() - at + match c {
        Outcome::Done(Some(c), _) => content(c.shape, value).len() as int,
        _ => 0,
    }) as nat
}

/// Passes over the value that is replaced, and writes the new content.
fn replace_copy<S: Source, W: Write, V: ToJson + ?Sized, const N: usize>(
    p: Parser<Tee<S, W>, N>,
    target: &Target<'_>,
    value: &V,
) -> (r: PipeResult<Tee<S, W>, S, W>)
    requires
        p.wf(),
        !(p.state is InStr),
        p.feed().kept.copying,
    ensures
        ({
            let f = p.feed();
            let at = p.cursor().at;
            let new = content(target.kind@, value);
            let o = if target.replace {
                skip(p.doc(), p.cursor())
            } else {
                Outcome::Done((), p.cursor())
            };
            match r {
                Ok(t) => {
                    &&& t.wf()
                    &&& o matches Outcome::Done(_, c) && t.at() == c.at
                    &&& t.output() == p.inner().output() + new
                    &&& t.feed().input == f.input
                    &&& t.feed().kept.bound == f.kept.bound
                    &&& f.reliable && takes(
                        f.kept.bound,
                        f.kept.sent.len(),
                        (f.input.len() - f.kept.from + new.len()) as nat,
                    ) ==> t.feed().reliable
                },
                Err(Error::Json { kind, offset }) => match o {
                    Outcome::Done(_, _) => false,
                    Outcome::Refused(g, _) => kind == g.kind && offset == f.origin + g.at,
                    Outcome::Broken(g) => kind == g.kind && offset == f.origin + g.at,
                },
                Err(Error::Io(_)) => !(f.reliable && takes(
                    f.kept.bound,
                    f.kept.sent.len(),
                    (f.input.len() - f.kept.from + (if o is Done {
                        new.len()
                    } else {
                        0
                    })) as nat,
                )),
            }
        }),
{
    let ghost f = p.feed();
    let ghost out = p.inner().output();
    let ghost new = content(target.kind@, value);
    let mut p = p;
    proof {
        p.src.parts();
        p.src.bounds();
        lemma_skip(p.doc(), p.cursor());
    }
    match p.src.set_enabled(false) {
        Ok(_) => {},
        Err(e) => return Err(Error::Io(e)),
    }
    proof {
        p.src.parts();
    }
    if target.replace {
        p.skip_value()?;
    }
    proof {
        p.src.parts();
        p.src.bounds();
    }
    match p.src.set_enabled(true) {
        Ok(_) => {},
        Err(e) => return Err(Error::Io(e)),
    }
    proof {
        p.src.parts();
    }
    let (src, dst) = p.into_source().into_parts();
    let ghost m = dst;
    let content = Content { kind: target.kind, value };
    let mut w = JsonWriter::new(dst);
    match content.to_json(&mut w) {
        Ok(_) => {},
        Err(e) => return Err(Error::Io(PipeError::Write(e))),
    }
    Ok(Tee::new(src, w.into_inner()))
}

/// What is written on the way to a change, for it and behind it makes up the copy.
proof fn lemma_copied(input: Seq<u8>, at: int, start: int, end: int, held: Seq<u8>, new: Seq<u8>)
    requires
        0 <= at <= start <= end <= input.len(),
    ensures
        held + input.subrange(at, start) + new + input.skip(end) == held + patched(
            input,
            at,
            start,
            end,
            new,
        ),
        held + input.subrange(at, start) + input.skip(start) == held + input.skip(at),
{
    assert(held + input.subrange(at, start) + new + input.skip(end) =~= held + patched(
        input,
        at,
        start,
        end,
        new,
    ));
    assert(held + input.subrange(at, start) + input.skip(start) =~= held + input.skip(at));
}

/// Copies the rest of the input. Hands the writer back.
fn copy_tail<S: Source, W: Write>(tee: Tee<S, W>) -> (r: PipeResult<W, S, W>)
    requires
        tee.wf(),
    ensures
        match r {
            Ok(w) => {
                &&& w.wf()
                &&& w.written() == tee.output() + tee.feed().input.skip(tee.at())
                &&& w.bound() == tee.feed().kept.bound
                &&& w.bound() matches Bound::Upto(n) ==> w.written().len() <= n
                &&& exists|x: &mut W|
                    {
                        &&& #[trigger] call_ensures(W::flush, (x,), Ok(()))
                        &&& (*x).written() == w.written()
                        &&& *final(x) == w
                    }
            },
            Err(Error::Io(_)) => !tee.feed().reliable,
            Err(_) => false,
        },
{
    let mut tee = tee;
    match tee.copy_rest() {
        Ok(_) => {},
        Err(e) => return Err(Error::Io(e)),
    }
    proof {
        tee.parts();
        tee.writer_now().bounds();
    }
    Ok(tee.into_parts().1)
}

/// Copies the document from `src` to `dst` in a single pass, applying `op` at `path`.
///
/// Memory use is the parser (default 64 nesting levels) plus whatever buffer `src` has.
/// Returns whether the operation applied, and `dst`; if it did not, the output is an exact
/// copy.
#[verifier::rlimit(40)]
pub fn copy_edit<S: Source, W: Write, P: Path + ?Sized, V: ToJson + ?Sized>(
    src: S,
    dst: W,
    op: Op,
    path: &P,
    value: &V,
) -> (r: PipeResult<(bool, W), S, W>)
    requires
        src.wf(),
        dst.wf(),
    ensures
        ({
            let f = src.feed();
            let d = Doc { bytes: f.input, limit: 64, multi: false };
            let o = change(d, start(src.at()), op, path.steps());
            match r {
                Ok((found, w)) => {
                    &&& o matches Outcome::Done(c, _) && found == (c is Some) && w.written()
                        == dst.written() + copy_of(f.input, src.at(), c, value)
                    &&& w.wf()
                    &&& w.bound() == dst.bound()
                    &&& dst.bound() matches Bound::Upto(n) ==> w.written().len() <= n
                    &&& exists|x: &mut W|
                        {
                            &&& #[trigger] call_ensures(W::flush, (x,), Ok(()))
                            &&& (*x).written() == w.written()
                            &&& *final(x) == w
                        }
                },
                Err(Error::Json { kind, offset }) => match o {
                    Outcome::Done(_, _) => false,
                    Outcome::Refused(g, _) => kind == g.kind && offset == f.origin + g.at,
                    Outcome::Broken(g) => kind == g.kind && offset == f.origin + g.at,
                },
                Err(Error::Io(_)) => !(f.reliable && takes(
                    dst.bound(),
                    dst.written().len(),
                    copy_size(f.input, src.at(), o, value),
                )),
            }
        }),
{
    let ghost f = src.feed();
    let ghost at = src.at();
    proof {
        src.bounds();
    }
    let mut p = Parser::new(Tee::new(src, dst));
    let target = locate(&mut p, op, path)?;
    proof {
        p.src.parts();
        p.src.bounds();
        lemma_spot(p.doc(), start(at), op, path.steps());
    }
    match target {
        Some(t) => {
            let ghost c = p.cursor().at;
            proof {
                lemma_skip(p.doc(), p.cursor());
            }
            let tee = replace_copy(p, &t, value)?;
            proof {
                tee.bounds();
                lemma_copied(f.input, at, c, tee.at(), dst.written(), content(t.kind@, value));
            }
            Ok((true, copy_tail(tee)?))
        },
        None => {
            proof {
                lemma_copied(f.input, at, p.cursor().at, p.cursor().at, dst.written(), Seq::empty());
            }
            Ok((false, copy_tail(p.into_source())?))
        },
    }
}

/// The ways to edit agree: a change that lies within a document gives the same bytes whether it is
/// applied in place, while copying in a second pass, or while copying in a single pass.
pub proof fn law_ways_agree<V: ToJson + ?Sized>(s: Seq<u8>, c: Change, value: &V)
    requires
        0 <= c.start <= c.end <= s.len(),
    ensures
        patched(s, 0, c.start, c.end, content(c.shape, value)) == edited(s, c, value),
        copy_of(s, 0, Some(c), value) == edited(s, c, value),
        copy_of(s, 0, None, value) == s,
{
    assert(s.skip(0) =~= s);
}

/// A change moves nothing in front of it, and what follows it only as a whole: by as much as the
/// document becomes longer or shorter, which [`Patch::delta`] tells. A removal puts nothing in.
pub proof fn law_edit_local<V: ToJson + ?Sized>(s: Seq<u8>, c: Change, value: &V)
    requires
        0 <= c.start <= c.end <= s.len(),
    ensures
        ({
            let t = edited(s, c, value);
            let new = content(c.shape, value);
            &&& t.len() == s.len() + new.len() - (c.end - c.start)
            &&& t.subrange(0, c.start) == s.subrange(0, c.start)
            &&& t.subrange(c.start, c.start + new.len()) == new
            &&& t.skip(c.start + new.len()) == s.skip(c.end)
            &&& c.shape is Remove ==> new.len() == 0
        }),
{
    let t = edited(s, c, value);
    let new = content(c.shape, value);
    assert(t.subrange(0, c.start) =~= s.subrange(0, c.start));
    assert(t.subrange(c.start, c.start + new.len()) =~= new);
    assert(t.skip(c.start + new.len()) =~= s.skip(c.end));
}

} // verus!
