//! The [`Editor`].

use vstd::pervasive::unreached;
use vstd::prelude::*;
use crate::cursor::{seek, span, Doc, Outcome};
use crate::error::{Error, ErrorKind};
use crate::grammar::value;
use crate::parser::{start, Parser};
use crate::stack::max_levels;
use crate::path::Path;
use crate::writer::ToJson;
use crate::Span;
use super::storage::{but_reads, noted, storage_feed, Request, Storage, StorageSource};
use super::plan::{
    change, law_change_within, law_removal_within, plan, plan_remove, removal, Change, Op, Patch,
    Shape,
};
use super::apply::{applicable, applied, apply, apply_through, edited, followed};

verus! {

/// Between the records `a` and `b`, if they are kept, the length of the document was asked for, and
/// it was read.
pub open spec fn looked(a: Option<Seq<Request>>, b: Option<Seq<Request>>) -> bool {
    but_reads(b) == but_reads(noted(a, Request::Len))
}

/// Between the records `a` and `b`, if they are kept, the document was looked at, and then changed
/// as `o` says, if it was.
pub open spec fn looked_and<V: ToJson + ?Sized>(
    ok: bool,
    a: Option<Seq<Request>>,
    b: Option<Seq<Request>>,
    doc: Seq<u8>,
    o: Outcome<Option<Change>>,
    value: &V,
) -> bool {
    ||| !(ok && o matches Outcome::Done(Some(_), _)) && looked(a, b)
    ||| o matches Outcome::Done(Some(c), _) && exists|m: Option<Seq<Request>>|
        #[trigger] looked(a, m) && followed(ok, m, b, doc, c, value)
}

/// The result of an edit in place: the document in `before` became that in `after`, as the
/// change `o` says.
pub open spec fn edits<St: Storage, V: ToJson + ?Sized>(
    r: Result<bool, Error<St::Error>>,
    before: St,
    after: St,
    o: Outcome<Option<Change>>,
    value: &V,
) -> bool {
    let b = before.bytes();
    &&& match r {
        Ok(found) => {
            &&& o matches Outcome::Done(c, _) && found == (c is Some) && after.bytes() == (match c {
                Some(c) => edited(b, c, value),
                None => b,
            })
            &&& before.limit() matches Some(n) ==> after.bytes().len() <= n
        },
        Err(Error::Json { kind, offset }) => match o {
            Outcome::Done(Some(c), _) => {
                &&& kind == ErrorKind::InvalidState
                &&& offset == c.start
                &&& !applicable(b, c, value)
                &&& after.bytes() == b
            },
            Outcome::Done(None, _) => false,
            Outcome::Refused(f, _) => kind == f.kind && offset == f.at && after.bytes() == b,
            Outcome::Broken(f) => kind == f.kind && offset == f.at && after.bytes() == b,
        },
        Err(Error::Io(_)) => before.limit() matches Some(n) ==> (o matches Outcome::Done(
            Some(c),
            _,
        ) && applicable(b, c, value) && edited(b, c, value).len() > n),
    }
    &&& after.limit() == before.limit()
    &&& r is Err && before.limit() is Some ==> after.bytes() == b
    &&& !(o matches Outcome::Done(Some(_), _)) ==> after.bytes() == b
    &&& looked_and(r is Ok, before.log(), after.log(), b, o, value)
}

/// Edits a JSON document in [`Storage`] in place.
#[derive(Debug)]
pub struct Editor<'s, St, const N: usize> {
    /// The storage and the scratch buffer, which are away only while they are in use.
    inner: Option<(St, &'s mut [u8])>,
}

impl<'s, St: Storage> Editor<'s, St, 8> {
    /// Creates an editor over `storage` with the default nesting depth (64). `scratch` is
    /// used to read and move data; it must not be empty.
    pub fn new(storage: St, scratch: &'s mut [u8]) -> (r: Self)
        requires
            storage.wf(),
            old(scratch)@.len() > 0,
        ensures
            r.wf(),
            r.now() == storage,
    {
        Self::with_stack(storage, scratch)
    }
}

impl<'s, St: Storage, const N: usize> Editor<'s, St, N> {
    /// The storage.
    pub closed spec fn now(&self) -> St {
        self.inner->Some_0.0
    }

    /// The editor's invariant.
    pub closed spec fn wf(&self) -> bool {
        &&& self.inner is Some
        &&& self.inner->Some_0.0.wf()
        &&& self.inner->Some_0.1@.len() > 0
    }

    /// The document, and how it is parsed.
    pub open spec fn doc(&self) -> Doc {
        Doc { bytes: self.now().bytes(), limit: max_levels(N as int), multi: false }
    }

    /// Creates an editor whose parser has a nesting stack of `N` bytes (`8 * N` levels).
    pub fn with_stack(storage: St, scratch: &'s mut [u8]) -> (r: Self)
        requires
            storage.wf(),
            old(scratch)@.len() > 0,
        ensures
            r.wf(),
            r.now() == storage,
    {
        Self { inner: Some((storage, scratch)) }
    }

    /// The storage.
    pub fn storage(&self) -> (r: &St)
        requires
            self.wf(),
        ensures
            *r == self.now(),
    {
        match &self.inner {
            Some(x) => &x.0,
            None => unreached(),
        }
    }

    /// The storage.
    pub fn storage_mut(&mut self) -> (r: &mut St)
        requires
            old(self).wf(),
        ensures
            *r == old(self).now(),
            final(self).now() == *final(r),
            (*final(r)).wf() ==> final(self).wf(),
    {
        match &mut self.inner {
            Some(x) => &mut x.0,
            None => unreached(),
        }
    }

    /// Returns the storage.
    pub fn into_inner(self) -> (r: St)
        requires
            self.wf(),
        ensures
            r == self.now(),
            r.wf(),
    {
        match self.inner {
            Some(x) => x.0,
            None => unreached(),
        }
    }

    /// Takes the storage and the buffer out, for a parser at the start of the document.
    fn open(&mut self) -> (r: Result<Parser<StorageSource<'s, St>, N>, Error<St::Error>>)
        requires
            old(self).wf(),
        ensures
            match r {
                Ok(p) => {
                    &&& p.wf()
                    &&& p.feed() == storage_feed(
                        old(self).now().bytes(),
                        old(self).now().limit(),
                        noted(old(self).now().log(), Request::Len),
                        0,
                    )
                    &&& p.doc() == old(self).doc()
                    &&& p.cursor() == start(0)
                },
                Err(Error::Io(_)) => {
                    &&& final(self).wf()
                    &&& old(self).now().limit() is None
                    &&& final(self).now().bytes() == old(self).now().bytes()
                    &&& final(self).now().limit() is None
                    &&& final(self).now().log() == noted(old(self).now().log(), Request::Len)
                },
                Err(_) => false,
            },
    {
        match self.inner.take() {
            Some((st, scratch)) => {
                let mut st = st;
                match st.len() {
                    Ok(len) => Ok(Parser::with_stack(StorageSource::over(st, scratch, len))),
                    Err(e) => {
                        self.inner = Some((st, scratch));
                        Err(Error::Io(e))
                    },
                }
            },
            None => unreached(),
        }
    }

    /// Puts the storage and the buffer back.
    fn close(&mut self, p: Parser<StorageSource<'s, St>, N>)
        requires
            p.wf(),
        ensures
            final(self).wf(),
            p.feed().origin == 0 ==> final(self).now().bytes() == p.feed().input,
            final(self).now().limit() == p.feed().kept.limit,
            but_reads(final(self).now().log()) == p.feed().kept.asked,
    {
        self.inner = Some(p.into_source().into_parts());
    }

    /// Runs `f` with a parser positioned at the start of the document.
    pub fn parse<T, F>(&mut self, f: F) -> (r: Result<T, Error<St::Error>>) where
        F: FnOnce(&mut Parser<StorageSource<'s, St>, N>) -> Result<T, Error<St::Error>>,

        requires
            old(self).wf(),
            forall|p: &mut Parser<StorageSource<'s, St>, N>|
                {
                    &&& (*p).wf()
                    &&& (*p).feed() == storage_feed(
                        old(self).now().bytes(),
                        old(self).now().limit(),
                        noted(old(self).now().log(), Request::Len),
                        0,
                    )
                    &&& (*p).doc() == old(self).doc()
                    &&& (*p).cursor() == start(0)
                } ==> #[trigger] call_requires(f, (p,)),
            forall|p: &mut Parser<StorageSource<'s, St>, N>, x: Result<T, Error<St::Error>>|
                #[trigger] call_ensures(f, (p,), x) && (*p).wf() ==> (*final(p)).wf(),
        ensures
            final(self).wf(),
            ({
                let b = old(self).now().bytes();
                let limit = old(self).now().limit();
                ||| {
                    &&& r matches Err(Error::Io(_))
                    &&& limit is None
                    &&& final(self).now().bytes() == b
                }
                ||| exists|p: &mut Parser<StorageSource<'s, St>, N>|
                    {
                        &&& (*p).wf()
                        &&& (*p).feed() == storage_feed(
                            b,
                            limit,
                            noted(old(self).now().log(), Request::Len),
                            0,
                        )
                        &&& (*p).doc() == old(self).doc()
                        &&& (*p).cursor() == start(0)
                        &&& #[trigger] call_ensures(f, (p,), r)
                        &&& (*final(p)).feed().origin == 0 ==> final(self).now().bytes()
                            == (*final(p)).feed().input
                        &&& final(self).now().limit() == (*final(p)).feed().kept.limit
                        &&& but_reads(final(self).now().log()) == (*final(p)).feed().kept.asked
                    }
            }),
    {
        let mut p = self.open()?;
        let r = f(&mut p);
        self.close(p);
        r
    }

    /// Returns the span of the value at `path`.
    pub fn locate<P: Path + ?Sized>(&mut self, path: &P) -> (r: Result<
        Option<Span>,
        Error<St::Error>,
    >)
        requires
            old(self).wf(),
        ensures
            final(self).wf(),
            ({
                let d = old(self).doc();
                let o = match seek(d, start(0), path.steps()) {
                    Outcome::Done(true, c) => span(d, c),
                    Outcome::Done(false, c) => Outcome::Done((0, 0), c),
                    Outcome::Refused(f, c) => Outcome::Refused(f, c),
                    Outcome::Broken(f) => Outcome::Broken(f),
                };
                match r {
                    Ok(x) => o matches Outcome::Done(w, _) && match x {
                        Some(s) => {
                            &&& seek(d, start(0), path.steps()) matches Outcome::Done(true, _)
                            &&& s.start == w.0
                            &&& s.end == w.1
                        },
                        None => seek(d, start(0), path.steps()) matches Outcome::Done(false, _),
                    },
                    Err(Error::Json { kind, offset }) => match o {
                        Outcome::Done(_, _) => false,
                        Outcome::Refused(f, _) => kind == f.kind && offset == f.at,
                        Outcome::Broken(f) => kind == f.kind && offset == f.at,
                    },
                    Err(Error::Io(_)) => old(self).now().limit() is None,
                }
            }),
            final(self).now().bytes() == old(self).now().bytes(),
            final(self).now().limit() == old(self).now().limit(),
            looked(old(self).now().log(), final(self).now().log()),
    {
        let mut p = self.open()?;
        let r = match p.seek(path) {
            Ok(true) => match p.value_span() {
                Ok(s) => Ok(Some(s)),
                Err(e) => Err(e),
            },
            Ok(false) => Ok(None),
            Err(e) => Err(e),
        };
        self.close(p);
        r
    }

    /// Applies `op` at `path` with `value`. Returns whether it applied.
    #[verifier::rlimit(40)]
    pub fn edit<P: Path + ?Sized, V: ToJson + ?Sized>(&mut self, op: Op, path: &P, value: &V) -> (r:
        Result<bool, Error<St::Error>>)
        requires
            old(self).wf(),
        ensures
            final(self).wf(),
            edits(
                r,
                old(self).now(),
                final(self).now(),
                change(old(self).doc(), start(0), op, path.steps()),
                value,
            ),
    {
        let ghost d = self.doc();
        proof {
            self.now().bounds();
        }
        let mut p = self.open()?;
        proof {
            law_change_within(d, start(0), op, path.steps());
        }
        let planned = plan(&mut p, op, path);
        self.close(p);
        assert(looked(old(self).now().log(), self.now().log()));
        self.carry_out(planned, value)
    }

    /// Applies a patch, if one was planned.
    fn carry_out<'k, V: ToJson + ?Sized>(
        &mut self,
        planned: Result<Option<Patch<'k>>, Error<St::Error>>,
        value: &V,
    ) -> (r: Result<bool, Error<St::Error>>)
        requires
            old(self).wf(),
        ensures
            final(self).wf(),
            match planned {
                Ok(Some(p)) => {
                    &&& followed(
                        r is Ok,
                        old(self).now().log(),
                        final(self).now().log(),
                        old(self).now().bytes(),
                        p@,
                        value,
                    )
                    &&& match r {
                        Ok(found) => {
                            &&& found
                            &&& exists|s: Span|
                                #[trigger] applied(
                                    Ok(s),
                                    old(self).now(),
                                    final(self).now(),
                                    p@,
                                    value,
                                )
                        },
                        Err(e) => applied(
                            Err(e),
                            old(self).now(),
                            final(self).now(),
                            p@,
                            value,
                        ),
                    }
                },
                Ok(None) => r == Ok::<bool, Error<St::Error>>(false) && *final(self) == *old(self),
                Err(e) => r == Err::<bool, Error<St::Error>>(e) && *final(self) == *old(self),
            },
    {
        match planned {
            Ok(Some(patch)) => match self.apply(&patch, value) {
                Ok(_) => Ok(true),
                Err(e) => Err(e),
            },
            Ok(None) => Ok(false),
            Err(e) => Err(e),
        }
    }

    /// Replaces the value at `path`. Returns `false` if it does not exist.
    pub fn replace<P: Path + ?Sized, V: ToJson + ?Sized>(&mut self, path: &P, value: &V) -> (r:
        Result<bool, Error<St::Error>>)
        requires
            old(self).wf(),
        ensures
            final(self).wf(),
            edits(
                r,
                old(self).now(),
                final(self).now(),
                change(old(self).doc(), start(0), Op::Replace, path.steps()),
                value,
            ),
    {
        self.edit(Op::Replace, path, value)
    }

    /// Replaces or creates the value at `path` (see [`Op::Put`]).
    pub fn set<P: Path + ?Sized, V: ToJson + ?Sized>(&mut self, path: &P, value: &V) -> (r: Result<
        bool,
        Error<St::Error>,
    >)
        requires
            old(self).wf(),
        ensures
            final(self).wf(),
            edits(
                r,
                old(self).now(),
                final(self).now(),
                change(old(self).doc(), start(0), Op::Put, path.steps()),
                value,
            ),
    {
        self.edit(Op::Put, path, value)
    }

    /// Inserts the value at `path` (see [`Op::Insert`]).
    pub fn insert<P: Path + ?Sized, V: ToJson + ?Sized>(&mut self, path: &P, value: &V) -> (r:
        Result<bool, Error<St::Error>>)
        requires
            old(self).wf(),
        ensures
            final(self).wf(),
            edits(
                r,
                old(self).now(),
                final(self).now(),
                change(old(self).doc(), start(0), Op::Insert, path.steps()),
                value,
            ),
    {
        self.edit(Op::Insert, path, value)
    }

    /// Appends the value to the array at `path`.
    pub fn push<P: Path + ?Sized, V: ToJson + ?Sized>(&mut self, path: &P, value: &V) -> (r: Result<
        bool,
        Error<St::Error>,
    >)
        requires
            old(self).wf(),
        ensures
            final(self).wf(),
            edits(
                r,
                old(self).now(),
                final(self).now(),
                change(old(self).doc(), start(0), Op::Push, path.steps()),
                value,
            ),
    {
        self.edit(Op::Push, path, value)
    }

    /// Removes the member or element at `path`. Returns `false` if it does not exist.
    #[verifier::rlimit(40)]
    pub fn remove<P: Path + ?Sized>(&mut self, path: &P) -> (r: Result<bool, Error<St::Error>>)
        requires
            old(self).wf(),
        ensures
            final(self).wf(),
            edits(
                r,
                old(self).now(),
                final(self).now(),
                removal(old(self).doc(), start(0), path.steps()),
                &(),
            ),
    {
        let ghost d = self.doc();
        proof {
            self.now().bounds();
        }
        let mut p = self.open()?;
        proof {
            law_removal_within(d, start(0), path.steps());
        }
        let planned = plan_remove(&mut p, path);
        self.close(p);
        assert(looked(old(self).now().log(), self.now().log()));
        self.carry_out(planned, &())
    }

    /// Applies a patch (see [`apply`]).
    pub fn apply<V: ToJson + ?Sized>(&mut self, patch: &Patch<'_>, value: &V) -> (r: Result<
        Span,
        Error<St::Error>,
    >)
        requires
            old(self).wf(),
        ensures
            final(self).wf(),
            applied(r, old(self).now(), final(self).now(), patch@, value),
            followed(
                r is Ok,
                old(self).now().log(),
                final(self).now().log(),
                old(self).now().bytes(),
                patch@,
                value,
            ),
    {
        match self.inner.take() {
            Some((st, scratch)) => {
                let (st, scratch, r) = apply_through(st, patch, value, scratch);
                self.inner = Some((st, scratch));
                r
            },
            None => unreached(),
        }
    }

    /// Replaces the bytes at `span` (typically a value's span) with `value`.
    pub fn splice<V: ToJson + ?Sized>(&mut self, span: Span, value: &V) -> (r: Result<
        Span,
        Error<St::Error>,
    >)
        requires
            old(self).wf(),
        ensures
            final(self).wf(),
            applied(
                r,
                old(self).now(),
                final(self).now(),
                (Change {
                    start: span.start as int,
                    end: span.end as int,
                    shape: Shape::Value,
                }),
                value,
            ),
            followed(
                r is Ok,
                old(self).now().log(),
                final(self).now().log(),
                old(self).now().bytes(),
                (Change {
                    start: span.start as int,
                    end: span.end as int,
                    shape: Shape::Value,
                }),
                value,
            ),
    {
        self.apply(&Patch::replace(span), value)
    }
}

} // verus!
