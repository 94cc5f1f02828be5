//! Where a modification goes: what [`plan`] and [`plan_remove`] find.

use vstd::prelude::*;
use crate::cursor::{
    coherent, descend, enter, innermost, lemma_descend, lemma_look, look, past_string, room, seek,
    skip, span, Cursor, Doc, Outcome,
};
use crate::error::{Error, ErrorKind};
use crate::grammar::{lemma_text, lemma_value, starts_value, text, value, Fault};
use crate::io::Source;
use crate::parser::{start, Parser, Res, Token};
use crate::path::{step_index, step_is_end, step_name, Path, Seg, Segments, Step};

verus! {

/// Kind of modification for [`Editor::edit`], [`plan`] and [`copy_edit`].
#[derive(Debug, Clone, Copy, PartialEq, Eq, Structural)]
pub enum Op {
    /// Replace an existing value. Nothing happens if the path does not exist.
    Replace,
    /// Replace the value if it exists, otherwise create it: add the member to its parent
    /// object, or append the element if the last segment is the array length or `-`.
    /// The parent must exist.
    Put,
    /// Like [`Op::Put`] for objects; in arrays, insert before the element at that index
    /// (shifting the following elements), or append for the array length or `-`.
    Insert,
    /// Append the value to the array at the path.
    Push,
}

/// What a patch puts in place of the bytes it removes, as mathematics.
pub enum Shape {
    /// A value.
    Value,
    /// Nothing.
    Remove,
    /// A key and a value, behind a comma if `lead`.
    Member { lead: bool, key: Step },
    /// A value, behind a comma if `lead`, in front of one if `trail`.
    Element { lead: bool, trail: bool },
}

/// A modification, as mathematics: what replaces the bytes from `start` to `end`.
pub struct Change {
    pub start: int,
    pub end: int,
    pub shape: Shape,
}

/// Where a modification goes: at the cursor, and whether it replaces the value there.
pub struct Spot {
    pub at: int,
    pub replace: bool,
    pub shape: Shape,
}

/// The spot of the value at the cursor.
pub open spec fn value_spot(c: Cursor) -> Outcome<Option<Spot>> {
    Outcome::Done(Some(Spot { at: c.at, replace: true, shape: Shape::Value }), c)
}

/// A spot at the cursor where something is put in front of what is there.
pub open spec fn insert_spot(c: Cursor, shape: Shape) -> Outcome<Option<Spot>> {
    Outcome::Done(Some(Spot { at: c.at, replace: false, shape }), c)
}

/// No spot, with the parser at the cursor.
pub open spec fn no_spot(c: Cursor) -> Outcome<Option<Spot>> {
    Outcome::Done(None, c)
}

/// The end of an array, from the next element on; `any` if it has an element before.
pub open spec fn end_spot(d: Doc, c: Cursor, any: bool) -> Outcome<Option<Spot>>
    decreases d.bytes.len() - c.at,
{
    match look(d, c) {
        Err(f) => Outcome::Broken(f),
        Ok((t, c1)) => if t == Token::EndArray {
            insert_spot(c1, Shape::Element { lead: any, trail: false })
        } else {
            match skip(d, c1) {
                Outcome::Done(_, c2) => if c.at < c2.at <= d.bytes.len() {
                    end_spot(d, c2, true)
                } else {
                    // A value has at least one byte, so the search always moves on.
                    no_spot(c2)
                },
                Outcome::Refused(f, c2) => Outcome::Refused(f, c2),
                Outcome::Broken(f) => Outcome::Broken(f),
            }
        },
    }
}

/// The value of the next member, if `step` designates it; a member that it does not designate
/// is passed over.
#[verifier::opaque]
pub open spec fn try_member(d: Doc, c: Cursor, step: Step) -> Outcome<Option<Spot>> {
    match text(d.bytes, c.at + 1) {
        Err(f) => Outcome::Broken(f),
        Ok((k, name)) => {
            let c = past_string(c, true, k);
            if step_name(step) == Some(name) {
                match look(d, c) {
                    Err(f) => Outcome::Broken(f),
                    Ok((_, c)) => value_spot(c),
                }
            } else {
                match skip(d, c) {
                    Outcome::Done(_, c) => no_spot(c),
                    Outcome::Refused(f, c) => Outcome::Refused(f, c),
                    Outcome::Broken(f) => Outcome::Broken(f),
                }
            }
        },
    }
}

/// The value of the member that `step` designates, or else the end of the object, from the
/// next member on; `any` if it has a member before.
pub open spec fn member_spot(d: Doc, c: Cursor, step: Step, any: bool) -> Outcome<Option<Spot>>
    decreases d.bytes.len() - c.at,
{
    match look(d, c) {
        Err(f) => Outcome::Broken(f),
        Ok((t, c1)) => if t != Token::Key {
            insert_spot(c1, Shape::Member { lead: any, key: step })
        } else {
            match try_member(d, c1, step) {
                Outcome::Done(None, c2) => if c.at < c2.at <= d.bytes.len() {
                    member_spot(d, c2, step, true)
                } else {
                    no_spot(c2)
                },
                o => o,
            }
        },
    }
}

/// One less than a number, if there is one.
pub open spec fn one_less(n: Option<nat>) -> Option<nat> {
    match n {
        Some(k) => Some((k - 1) as nat),
        None => None,
    }
}

/// A number, if there is one, as mathematics.
pub open spec fn count(n: Option<usize>) -> Option<nat> {
    match n {
        Some(k) => Some(k as nat),
        None => None,
    }
}

/// The element that comes after `left` more (the end of the array if there is no number), from
/// the next element on; `any` if there is one before. An insertion goes in front of the element.
pub open spec fn element_spot(
    d: Doc,
    c: Cursor,
    left: Option<nat>,
    any: bool,
    insert: bool,
) -> Outcome<Option<Spot>>
    decreases d.bytes.len() - c.at,
{
    match look(d, c) {
        Err(f) => Outcome::Broken(f),
        Ok((t, c1)) => if t == Token::EndArray {
            if left is None || left == Some(0nat) {
                insert_spot(c1, Shape::Element { lead: any, trail: false })
            } else {
                no_spot(c1)
            }
        } else if left == Some(0nat) {
            if insert {
                insert_spot(c1, Shape::Element { lead: false, trail: true })
            } else {
                value_spot(c1)
            }
        } else {
            match skip(d, c1) {
                Outcome::Done(_, c2) => if c.at < c2.at <= d.bytes.len() {
                    element_spot(d, c2, one_less(left), true, insert)
                } else {
                    no_spot(c2)
                },
                Outcome::Refused(f, c2) => Outcome::Refused(f, c2),
                Outcome::Broken(f) => Outcome::Broken(f),
            }
        },
    }
}

/// Where `step` goes in the next value, which has to be a container.
pub open spec fn child_spot(d: Doc, c: Cursor, step: Step, insert: bool) -> Outcome<Option<Spot>> {
    match look(d, c) {
        Err(f) => Outcome::Broken(f),
        Ok((t, c)) => if t == Token::BeginObject {
            match enter(d, c, true) {
                Outcome::Done(_, c) => member_spot(d, c, step, false),
                Outcome::Refused(f, c) => Outcome::Refused(f, c),
                Outcome::Broken(f) => Outcome::Broken(f),
            }
        } else if t == Token::BeginArray {
            if !step_is_end(step) && step_index(step) is None {
                no_spot(c)
            } else {
                let target = if step_is_end(step) {
                    None
                } else {
                    step_index(step)
                };
                match enter(d, c, false) {
                    Outcome::Done(_, c) => element_spot(d, c, target, false, insert),
                    Outcome::Refused(f, c) => Outcome::Refused(f, c),
                    Outcome::Broken(f) => Outcome::Broken(f),
                }
            }
        } else {
            no_spot(c)
        },
    }
}

/// The end of the next value, which has to be an array.
pub open spec fn push_spot(d: Doc, c: Cursor) -> Outcome<Option<Spot>> {
    match look(d, c) {
        Err(f) => Outcome::Broken(f),
        Ok((t, c)) => if t == Token::BeginArray {
            match enter(d, c, false) {
                Outcome::Done(_, c) => end_spot(d, c, false),
                Outcome::Refused(f, c) => Outcome::Refused(f, c),
                Outcome::Broken(f) => Outcome::Broken(f),
            }
        } else {
            no_spot(c)
        },
    }
}

/// Where `op` applies for `path`.
#[verifier::opaque]
pub open spec fn spot(d: Doc, c: Cursor, op: Op, path: Seq<Step>) -> Outcome<Option<Spot>> {
    let adds = (op == Op::Put || op == Op::Insert) && path.len() > 0;
    let to = if adds {
        path.drop_last()
    } else {
        path
    };
    match seek(d, c, to) {
        Outcome::Done(true, c) => if adds {
            child_spot(d, c, path.last(), op == Op::Insert)
        } else if op == Op::Push {
            push_spot(d, c)
        } else {
            value_spot(c)
        },
        Outcome::Done(false, c) => no_spot(c),
        Outcome::Refused(f, c) => Outcome::Refused(f, c),
        Outcome::Broken(f) => Outcome::Broken(f),
    }
}

/// The change that goes with a spot: where it replaces a value, that is passed over.
pub open spec fn whole(d: Doc, o: Outcome<Option<Spot>>) -> Outcome<Option<Change>> {
    match o {
        Outcome::Done(None, c) => Outcome::Done(None, c),
        Outcome::Done(Some(s), c) => if s.replace {
            match span(d, c) {
                Outcome::Done((_, e), c) => Outcome::Done(
                    Some(Change { start: s.at, end: e, shape: s.shape }),
                    c,
                ),
                Outcome::Refused(f, c) => Outcome::Refused(f, c),
                Outcome::Broken(f) => Outcome::Broken(f),
            }
        } else {
            Outcome::Done(Some(Change { start: s.at, end: s.at, shape: s.shape }), c)
        },
        Outcome::Refused(f, c) => Outcome::Refused(f, c),
        Outcome::Broken(f) => Outcome::Broken(f),
    }
}

/// The change that `op` makes for `path`.
pub open spec fn change(d: Doc, c: Cursor, op: Op, path: Seq<Step>) -> Outcome<Option<Change>> {
    whole(d, spot(d, c, op, path))
}

/// The removal of the bytes from `start` to `end`.
pub open spec fn cut(c: Cursor, start: int, end: int) -> Outcome<Option<Change>> {
    Outcome::Done(Some(Change { start, end, shape: Shape::Remove }), c)
}

/// The removal of a value (with its key, if any) that starts at `start` and ends at `end`: up
/// to what follows it, or else from the end of what precedes it (`prev`).
pub open spec fn cut_item(d: Doc, c: Cursor, start: int, end: int, prev: Option<int>) -> Outcome<
    Option<Change>,
> {
    match look(d, c) {
        Err(f) => Outcome::Broken(f),
        Ok((t, c1)) => if t == Token::EndObject || t == Token::EndArray {
            cut(
                c1,
                match prev {
                    Some(p) => p,
                    None => start,
                },
                end,
            )
        } else {
            cut(c1, start, c1.at)
        },
    }
}

/// The removal of the member that `step` designates, from the next member on; `prev` is
/// where the one before it ends.
pub open spec fn cut_member(d: Doc, c: Cursor, step: Step, prev: Option<int>) -> Outcome<
    Option<Change>,
>
    decreases d.bytes.len() - c.at,
{
    match look(d, c) {
        Err(f) => Outcome::Broken(f),
        Ok((t, c1)) => if t != Token::Key {
            Outcome::Done(None, c1)
        } else {
            match text(d.bytes, c1.at + 1) {
                Err(f) => Outcome::Broken(f),
                Ok((k, name)) => {
                    let c2 = past_string(c1, true, k);
                    match span(d, c2) {
                        Outcome::Done((_, e), c3) => if step_name(step) == Some(name) {
                            cut_item(d, c3, c1.at, e, prev)
                        } else if c.at < c3.at <= d.bytes.len() {
                            cut_member(d, c3, step, Some(e))
                        } else {
                            Outcome::Done(None, c3)
                        },
                        Outcome::Refused(f, c3) => Outcome::Refused(f, c3),
                        Outcome::Broken(f) => Outcome::Broken(f),
                    }
                },
            }
        },
    }
}

/// The removal of the element number `n`, counting from the next one; `prev` is where the one
/// before it ends.
pub open spec fn cut_element(d: Doc, c: Cursor, n: nat, prev: Option<int>) -> Outcome<
    Option<Change>,
>
    decreases n,
{
    match look(d, c) {
        Err(f) => Outcome::Broken(f),
        Ok((t, c1)) => if t == Token::EndArray {
            Outcome::Done(None, c1)
        } else {
            match span(d, c1) {
                Outcome::Done((a, e), c2) => if n == 0 {
                    cut_item(d, c2, a, e, prev)
                } else {
                    cut_element(d, c2, (n - 1) as nat, Some(e))
                },
                Outcome::Refused(f, c2) => Outcome::Refused(f, c2),
                Outcome::Broken(f) => Outcome::Broken(f),
            }
        },
    }
}

/// The removal of what `path` designates.
#[verifier::opaque]
pub open spec fn removal(d: Doc, c: Cursor, path: Seq<Step>) -> Outcome<Option<Change>> {
    if path.len() == 0 {
        Outcome::Done(None, c)
    } else {
        match seek(d, c, path.drop_last()) {
            Outcome::Done(true, c) => match look(d, c) {
                Err(f) => Outcome::Broken(f),
                Ok((t, c)) => if t == Token::BeginObject {
                    match enter(d, c, true) {
                        Outcome::Done(_, c) => cut_member(d, c, path.last(), None),
                        Outcome::Refused(f, c) => Outcome::Refused(f, c),
                        Outcome::Broken(f) => Outcome::Broken(f),
                    }
                } else if t == Token::BeginArray {
                    match step_index(path.last()) {
                        None => Outcome::Done(None, c),
                        Some(n) => match enter(d, c, false) {
                            Outcome::Done(_, c) => cut_element(d, c, n, None),
                            Outcome::Refused(f, c) => Outcome::Refused(f, c),
                            Outcome::Broken(f) => Outcome::Broken(f),
                        },
                    }
                } else {
                    Outcome::Done(None, c)
                },
            },
            Outcome::Done(false, c) => Outcome::Done(None, c),
            Outcome::Refused(f, c) => Outcome::Refused(f, c),
            Outcome::Broken(f) => Outcome::Broken(f),
        }
    }
}

/// What a patch puts in place of the bytes it removes.
#[derive(Debug, Clone, Copy, PartialEq, Eq)]
pub(crate) enum Kind<'k> {
    Value,
    Remove,
    Member { lead: bool, key: Seg<'k> },
    Element { lead: bool, trail: bool },
}

impl<'k> Kind<'k> {
    /// The kind as mathematics.
    pub(crate) open(crate) spec fn view(&self) -> Shape {
        match *self {
            Kind::Value => Shape::Value,
            Kind::Remove => Shape::Remove,
            Kind::Member { lead, key } => Shape::Member { lead, key: key@ },
            Kind::Element { lead, trail } => Shape::Element { lead, trail },
        }
    }
}

/// A planned modification: bytes `start..end` of the document are replaced with new
/// content (a value, possibly with a member name and commas around it, or nothing).
#[derive(Debug, Clone, Copy, PartialEq, Eq)]
pub struct Patch<'k> {
    /// Offset of the first byte replaced.
    pub start: u64,
    /// Offset after the last byte replaced (equal to `start` for insertions).
    pub end: u64,
    pub(crate) kind: Kind<'k>,
}

impl<'k> Patch<'k> {
    /// The modification as mathematics.
    pub open(crate) spec fn view(&self) -> Change {
        Change { start: self.start as int, end: self.end as int, shape: self.kind@ }
    }
}

/// A planned patch, as a change of a document whose first byte has offset `origin`.
pub open spec fn change_of<'k, E>(r: Result<Option<Patch<'k>>, E>, origin: int) -> Result<
    Option<Change>,
    E,
> {
    match r {
        Ok(Some(p)) => Ok(
            Some(Change { start: p@.start - origin, end: p@.end - origin, shape: p@.shape }),
        ),
        Ok(None) => Ok(None),
        Err(e) => Err(e),
    }
}

/// Where an edit goes, found with the parser stopped exactly at `start`.
pub(crate) struct Target<'k> {
    pub(crate) start: u64,
    /// Whether the value at `start` is replaced (and must be skipped).
    pub(crate) replace: bool,
    pub(crate) kind: Kind<'k>,
}

/// A target, as a spot in a document whose first byte has offset `origin`.
pub(crate) open(crate) spec fn spot_of<'k, E>(
    r: Result<Option<Target<'k>>, E>,
    origin: int,
) -> Result<Option<Spot>, E> {
    match r {
        Ok(Some(t)) => Ok(Some(Spot { at: t.start - origin, replace: t.replace, shape: t.kind@ })),
        Ok(None) => Ok(None),
        Err(e) => Err(e),
    }
}

/// Seeks the container that the last segment of `path` goes in. Gives that segment, and
/// whether the container exists; nothing for the empty path.
fn seek_parent<'k, S: Source, const N: usize, P: Path + ?Sized>(
    p: &mut Parser<S, N>,
    path: &'k P,
) -> (r: Res<Option<(bool, Seg<'k>)>, S>)
    requires
        old(p).wf(),
    ensures
        ({
            let steps = path.steps();
            let d = old(p).doc();
            let c = old(p).cursor();
            if steps.len() == 0 {
                r matches Ok(None) && *final(p) == *old(p)
            } else {
                final(p).did(
                    &*old(p),
                    match r {
                        Ok(Some((found, _))) => Ok(found),
                        Ok(None) => Ok(false),
                        Err(e) => Err(e),
                    },
                    seek(d, c, steps.drop_last()),
                ) && (r matches Ok(x) ==> x matches Some((_, last)) && last@ == steps.last())
            }
        }),
{
    let ghost steps = path.steps();
    let ghost d = p.doc();
    let mut segs = path.segments();
    let mut seg = match segs.next() {
        Some(seg) => seg,
        None => return Ok(None),
    };
    let ghost goal = seek(d, p.cursor(), steps.drop_last());
    let ghost mut i: int = 0;
    proof {
        assert(steps.drop_last().skip(0) =~= steps.drop_last());
    }
    loop
        invariant
            p.wf(),
            p.follows(&*old(p)),
            d == old(p).doc(),
            steps == path.steps(),
            0 <= i < steps.len(),
            seg@ == steps[i],
            segs.wf(),
            segs.left() == steps.skip(i + 1),
            goal == seek(d, old(p).cursor(), steps.drop_last()),
            goal == seek(d, p.cursor(), steps.drop_last().skip(i)),
        decreases steps.len() - i,
    {
        let next = match segs.next() {
            Some(next) => next,
            None => {
                assert(i == steps.len() - 1);
                assert(steps.drop_last().skip(i) =~= Seq::<Step>::empty());
                let t = p.peek()?;
                if t.is_value() {
                    return Ok(Some((true, seg)));
                }
                return p.fail(ErrorKind::UnexpectedToken(t));
            },
        };
        proof {
            let left = steps.drop_last().skip(i);
            assert(left.len() > 0 && left[0] == steps[i]);
            assert(left.skip(1) =~= steps.drop_last().skip(i + 1));
            assert(steps.skip(i + 1).skip(1) =~= steps.skip(i + 2));
        }
        let found = p.descend(&seg)?;
        if !found {
            let mut last = next;
            proof {
                i = i + 1;
            }
            loop
                invariant_except_break
                    0 <= i < steps.len(),
                    last@ == steps[i],
                    segs.wf(),
                    segs.left() == steps.skip(i + 1),
                ensures
                    last@ == steps.last(),
                decreases steps.len() - i,
            {
                match segs.next() {
                    Some(next) => {
                        assert(steps.skip(i + 1).skip(1) =~= steps.skip(i + 2));
                        last = next;
                    },
                    None => {
                        assert(i == steps.len() - 1);
                        break ;
                    },
                }
                proof {
                    i = i + 1;
                }
            }
            return Ok(Some((false, last)));
        }
        seg = next;
        proof {
            i = i + 1;
        }
    }
}

/// Skipping a value moves on.
pub(crate) proof fn lemma_skip(d: Doc, c: Cursor)
    requires
        coherent(d, c),
        !(c.state is InStr),
    ensures
        match skip(d, c) {
            Outcome::Done(_, c1) => {
                &&& coherent(d, c1)
                &&& c.at < c1.at <= d.bytes.len()
                &&& !(c1.state is InStr)
                &&& c1.stack == c.stack
                &&& span(d, c) matches Outcome::Done((a, e), c2) && c2 == c1 && e == c1.at && c.at
                    <= a < e
            },
            Outcome::Refused(f, c1) => span(d, c) == Outcome::<(int, int)>::Refused(f, c1),
            Outcome::Broken(f) => span(d, c) == Outcome::<(int, int)>::Broken(f),
        },
{
    lemma_look(d, c);
    if look(d, c) is Ok {
        let c1 = look(d, c)->Ok_0.1;
        lemma_value(d.bytes, c1.at, room(d, c1));
    }
}

/// Finds the end of the array that `p` is in.
fn locate_end<'k, S: Source, const N: usize>(p: &mut Parser<S, N>) -> (r: Res<
    Option<Target<'k>>,
    S,
>)
    requires
        old(p).wf(),
        !(old(p).state is InStr),
    ensures
        final(p).did(
            &*old(p),
            spot_of(r, old(p).feed().origin),
            end_spot(old(p).doc(), old(p).cursor(), false),
        ),
{
    let ghost d = p.doc();
    let ghost goal = end_spot(d, p.cursor(), false);
    let mut any = false;
    loop
        invariant
            p.wf(),
            !(p.state is InStr),
            p.follows(&*old(p)),
            d == old(p).doc(),
            goal == end_spot(d, old(p).cursor(), false),
            goal == end_spot(d, p.cursor(), any),
        decreases d.bytes.len() - p.cursor().at,
    {
        proof {
            lemma_look(d, p.cursor());
        }
        let t = p.peek()?;
        if t == Token::EndArray {
            return Ok(
                Some(
                    Target {
                        start: p.offset(),
                        replace: false,
                        kind: Kind::Element { lead: any, trail: false },
                    },
                ),
            );
        }
        proof {
            lemma_skip(d, p.cursor());
        }
        p.skip_value()?;
        any = true;
    }
}

/// Finds the value of the next member, if `seg` designates it.
fn locate_next<'k, S: Source, const N: usize>(p: &mut Parser<S, N>, seg: &Seg<'_>) -> (r: Res<
    Option<Target<'k>>,
    S,
>)
    requires
        old(p).wf(),
        look(old(p).doc(), old(p).cursor()) == Ok::<_, Fault>((Token::Key, old(p).cursor())),
    ensures
        final(p).did(
            &*old(p),
            spot_of(r, old(p).feed().origin),
            try_member(old(p).doc(), old(p).cursor(), seg@),
        ),
        r matches Ok(None) ==> {
            &&& old(p).cursor().at < final(p).cursor().at <= old(p).doc().bytes.len()
            &&& !(final(p).state is InStr)
        },
{
    let ghost d = p.doc();
    let ghost c = p.cursor();
    proof {
        reveal(try_member);
        lemma_look(d, c);
        lemma_text(d.bytes, c.at + 1);
    }
    if p.match_seg_key(seg)? {
        p.peek()?;
        return Ok(Some(Target { start: p.offset(), replace: true, kind: Kind::Value }));
    }
    proof {
        lemma_skip(d, p.cursor());
    }
    p.skip_value()?;
    Ok(None)
}

/// Finds the member that `seg` designates in the object that `p` is in, or the object's end.
#[verifier::rlimit(40)]
fn locate_member<'k, S: Source, const N: usize>(p: &mut Parser<S, N>, seg: Seg<'k>) -> (r: Res<
    Option<Target<'k>>,
    S,
>)
    requires
        old(p).wf(),
        !(old(p).state is InStr),
    ensures
        final(p).did(
            &*old(p),
            spot_of(r, old(p).feed().origin),
            member_spot(old(p).doc(), old(p).cursor(), seg@, false),
        ),
{
    let ghost d = p.doc();
    let ghost goal = member_spot(d, p.cursor(), seg@, false);
    let mut any = false;
    loop
        invariant
            p.wf(),
            !(p.state is InStr),
            p.follows(&*old(p)),
            d == old(p).doc(),
            goal == member_spot(d, old(p).cursor(), seg@, false),
            goal == member_spot(d, p.cursor(), seg@, any),
        decreases d.bytes.len() - p.cursor().at,
    {
        proof {
            lemma_look(d, p.cursor());
        }
        let t = p.peek()?;
        if t != Token::Key {
            return Ok(
                Some(
                    Target {
                        start: p.offset(),
                        replace: false,
                        kind: Kind::Member { lead: any, key: seg },
                    },
                ),
            );
        }
        let found = locate_next(p, &seg)?;
        if found.is_some() {
            return Ok(found);
        }
        any = true;
    }
}

/// Gives the target in front of the next token, behind a comma if `lead`, in front of one if
/// `trail`.
fn element_target<'k, S: Source, const N: usize>(
    p: &Parser<S, N>,
    lead: bool,
    trail: bool,
) -> (r: Res<Option<Target<'k>>, S>)
    requires
        p.wf(),
    ensures
        spot_of(r, p.feed().origin) == Ok::<_, Error<S::Error>>(
            Some(
                (Spot { at: p.cursor().at, replace: false, shape: Shape::Element { lead, trail } }),
            ),
        ),
{
    Ok(Some(Target { start: p.offset(), replace: false, kind: Kind::Element { lead, trail } }))
}

/// Finds the element number `target` in the array that `p` is in, or the array's end.
#[verifier::rlimit(40)]
fn locate_element<'k, S: Source, const N: usize>(
    p: &mut Parser<S, N>,
    target: Option<usize>,
    insert: bool,
) -> (r: Res<Option<Target<'k>>, S>)
    requires
        old(p).wf(),
        !(old(p).state is InStr),
    ensures
        final(p).did(
            &*old(p),
            spot_of(r, old(p).feed().origin),
            element_spot(old(p).doc(), old(p).cursor(), count(target), false, insert),
        ),
{
    let ghost d = p.doc();
    let ghost goal = element_spot(d, p.cursor(), count(target), false, insert);
    // How many more elements to skip, where there is a number, and whether any was skipped.
    let mut left = target;
    let mut any = false;
    loop
        invariant
            p.wf(),
            !(p.state is InStr),
            p.follows(&*old(p)),
            d == old(p).doc(),
            goal == element_spot(d, old(p).cursor(), count(target), false, insert),
            goal == element_spot(d, p.cursor(), count(left), any, insert),
        decreases d.bytes.len() - p.cursor().at,
    {
        proof {
            lemma_look(d, p.cursor());
        }
        let t = p.peek()?;
        let here = match left {
            Some(k) => k == 0,
            None => false,
        };
        if t == Token::EndArray {
            if here || left.is_none() {
                return element_target(p, any, false);
            }
            return Ok(None);
        }
        if here {
            if insert {
                return element_target(p, false, true);
            }
            return Ok(Some(Target { start: p.offset(), replace: true, kind: Kind::Value }));
        }
        proof {
            lemma_skip(d, p.cursor());
        }
        p.skip_value()?;
        left = match left {
            Some(k) => Some(k - 1),
            None => None,
        };
        any = true;
    }
}

/// Finds where `seg` goes in the next value, which has to be a container.
fn locate_child<'k, S: Source, const N: usize>(
    p: &mut Parser<S, N>,
    seg: Seg<'k>,
    insert: bool,
) -> (r: Res<Option<Target<'k>>, S>)
    requires
        old(p).wf(),
    ensures
        final(p).did(
            &*old(p),
            spot_of(r, old(p).feed().origin),
            child_spot(old(p).doc(), old(p).cursor(), seg@, insert),
        ),
{
    let ghost d = p.doc();
    proof {
        lemma_look(d, p.cursor());
    }
    let t = p.peek()?;
    proof {
        lemma_look(d, p.cursor());
    }
    match t {
        Token::BeginObject => {
            p.begin_object()?;
            locate_member(p, seg)
        },
        Token::BeginArray => {
            let target = if seg.is_end_marker() {
                None
            } else {
                match seg.index() {
                    Some(i) => Some(i),
                    None => return Ok(None),
                }
            };
            p.begin_array()?;
            locate_element(p, target, insert)
        },
        _ => Ok(None),
    }
}

/// Finds the end of the array that comes next, if one does.
fn locate_push<'k, S: Source, const N: usize>(p: &mut Parser<S, N>) -> (r: Res<
    Option<Target<'k>>,
    S,
>)
    requires
        old(p).wf(),
    ensures
        final(p).did(
            &*old(p),
            spot_of(r, old(p).feed().origin),
            push_spot(old(p).doc(), old(p).cursor()),
        ),
{
    let ghost d = p.doc();
    proof {
        lemma_look(d, p.cursor());
    }
    let t = p.peek()?;
    if t != Token::BeginArray {
        return Ok(None);
    }
    proof {
        lemma_look(d, p.cursor());
    }
    p.begin_array()?;
    locate_end(p)
}

/// Finds where `op` applies. On success the parser has consumed exactly up to `start`.
#[verifier::rlimit(40)]
pub(crate) fn locate<'k, S: Source, const N: usize, P: Path + ?Sized>(
    p: &mut Parser<S, N>,
    op: Op,
    path: &'k P,
) -> (r: Res<Option<Target<'k>>, S>)
    requires
        old(p).wf(),
    ensures
        final(p).did(
            &*old(p),
            spot_of(r, old(p).feed().origin),
            spot(old(p).doc(), old(p).cursor(), op, path.steps()),
        ),
{
    proof {
        reveal(spot);
    }
    if op == Op::Put || op == Op::Insert {
        if let Some((found, last)) = seek_parent(p, path)? {
            return if found {
                locate_child(p, last, op == Op::Insert)
            } else {
                Ok(None)
            };
        }
    }
    if !p.seek(path)? {
        return Ok(None);
    }
    if op == Op::Push {
        return locate_push(p);
    }
    Ok(Some(Target { start: p.offset(), replace: true, kind: Kind::Value }))
}

/// Computes the [`Patch`] for `op` at `path`, reading the document with `p` (positioned
/// before the root value). Returns `None` if the operation does not apply (path not
/// found, parent missing or not a container, index out of range...).
pub fn plan<'k, S: Source, const N: usize, P: Path + ?Sized>(
    p: &mut Parser<S, N>,
    op: Op,
    path: &'k P,
) -> (r: Res<Option<Patch<'k>>, S>)
    requires
        old(p).wf(),
    ensures
        final(p).did(
            &*old(p),
            change_of(r, old(p).feed().origin),
            change(old(p).doc(), old(p).cursor(), op, path.steps()),
        ),
{
    let t = match locate(p, op, path)? {
        Some(t) => t,
        None => return Ok(None),
    };
    let end = if t.replace {
        p.value_span()?.end
    } else {
        t.start
    };
    Ok(Some(Patch { start: t.start, end, kind: t.kind }))
}

/// Gives the removal of the item that was just read.
fn remove_item<S: Source, const N: usize>(
    p: &mut Parser<S, N>,
    start: u64,
    end: u64,
    prev: Option<u64>,
) -> (r: Res<Option<Patch<'static>>, S>)
    requires
        old(p).wf(),
    ensures
        ({
            let o = old(p).feed().origin;
            final(p).did(
                &*old(p),
                change_of(r, o),
                cut_item(
                    old(p).doc(),
                    old(p).cursor(),
                    start - o,
                    end - o,
                    match prev {
                        Some(x) => Some(x - o),
                        None => None,
                    },
                ),
            )
        }),
{
    let t = p.peek()?;
    if t == Token::EndObject || t == Token::EndArray {
        let from = match prev {
            Some(x) => x,
            None => start,
        };
        return Ok(Some(Patch { start: from, end, kind: Kind::Remove }));
    }
    Ok(Some(Patch { start, end: p.offset(), kind: Kind::Remove }))
}

/// Computes the removal of the member that `seg` designates.
#[verifier::rlimit(40)]
fn remove_member<S: Source, const N: usize>(p: &mut Parser<S, N>, seg: &Seg<'_>) -> (r: Res<
    Option<Patch<'static>>,
    S,
>)
    requires
        old(p).wf(),
        !(old(p).state is InStr),
    ensures
        final(p).did(
            &*old(p),
            change_of(r, old(p).feed().origin),
            cut_member(old(p).doc(), old(p).cursor(), seg@, None),
        ),
{
    let ghost d = p.doc();
    let ghost o = p.feed().origin;
    let ghost goal = cut_member(d, p.cursor(), seg@, None);
    let mut prev: Option<u64> = None;
    loop
        invariant
            p.wf(),
            !(p.state is InStr),
            p.follows(&*old(p)),
            d == old(p).doc(),
            o == old(p).feed().origin,
            goal == cut_member(d, old(p).cursor(), seg@, None),
            goal == cut_member(
                d,
                p.cursor(),
                seg@,
                match prev {
                    Some(x) => Some(x - o),
                    None => None,
                },
            ),
        decreases d.bytes.len() - p.cursor().at,
    {
        proof {
            lemma_look(d, p.cursor());
        }
        let t = p.peek()?;
        if t != Token::Key {
            return Ok(None);
        }
        let start = p.offset();
        let ghost c1 = p.cursor();
        proof {
            lemma_look(d, c1);
            lemma_text(d.bytes, c1.at + 1);
        }
        let found = p.match_seg_key(seg)?;
        proof {
            lemma_skip(d, p.cursor());
        }
        let value = p.value_span()?;
        if found {
            return remove_item(p, start, value.end, prev);
        }
        prev = Some(value.end);
    }
}

/// Computes the removal of the element number `n`.
fn remove_element<S: Source, const N: usize>(p: &mut Parser<S, N>, n: usize) -> (r: Res<
    Option<Patch<'static>>,
    S,
>)
    requires
        old(p).wf(),
        !(old(p).state is InStr),
    ensures
        final(p).did(
            &*old(p),
            change_of(r, old(p).feed().origin),
            cut_element(old(p).doc(), old(p).cursor(), n as nat, None),
        ),
{
    let ghost d = p.doc();
    let ghost o = p.feed().origin;
    let ghost goal = cut_element(d, p.cursor(), n as nat, None);
    let mut prev: Option<u64> = None;
    let mut left = n;
    loop
        invariant
            p.wf(),
            !(p.state is InStr),
            p.follows(&*old(p)),
            d == old(p).doc(),
            o == old(p).feed().origin,
            goal == cut_element(d, old(p).cursor(), n as nat, None),
            goal == cut_element(
                d,
                p.cursor(),
                left as nat,
                match prev {
                    Some(x) => Some(x - o),
                    None => None,
                },
            ),
        decreases left,
    {
        proof {
            lemma_look(d, p.cursor());
        }
        let t = p.peek()?;
        if t == Token::EndArray {
            return Ok(None);
        }
        proof {
            lemma_look(d, p.cursor());
            lemma_skip(d, p.cursor());
        }
        let value = p.value_span()?;
        if left == 0 {
            return remove_item(p, value.start, value.end, prev);
        }
        prev = Some(value.end);
        left = left - 1;
    }
}

/// Computes the [`Patch`] removing the member or element at `path` (with the comma that
/// separates it from its neighbours). Returns `None` if it does not exist. The root
/// cannot be removed.
pub fn plan_remove<S: Source, const N: usize, P: Path + ?Sized>(
    p: &mut Parser<S, N>,
    path: &P,
) -> (r: Res<Option<Patch<'static>>, S>)
    requires
        old(p).wf(),
    ensures
        final(p).did(
            &*old(p),
            change_of(r, old(p).feed().origin),
            removal(old(p).doc(), old(p).cursor(), path.steps()),
        ),
{
    let ghost d = p.doc();
    proof {
        reveal(removal);
    }
    let (found, last) = match seek_parent(p, path)? {
        Some(x) => x,
        None => return Ok(None),
    };
    if !found {
        return Ok(None);
    }
    proof {
        lemma_look(d, p.cursor());
    }
    let t = p.peek()?;
    proof {
        lemma_look(d, p.cursor());
    }
    match t {
        Token::BeginObject => {
            p.begin_object()?;
            remove_member(p, &last)
        },
        Token::BeginArray => {
            let target = match last.index() {
                Some(i) => i,
                None => return Ok(None),
            };
            p.begin_array()?;
            remove_element(p, target)
        },
        _ => Ok(None),
    }
}

/// A cursor at a token.
pub open spec fn at_token(d: Doc, c: Cursor) -> bool {
    &&& coherent(d, c)
    &&& !(c.state is InStr)
    &&& look(d, c) matches Ok((_, c1)) && c1 == c
}

/// A cursor at a value.
pub open spec fn at_value(d: Doc, c: Cursor) -> bool {
    at_token(d, c) && starts_value(look(d, c)->Ok_0.0)
}

/// Seeking stops at a token behind the cursor, which starts the value that was found.
proof fn lemma_seek(d: Doc, c: Cursor, path: Seq<Step>)
    requires
        coherent(d, c),
    ensures
        seek(d, c, path) matches Outcome::Done(found, c1) ==> {
            &&& coherent(d, c1)
            &&& c.at <= c1.at
            &&& found ==> at_value(d, c1)
        },
    decreases path.len(),
{
    lemma_look(d, c);
    if path.len() > 0 {
        lemma_descend(d, c, path[0]);
        if descend(d, c, path[0]) is Done {
            lemma_seek(d, descend(d, c, path[0])->Done_1, path.skip(1));
        }
    }
}

/// What holds of the spot where an operation applies, found from `c` on.
pub(crate) open(crate) spec fn good_spot(d: Doc, c: Cursor, o: Outcome<Option<Spot>>) -> bool {
    o matches Outcome::Done(x, c1) ==> {
        &&& coherent(d, c1)
        &&& c.at <= c1.at
        &&& x matches Some(s) ==> {
            &&& s.at == c1.at
            &&& at_token(d, c1)
            &&& s.replace ==> at_value(d, c1)
            &&& s.replace == (s.shape is Value)
            &&& !(s.shape is Remove)
        }
    }
}

proof fn lemma_end_spot(d: Doc, c: Cursor, any: bool)
    requires
        coherent(d, c),
    ensures
        good_spot(d, c, end_spot(d, c, any)),
    decreases d.bytes.len() - c.at,
{
    lemma_look(d, c);
    if look(d, c) is Ok {
        let c1 = look(d, c)->Ok_0.1;
        lemma_skip(d, c1);
        if skip(d, c1) is Done {
            lemma_end_spot(d, skip(d, c1)->Done_1, true);
        }
    }
}

proof fn lemma_member_spot(d: Doc, c: Cursor, step: Step, any: bool)
    requires
        coherent(d, c),
    ensures
        good_spot(d, c, member_spot(d, c, step, any)),
    decreases d.bytes.len() - c.at,
{
    reveal(try_member);
    lemma_look(d, c);
    if look(d, c) is Ok {
        let (t, c1) = look(d, c)->Ok_0;
        if t == Token::Key {
            lemma_text(d.bytes, c1.at + 1);
            if text(d.bytes, c1.at + 1) is Ok {
                let c2 = past_string(c1, true, text(d.bytes, c1.at + 1)->Ok_0.0);
                lemma_look(d, c2);
                lemma_skip(d, c2);
                if skip(d, c2) is Done {
                    lemma_member_spot(d, skip(d, c2)->Done_1, step, true);
                }
            }
        }
    }
}

proof fn lemma_element_spot(d: Doc, c: Cursor, left: Option<nat>, any: bool, insert: bool)
    requires
        coherent(d, c),
        innermost(c.stack) == Some(false),
    ensures
        good_spot(d, c, element_spot(d, c, left, any, insert)),
    decreases d.bytes.len() - c.at,
{
    lemma_look(d, c);
    if look(d, c) is Ok {
        let c1 = look(d, c)->Ok_0.1;
        lemma_look(d, c1);
        lemma_skip(d, c1);
        if skip(d, c1) is Done {
            lemma_element_spot(d, skip(d, c1)->Done_1, one_less(left), true, insert);
        }
    }
}

proof fn lemma_child_spot(d: Doc, c: Cursor, step: Step, insert: bool)
    requires
        coherent(d, c),
    ensures
        good_spot(d, c, child_spot(d, c, step, insert)),
{
    lemma_look(d, c);
    if look(d, c) is Ok {
        let (t, c1) = look(d, c)->Ok_0;
        if t == Token::BeginObject && enter(d, c1, true) is Done {
            lemma_member_spot(d, enter(d, c1, true)->Done_1, step, false);
        } else if t == Token::BeginArray && enter(d, c1, false) is Done {
            let target = if step_is_end(step) {
                None
            } else {
                step_index(step)
            };
            lemma_element_spot(d, enter(d, c1, false)->Done_1, target, false, insert);
        }
    }
}

pub(crate) proof fn lemma_spot(d: Doc, c: Cursor, op: Op, path: Seq<Step>)
    requires
        coherent(d, c),
    ensures
        good_spot(d, c, spot(d, c, op, path)),
{
    reveal(spot);
    let adds = (op == Op::Put || op == Op::Insert) && path.len() > 0;
    let to = if adds {
        path.drop_last()
    } else {
        path
    };
    lemma_seek(d, c, to);
    if seek(d, c, to) is Done {
        let c1 = seek(d, c, to)->Done_1;
        lemma_look(d, c1);
        if adds {
            lemma_child_spot(d, c1, path.last(), op == Op::Insert);
        } else if look(d, c1) is Ok {
            let c2 = look(d, c1)->Ok_0.1;
            if look(d, c1)->Ok_0.0 == Token::BeginArray && enter(d, c2, false) is Done {
                lemma_end_spot(d, enter(d, c2, false)->Done_1, false);
            }
        }
    }
}

/// A planned modification replaces bytes that lie within the document, behind where the
/// parser started.
pub proof fn law_change_within(d: Doc, c: Cursor, op: Op, path: Seq<Step>)
    requires
        coherent(d, c),
    ensures
        change(d, c, op, path) matches Outcome::Done(Some(ch), _) ==> {
            &&& c.at <= ch.start <= ch.end <= d.bytes.len()
            &&& ch.start < ch.end <==> ch.shape is Value
            &&& !(ch.shape is Remove)
        },
{
    lemma_spot(d, c, op, path);
    match spot(d, c, op, path) {
        Outcome::Done(Some(s), c1) => {
            lemma_skip(d, c1);
        },
        _ => {},
    }
}

proof fn lemma_cut_item(d: Doc, c: Cursor, from: int, start: int, end: int, prev: Option<int>)
    requires
        coherent(d, c),
        from <= start <= end <= c.at,
        prev matches Some(p) ==> from <= p <= start,
    ensures
        good_cut(d, from, cut_item(d, c, start, end, prev)),
{
    lemma_look(d, c);
}

/// What holds of a removal that was found from `at` on.
spec fn good_cut(d: Doc, at: int, o: Outcome<Option<Change>>) -> bool {
    o matches Outcome::Done(Some(ch), _) ==> {
        &&& at <= ch.start <= ch.end <= d.bytes.len()
        &&& ch.shape is Remove
    }
}

proof fn lemma_cut_member(d: Doc, c: Cursor, from: int, step: Step, prev: Option<int>)
    requires
        coherent(d, c),
        from <= c.at,
        prev matches Some(p) ==> from <= p <= c.at,
    ensures
        good_cut(d, from, cut_member(d, c, step, prev)),
    decreases d.bytes.len() - c.at,
{
    lemma_look(d, c);
    if look(d, c) is Ok {
        let (t, c1) = look(d, c)->Ok_0;
        if t == Token::Key {
            lemma_text(d.bytes, c1.at + 1);
            if text(d.bytes, c1.at + 1) is Ok {
                let c2 = past_string(c1, true, text(d.bytes, c1.at + 1)->Ok_0.0);
                lemma_skip(d, c2);
                if span(d, c2) is Done {
                    let ((_, e), c3) = (span(d, c2)->Done_0, span(d, c2)->Done_1);
                    lemma_cut_item(d, c3, from, c1.at, e, prev);
                    lemma_cut_member(d, c3, from, step, Some(e));
                }
            }
        }
    }
}

proof fn lemma_cut_element(d: Doc, c: Cursor, from: int, n: nat, prev: Option<int>)
    requires
        coherent(d, c),
        from <= c.at,
        prev matches Some(p) ==> from <= p <= c.at,
    ensures
        good_cut(d, from, cut_element(d, c, n, prev)),
    decreases n,
{
    lemma_look(d, c);
    if look(d, c) is Ok {
        let c1 = look(d, c)->Ok_0.1;
        lemma_skip(d, c1);
        if span(d, c1) is Done {
            let ((a, e), c2) = (span(d, c1)->Done_0, span(d, c1)->Done_1);
            if n == 0 {
                lemma_cut_item(d, c2, from, a, e, prev);
            } else {
                lemma_cut_element(d, c2, from, (n - 1) as nat, Some(e));
            }
        }
    }
}

/// A planned removal lies within the document, behind where the parser started.
pub proof fn law_removal_within(d: Doc, c: Cursor, path: Seq<Step>)
    requires
        coherent(d, c),
    ensures
        removal(d, c, path) matches Outcome::Done(Some(ch), _) ==> {
            &&& c.at <= ch.start <= ch.end <= d.bytes.len()
            &&& ch.shape is Remove
        },
{
    reveal(removal);
    if path.len() > 0 {
        lemma_seek(d, c, path.drop_last());
        if seek(d, c, path.drop_last()) is Done {
            let c0 = seek(d, c, path.drop_last())->Done_1;
            lemma_look(d, c0);
            if look(d, c0) is Ok {
                let (t, c1) = look(d, c0)->Ok_0;
                if t == Token::BeginObject && enter(d, c1, true) is Done {
                    lemma_cut_member(d, enter(d, c1, true)->Done_1, c.at, path.last(), None);
                } else if t == Token::BeginArray && enter(d, c1, false) is Done && step_index(
                    path.last(),
                ) is Some {
                    lemma_cut_element(
                        d,
                        enter(d, c1, false)->Done_1,
                        c.at,
                        step_index(path.last())->Some_0,
                        None,
                    );
                }
            }
        }
    }
}

} // verus!
