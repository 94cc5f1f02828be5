//! What reading leaves behind: laws on the steps of a [cursor](crate::cursor), one after the
//! other.

use vstd::prelude::*;
use vstd::utf8::valid_utf8;

use crate::cursor::{
    begin, close, coherent, event, has_next, innermost, lemma_close, lemma_drain_look, lemma_look,
    lemma_open_key, lemma_step, lemma_through_enter, look, match_key, open_key, peek, piece,
    read_bool, read_key, read_null, read_num, read_number, read_str, room, skip, skip_key, step,
    through, unwind, Cursor, Doc, Outcome,
};
use crate::edit_laws::{
    between, left_at, lemma_meets_end, lemma_meets_item, lemma_meets_member, past_piece, piece_at,
};
use crate::error::ErrorKind;
use crate::grammar::{
    chunk, fits, lemma_next_token, lemma_number, lemma_unit, less, pour, starts_value, text, unit,
    Chunk, Fault, QUOTE,
};
use crate::parser::{State, Token};
use crate::path::Step;
use crate::splice::{behind, lemma_piece};
use crate::string::{law_chunks, lemma_chunk};

verus! {

/// Peeking again finds the same token, in the same place, in the same container.
pub proof fn law_peek(d: Doc, c: Cursor)
    requires
        coherent(d, c),
    ensures
        peek(d, c) matches Outcome::Done(t, c1) ==> {
            &&& peek(d, c1) == Outcome::Done(t, c1)
            &&& c.at <= c1.at
            &&& c1.stack == c.stack
            &&& t != Token::Eof ==> c1.at < d.bytes.len()
        },
{
    lemma_look(d, c);
}

/// Entering a container and leaving it again is skipping it.
pub proof fn law_enter_leave(d: Doc, c: Cursor, object: bool)
    requires
        coherent(d, c),
        !(c.state is InStr),
    ensures
        begin(d, c, object) matches Outcome::Done(_, c1) ==> {
            &&& close(d, c1, object) == skip(d, c)
            &&& unwind(d, c1, c.stack.len() as int) == skip(d, c)
        },
{
    lemma_look(d, c);
    if begin(d, c, object) is Done {
        let c0 = look(d, c)->Ok_0.1;
        let c1 = begin(d, c, object)->Done_1;
        let depth = c.stack.len() as int;
        lemma_through_enter(d, c0, depth, object);
        lemma_close(d, c1, object);
    }
}

/// Asking for another type than that of the next value leaves the value to be read.
pub proof fn law_mismatch(d: Doc, c: Cursor, object: bool, size: nat)
    requires
        coherent(d, c),
    ensures
        begin(d, c, object) matches Outcome::Refused(f, c1) ==> peek(d, c1) == peek(d, c),
        read_bool(d, c) matches Outcome::Refused(f, c1) ==> peek(d, c1) == peek(d, c),
        read_null(d, c) matches Outcome::Refused(f, c1) ==> peek(d, c1) == peek(d, c),
        read_str(d, c, size) matches Outcome::Refused(f, c1) ==> f.kind != ErrorKind::BufferTooSmall
            ==> peek(d, c1) == peek(d, c),
        read_number(d, c, size) matches Outcome::Refused(f, c1) ==> f.kind
            != ErrorKind::BufferTooSmall ==> peek(d, c1) == peek(d, c),
{
    lemma_look(d, c);
}

/// The text of a string is valid UTF-8.
pub proof fn law_utf8(s: Seq<u8>, i: int)
    requires
        0 <= i <= s.len(),
    ensures
        text(s, i) matches Ok((_, t)) ==> valid_utf8(t),
{
    lemma_chunk(s, i, None);
}

/// Reading a part of a string changes nothing of what follows the string.
pub proof fn law_part(d: Doc, c: Cursor, size: nat)
    requires
        coherent(d, c),
        c.state is InStr,
    ensures
        piece(d, c, size) matches Outcome::Done(_, c1) ==> peek(d, c1) == peek(d, c),
        piece(d, c, size) matches Outcome::Broken(f) ==> peek(d, c) == Outcome::<Token>::Broken(f),
{
    let room = Some(size);
    if fits(room, c.stash.len()) {
        law_chunks(d.bytes, c.at, less(room, c.stash.len()));
    }
}

/// Where a string does not fit in the buffer, what is left of it is skipped next.
pub proof fn law_too_small(d: Doc, c: Cursor, size: nat)
    requires
        coherent(d, c),
        !(c.state is InStr),
    ensures
        read_str(d, c, size) matches Outcome::Refused(f, c1) ==> f.kind == ErrorKind::BufferTooSmall
            ==> skip(d, c1) == skip(d, c),
{
    lemma_look(d, c);
    if look(d, c) is Ok {
        let c0 = look(d, c)->Ok_0.1;
        if look(d, c)->Ok_0.0 == Token::String {
            lemma_next_token(d.bytes, c0.at, c0.state, d.multi);
            law_chunks(d.bytes, c0.at + 1, Some(size));
        }
    }
}

/// A number that cannot be converted is behind the parser.
pub proof fn law_bad_number<T>(d: Doc, c: Cursor, parsed: Option<T>)
    requires
        coherent(d, c),
        !(c.state is InStr),
    ensures
        read_num(d, c, parsed) matches Outcome::Refused(f, c1) ==> f.kind
            == ErrorKind::NumberOutOfRange || f.kind == ErrorKind::NumberTooLong ==> skip(d, c)
            == Outcome::Done((), c1),
{
    lemma_look(d, c);
    if look(d, c) is Ok {
        let c0 = look(d, c)->Ok_0.1;
        lemma_next_token(d.bytes, c0.at, c0.state, d.multi);
        if look(d, c)->Ok_0.0 == Token::Number {
            lemma_number(d.bytes, c0.at);
        }
    }
}

/// Comparing a key with a name agrees with reading it.
pub proof fn law_match_key(d: Doc, c: Cursor, name: Seq<u8>, size: nat)
    requires
        coherent(d, c),
    ensures
        read_key(d, c, size) matches Outcome::Done(key, c1) ==> match_key(d, c, Step::Key(name))
            == Outcome::Done(key == name, c1),
{
    lemma_open_key(d, c);
    if open_key(d, c) is Done {
        let c1 = open_key(d, c)->Done_1;
        law_chunks(d.bytes, c1.at, Some(size));
        if chunk(d.bytes, c1.at, Some(size)) is Ok {
            let out = chunk(d.bytes, c1.at, Some(size))->Ok_0.out;
            assert(Seq::<u8>::empty() + out =~= out);
        }
    }
}

/// Another item follows exactly where one is left, and skipping it leaves one less: so a loop that
/// asks and skips runs once for each item of a container.
pub proof fn law_has_next(d: Doc, c: Cursor)
    requires
        between(d, c),
    ensures
        has_next(d, c) matches Outcome::Done(more, c1) && more == (left_at(d, c).1.len() > 0) && (
        more ==> ({
            let c2 = if innermost(c.stack) == Some(true) {
                skip_key(d, c1)->Done_1
            } else {
                c1
            };
            &&& innermost(c.stack) == Some(true) ==> skip_key(d, c1) is Done
            &&& skip(d, c2) matches Outcome::Done(_, c3) && between(d, c3) && left_at(d, c3) == (
                left_at(d, c).0,
                left_at(d, c).1.skip(1),
            )
        })),
{
    lemma_look(d, c);
    lemma_piece(d.bytes, c.at, c.state, room(d, c));
    match piece_at(d, c) {
        Some(p) => {
            let its = left_at(d, c).1;
            if behind(c.state) == State::ArrComma {
                lemma_meets_item(d, c);
            } else {
                lemma_meets_member(d, c);
                let c1 = look(d, c)->Ok_0.1;
                lemma_look(d, c1);
            }
            assert(its.len() > 0);
            assert(its.skip(1) =~= left_at(d, past_piece(c, p)).1);
        },
        None => {
            lemma_meets_end(d, c);
        },
    }
}

/// What reading a string in parts of at most `size` bytes gives, all in all, behind the character
/// `stash` that was read before.
pub open spec fn all_parts(s: Seq<u8>, i: int, stash: Seq<u8>, size: nat) -> Option<Seq<u8>>
    decreases s.len() - i, stash.len(),
{
    match pour(s, i, stash, Some(size)) {
        Err(_) => None,
        Ok(c) => if c.done {
            Some(c.out)
        } else if i < c.at <= s.len() || (c.at == i && c.stash.len() < stash.len()) {
            match all_parts(s, c.at, c.stash, size) {
                None => None,
                Some(rest) => Some(c.out + rest),
            }
        } else {
            None
        },
    }
}

/// All parts of a string make up the string, whatever the size of the buffer, if a character fits.
pub proof fn law_all_parts(s: Seq<u8>, i: int, stash: Seq<u8>, size: nat)
    requires
        0 <= i <= s.len(),
        stash.len() <= 4 <= size,
        text(s, i) is Ok,
    ensures
        all_parts(s, i, stash, size) == Some(stash + text(s, i)->Ok_0.1),
    decreases s.len() - i, stash.len(),
{
    let left = less(Some(size), stash.len());
    law_chunks(s, i, left);
    lemma_chunk(s, i, left);
    let c = chunk(s, i, left)->Ok_0;
    if !c.done {
        let t = text(s, c.at)->Ok_0.1;
        if c.at > i || c.stash.len() < stash.len() {
            law_all_parts(s, c.at, c.stash, size);
            assert(stash + c.out + (c.stash + t) =~= stash + (c.out + c.stash + t));
        }
    }
}

/// A string whose text fits is read in one part.
pub(crate) proof fn lemma_whole_part(s: Seq<u8>, i: int, n: nat)
    requires
        0 <= i <= s.len(),
        text(s, i) is Ok,
        text(s, i)->Ok_0.1.len() <= n,
    ensures
        chunk(s, i, Some(n)) == Ok::<Chunk, Fault>(
            Chunk {
                at: text(s, i)->Ok_0.0,
                out: text(s, i)->Ok_0.1,
                stash: Seq::empty(),
                done: true,
            },
        ),
    decreases s.len() - i,
{
    if s[i] != QUOTE {
        lemma_unit(s, i);
        let (k, b) = unit(s, i)->Ok_0;
        lemma_whole_part(s, k, (n - b.len()) as nat);
    }
}

/// The text of a string is at most four times as long as what stands for it.
proof fn lemma_text_len(s: Seq<u8>, i: int)
    requires
        0 <= i <= s.len(),
        text(s, i) is Ok,
    ensures
        text(s, i)->Ok_0.1.len() <= 4 * (s.len() - i),
    decreases s.len() - i,
{
    if s[i] != QUOTE {
        lemma_unit(s, i);
        lemma_text_len(s, unit(s, i)->Ok_0.0);
    }
}

/// An event takes the step that its token stands for.
pub(crate) proof fn lemma_event(d: Doc, c: Cursor, t: Token, size: nat)
    requires
        coherent(d, c),
        look(d, c) == Ok::<(Token, Cursor), Fault>((t, c)),
        t != Token::Eof,
    ensures
        event(d, c, size) matches Outcome::Done(_, c1) ==> step(d, c, t) == Outcome::Done((), c1),
        size >= 4 * d.bytes.len() ==> (step(d, c, t) matches Outcome::Done(_, c1) ==> event(
            d,
            c,
            size,
        ) matches Outcome::Done(_, x) && x == c1),
{
    lemma_look(d, c);
    lemma_next_token(d.bytes, c.at, c.state, d.multi);
    let s = d.bytes;
    if t == Token::Key || t == Token::String {
        law_chunks(s, c.at + 1, Some(size));
        if text(s, c.at + 1) is Ok {
            lemma_text_len(s, c.at + 1);
            if size >= 4 * s.len() {
                lemma_whole_part(s, c.at + 1, size);
            }
        }
        if chunk(s, c.at + 1, Some(size)) is Ok {
            let out = chunk(s, c.at + 1, Some(size))->Ok_0.out;
            assert(Seq::<u8>::empty() + out =~= out);
        }
    } else if t == Token::Number {
        lemma_number(s, c.at);
    }
}

/// Where reading events leads, from `c` on, until no more than `depth` containers are open.
pub open spec fn after_events(d: Doc, c: Cursor, depth: int, size: nat) -> Option<Cursor>
    decreases d.bytes.len() - c.at,
{
    match event(d, c, size) {
        Outcome::Done(_, c1) => if c1.stack.len() <= depth {
            Some(c1)
        } else if c.at < c1.at <= d.bytes.len() {
            after_events(d, c1, depth, size)
        } else {
            None
        },
        _ => None,
    }
}

/// Events lead out of the open containers.
proof fn lemma_events(d: Doc, c: Cursor, depth: int, size: nat)
    requires
        coherent(d, c),
        !(c.state is InStr),
        0 <= depth <= c.stack.len(),
        depth == c.stack.len() ==> (look(d, c) matches Ok((t, _)) && starts_value(t)),
    ensures
        ({
            let goal = match look(d, c) {
                Err(f) => Err(f),
                Ok((_, c1)) => through(d, c1, depth),
            };
            &&& after_events(d, c, depth, size) matches Some(x) ==> goal == Ok::<Cursor, Fault>(x)
            &&& size >= 4 * d.bytes.len() ==> (goal matches Ok(x) ==> after_events(
                d,
                c,
                depth,
                size,
            ) == Some(x))
        }),
    decreases d.bytes.len() - c.at,
{
    lemma_look(d, c);
    if look(d, c) is Ok {
        let (t, c1) = look(d, c)->Ok_0;
        lemma_look(d, c1);
        assert(event(d, c, size) == event(d, c1, size));
        if t != Token::Eof {
            lemma_event(d, c1, t, size);
            lemma_step(d, c1, t, depth);
            if step(d, c1, t) is Done {
                let c2 = step(d, c1, t)->Done_1;
                if c2.stack.len() > depth {
                    lemma_events(d, c2, depth, size);
                    lemma_drain_look(d, c2, depth);
                }
            }
        } else {
            lemma_drain_look(d, c1, depth);
        }
    }
}

/// Reading the events of a value leads where skipping it leads, if the buffer holds its texts.
pub proof fn law_events(d: Doc, c: Cursor, size: nat)
    requires
        coherent(d, c),
        !(c.state is InStr),
        look(d, c) matches Ok((t, _)) && starts_value(t),
    ensures
        after_events(d, c, c.stack.len() as int, size) matches Some(x) ==> skip(d, c)
            == Outcome::Done((), x),
        size >= 4 * d.bytes.len() ==> (skip(d, c) matches Outcome::Done(_, x) ==> after_events(
            d,
            c,
            c.stack.len() as int,
            size,
        ) == Some(x)),
{
    lemma_look(d, c);
    lemma_events(d, c, c.stack.len() as int, size);
}

} // verus!
