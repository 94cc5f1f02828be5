//! What the steps of a [cursor](crate::cursor) do besides reading values: laws on what is refused, on
//! strings that are read in parts, and on leaving containers.

use vstd::prelude::*;

use crate::cursor::{
    begin, close, coherent, drain, finish, has_next, leave, lemma_look, look, match_key, next_part,
    no_escape, open_string, past_string, past_value, peek, raw, read_bool, read_key, read_null,
    read_num, read_number, read_str, read_str_ref, room, skip, skip_key, span, unwind, Cursor, Doc,
    Outcome,
};
use crate::edit_laws::{between, left_at};
use crate::error::ErrorKind;
use crate::grammar::{chunk, lemma_next_token, pour, rest, text, Fault};
use crate::parser::{State, Token};
use crate::path::Step;
use crate::reading::{
    behind_value, in_front_of, law_part_full, law_reads_text, lemma_in_front, refused,
};
use crate::splice::left;
use crate::string::{law_chunks, lemma_chunk};
use crate::tree::Json;

verus! {

/// What is met decides what is refused: where the token `t` is met, reading anything else is refused,
/// there, with what was asked for and what was found; where no value is met, so are skipping and
/// spans.
pub proof fn law_refusals<T>(d: Doc, c: Cursor, t: Token, c1: Cursor, size: nat, parsed: Option<T>)
    requires
        peek(d, c) == Outcome::Done(t, c1),
        !(c.state is InStr),
    ensures
        t != Token::BeginObject ==> refused(begin(d, c, true), Token::BeginObject, t, c1),
        t != Token::BeginArray ==> refused(begin(d, c, false), Token::BeginArray, t, c1),
        t != Token::String ==> refused(read_str(d, c, size), Token::String, t, c1),
        t != Token::String ==> refused(read_str_ref(d, c, size), Token::String, t, c1),
        t != Token::String && t != Token::Key ==> refused(open_string(d, c), Token::String, t, c1),
        t != Token::Number ==> refused(read_number(d, c, size), Token::Number, t, c1),
        t != Token::Number ==> refused(read_num(d, c, parsed), Token::Number, t, c1),
        t != Token::Bool ==> refused(read_bool(d, c), Token::Bool, t, c1),
        t != Token::Null ==> refused(read_null(d, c), Token::Null, t, c1),
        t != Token::Key && c1.state != State::ObjValue ==> {
            &&& refused(read_key(d, c, size), Token::Key, t, c1)
            &&& refused(skip_key(d, c), Token::Key, t, c1)
        },
        t == Token::Key || t == Token::EndObject || t == Token::EndArray || t == Token::Eof ==> {
            let f = Fault { kind: ErrorKind::UnexpectedToken(t), at: c1.at };
            &&& skip(d, c) == Outcome::<()>::Refused(f, c1)
            &&& span(d, c) == Outcome::<(int, int)>::Refused(f, c1)
            &&& raw(d, c) == Outcome::<Seq<u8>>::Refused(f, c1)
        },
        finish(d, c) == (if t == Token::Eof {
            Outcome::Done((), c1)
        } else if c1.stack.len() == 0 {
            Outcome::<()>::Refused(Fault { kind: ErrorKind::TrailingData, at: c1.at }, c1)
        } else {
            Outcome::<()>::Refused(Fault { kind: ErrorKind::UnexpectedToken(t), at: c1.at }, c1)
        }),
{
}

/// Where as many containers are open as the limit allows, no other is opened.
pub proof fn law_too_deep(d: Doc, c: Cursor, c1: Cursor, object: bool)
    requires
        peek(d, c) == Outcome::Done(
            if object {
                Token::BeginObject
            } else {
                Token::BeginArray
            },
            c1,
        ),
        c1.stack.len() >= d.limit,
    ensures
        begin(d, c, object) == Outcome::<()>::Refused(
            Fault { kind: ErrorKind::DepthLimitExceeded, at: c1.at },
            c1,
        ),
{
}

/// Where the value of a member was not read, it is passed over on the way to the next key.
pub proof fn law_passes_value(d: Doc, c: Cursor, b: int, t: Json, step: Step, size: nat)
    requires
        in_front_of(d, c, b, t),
        c.state == State::ObjValue,
    ensures
        ({
            let next = behind_value(c, b);
            &&& has_next(d, c) == has_next(d, next)
            &&& read_key(d, c, size) == read_key(d, next, size)
            &&& skip_key(d, c) == skip_key(d, next)
            &&& match_key(d, c, step) == match_key(d, next, step)
        }),
{
    lemma_in_front(d, c, b, t);
    let next = behind_value(c, b);
    assert(past_value(c, b) == next);
    lemma_look(d, c);
    assert(coherent(d, next));
    lemma_look(d, next);
}

/// Closing a container, wherever in it, leads to where it ends.
pub proof fn law_closes(d: Doc, c: Cursor)
    requires
        between(d, c),
        c.stack.len() > 0,
    ensures
        ({
            let end = Cursor {
                at: left_at(d, c).0->Ok_0,
                state: if c.stack.len() == 1 {
                    State::TopDone
                } else if c.stack[c.stack.len() - 2] {
                    State::ObjComma
                } else {
                    State::ArrComma
                },
                stack: c.stack.drop_last(),
                stash: Seq::empty(),
            };
            &&& close(d, c, c.stack.last()) == Outcome::Done((), end)
            &&& unwind(d, c, c.stack.len() - 1) == Outcome::Done((), end)
            &&& close(d, c, !c.stack.last()) matches Outcome::Refused(f, _) && f.kind is TypeMismatch
        }),
{
    reveal(left);
    lemma_look(d, c);
    lemma_next_token(d.bytes, c.at, c.state, d.multi);
    let c1 = look(d, c)->Ok_0.1;
    assert(rest(d.bytes, c1.at, c1.state, room(d, c)) == rest(
        d.bytes,
        c.at,
        c.state,
        room(d, c),
    ));
    let stack = c.stack.drop_last();
    assert(stack.len() > 0 ==> stack.last() == c.stack[c.stack.len() - 2]);
    assert(c1.stack == c.stack);
    reveal_with_fuel(drain, 3);
    assert(close(d, c, c.stack.last()) is Done);
    assert(unwind(d, c, c.stack.len() - 1) is Done);
}

/// Unwinding to a depth is unwinding to the depth above it, and then leaving one more container; where
/// no more are open, nothing happens.
pub proof fn law_unwinds(d: Doc, c: Cursor, depth: int)
    requires
        coherent(d, c),
        !(c.state is InStr),
        0 <= depth,
    ensures
        c.stack.len() <= depth ==> unwind(d, c, depth) == Outcome::Done((), c),
        c.stack.len() > depth + 1 ==> unwind(d, c, depth) == (match unwind(d, c, depth + 1) {
            Outcome::Done(_, c1) => unwind(d, c1, depth),
            o => o,
        }),
        unwind(d, c, depth) matches Outcome::Done(_, c1) ==> c1.stack.len() == (if c.stack.len()
            <= depth {
            c.stack.len() as int
        } else {
            depth
        }),
{
    lemma_drain_on(d, c, depth);
    lemma_drain_len(d, c, depth);
    lemma_drain_len(d, c, depth + 1);
}

/// How many containers are left open.
proof fn lemma_drain_len(d: Doc, c: Cursor, depth: int)
    requires
        0 <= depth,
        !(c.state is InStr),
    ensures
        drain(d, c, depth) matches Ok(c1) ==> {
            &&& !(c1.state is InStr)
            &&& c1.stack.len() == (if c.stack.len() <= depth {
                c.stack.len() as int
            } else {
                depth
            })
        },
    decreases c.stack.len(),
{
    if c.stack.len() > depth && rest(d.bytes, c.at, c.state, room(d, c)) is Ok {
        lemma_drain_len(d, leave(c, rest(d.bytes, c.at, c.state, room(d, c))->Ok_0), depth);
    }
}

/// Containers are left one by one.
proof fn lemma_drain_on(d: Doc, c: Cursor, depth: int)
    requires
        0 <= depth,
    ensures
        c.stack.len() > depth ==> drain(d, c, depth) == (match drain(d, c, depth + 1) {
            Ok(c1) => drain(d, c1, depth),
            Err(f) => Err(f),
        }),
    decreases c.stack.len(),
{
    if c.stack.len() > depth + 1 && rest(d.bytes, c.at, c.state, room(d, c)) is Ok {
        lemma_drain_on(d, leave(c, rest(d.bytes, c.at, c.state, room(d, c))->Ok_0), depth);
    }
}

/// A text is opened at its first character, and read in parts; each part is what is left of it, if that
/// fits, and the last of them is followed by none. Without a part that is not empty, the buffer is
/// too small.
pub proof fn law_next_part(d: Doc, c: Cursor, size: nat, k: int, x: Seq<u8>)
    requires
        c.state is InStr,
        text(d.bytes, c.at) == Ok::<(int, Seq<u8>), Fault>((k, x)),
        0 <= c.at <= d.bytes.len(),
        c.stash.len() <= 4,
    ensures
        ({
            let all = c.stash + x;
            let end = past_string(c, c.state == (State::InStr { key: true }), k);
            &&& next_part(d, c, true, size) == Outcome::Done(None::<Seq<u8>>, c)
            &&& all.len() == 0 ==> next_part(d, c, false, size) == Outcome::Done(
                None::<Seq<u8>>,
                end,
            )
            &&& 0 < all.len() <= size ==> next_part(d, c, false, size) == Outcome::Done(
                Some(all),
                end,
            )
            &&& all.len() > size ==> (match next_part(d, c, false, size) {
                Outcome::Done(out, c1) => {
                    &&& out matches Some(b) && 0 < b.len() <= size && b == all.subrange(
                        0,
                        b.len() as int,
                    )
                    &&& c1.state == c.state
                    &&& c1.stack == c.stack
                    &&& text(d.bytes, c1.at) matches Ok((k1, y)) && k1 == k && out->Some_0
                        + c1.stash + y == all
                },
                Outcome::Refused(f, c1) => f.kind == ErrorKind::BufferTooSmall && size < 4,
                Outcome::Broken(_) => false,
            })
        }),
{
    let all = c.stash + x;
    law_part_full(d.bytes, c.at, c.stash, size);
    if c.stash.len() <= size {
        let r = (size - c.stash.len()) as nat;
        law_chunks(d.bytes, c.at, Some(r));
        lemma_chunk(d.bytes, c.at, Some(r));
    }
    let p = pour(d.bytes, c.at, c.stash, Some(size))->Ok_0;
    if p.done {
        assert(p.out =~= all);
    } else {
        assert(p.out + p.stash + text(d.bytes, p.at)->Ok_0.1 =~= all);
        assert(all.subrange(0, p.out.len() as int) =~= p.out);
    }
}

/// In front of a text, it is opened at its first character; a key is opened likewise.
pub proof fn law_opens_text(d: Doc, c: Cursor, b: int, t: Json)
    requires
        in_front_of(d, c, b, t),
        t is Text,
    ensures
        open_string(d, c) == Outcome::Done(
            (),
            Cursor { at: c.at + 1, state: State::InStr { key: false }, ..c },
        ),
        text(d.bytes, c.at + 1) == Ok::<(int, Seq<u8>), Fault>((b, t->Text_0)),
{
    lemma_in_front(d, c, b, t);
}

/// A text that does not fit is read as far as whole characters go, and the rest is left to be read.
pub proof fn law_rest_left(d: Doc, c: Cursor, b: int, t: Json, size: nat)
    requires
        in_front_of(d, c, b, t),
        t is Text,
        t->Text_0.len() > size,
    ensures
        read_str(d, c, size) matches Outcome::Refused(f, c1) && {
            &&& f.kind == ErrorKind::BufferTooSmall
            &&& f.at == c1.at
            &&& c1.state == (State::InStr { key: false })
            &&& c1.stack == c.stack
            &&& text(d.bytes, c1.at) matches Ok((k, y)) && {
                let rest = c1.stash + y;
                let n = t->Text_0.len() - rest.len();
                &&& k == b
                &&& 0 <= n <= size
                &&& t->Text_0.skip(n) == rest
                &&& n < size ==> n + c1.stash.len() > size
            }
        },
{
    let x = t->Text_0;
    lemma_in_front(d, c, b, t);
    law_opens_text(d, c, b, t);
    let i = c.at + 1;
    law_part_full(d.bytes, i, Seq::empty(), size);
    law_chunks(d.bytes, i, Some(size));
    let p = chunk(d.bytes, i, Some(size))->Ok_0;
    assert(c.stash =~= Seq::<u8>::empty());
    assert(Seq::<u8>::empty() + p.out =~= p.out);
    let y = text(d.bytes, p.at)->Ok_0.1;
    assert(p.out + p.stash + y =~= x);
    assert(x.skip(p.out.len() as int) =~= p.stash + y);
}

/// A text without a backslash is read whatever the size of the buffer; else it has to fit.
pub proof fn law_borrows(d: Doc, c: Cursor, b: int, t: Json, size: nat)
    requires
        in_front_of(d, c, b, t),
        t is Text,
    ensures
        if (forall|j: int| c.at < j < b ==> #[trigger] d.bytes[j] != '\\' as u8) || t->Text_0.len()
            <= size {
            read_str_ref(d, c, size) == Outcome::Done(t->Text_0, behind_value(c, b))
        } else {
            read_str_ref(d, c, size) matches Outcome::Refused(f, _) && f.kind
                == ErrorKind::BufferTooSmall
        },
{
    lemma_in_front(d, c, b, t);
    law_opens_text(d, c, b, t);
    law_reads_text(d, c, b, t, size);
    if forall|j: int| c.at < j < b ==> #[trigger] d.bytes[j] != '\\' as u8 {
        assert(no_escape(d.bytes, c.at + 1, b));
    }
    if no_escape(d.bytes, c.at + 1, b) {
        assert forall|j: int| c.at < j < b implies #[trigger] d.bytes[j] != '\\' as u8 by {}
    }
}

} // verus!
