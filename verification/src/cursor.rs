//! Where a parser stands in a document, and where each of its operations takes it.

use vstd::prelude::*;
use vstd::utf8::valid_utf8;

use crate::error::ErrorKind;
use crate::grammar::{
    lemma_next_token, lemma_rest, lemma_text, lemma_value, literal, next_token, number, pour, rest,
    starts_value, text, value, value_end, Fault, BACKSLASH,
};
use crate::parser::{State, Token};
use crate::path::{step_index, step_name, Step};

verus! {

/// A document, and how it is to be parsed.
pub struct Doc {
    /// The bytes of the document.
    pub bytes: Seq<u8>,
    /// How deep it may nest.
    pub limit: int,
    /// Whether it may hold more than one top-level value.
    pub multi: bool,
}

/// A position in a document, with what led there.
#[verifier::ext_equal]
pub struct Cursor {
    /// The position of the next byte.
    pub at: int,
    /// What is expected there.
    pub state: State,
    /// The containers that are open, outermost first: `true` for an object.
    pub stack: Seq<bool>,
    /// A character of an open string that was read but not given out.
    pub stash: Seq<u8>,
}

/// What an operation does.
pub enum Outcome<T> {
    /// It succeeds, and leaves the parser at a cursor.
    Done(T, Cursor),
    /// It fails because of what the caller asked for, and leaves the parser at a cursor.
    Refused(Fault, Cursor),
    /// It fails because of what the document holds.
    Broken(Fault),
}

/// A refusal for the reason `kind`, at the cursor itself.
pub open spec fn refuse<T>(kind: ErrorKind, c: Cursor) -> Outcome<T> {
    Outcome::Refused(Fault { kind, at: c.at }, c)
}

/// A refusal because the token `found` is not the one asked for.
pub open spec fn mismatch<T>(expected: Token, found: Token, c: Cursor) -> Outcome<T> {
    refuse(ErrorKind::TypeMismatch { expected, found }, c)
}

/// Whether the innermost open container is an object (`Some(true)`) or an array.
pub open spec fn innermost(stack: Seq<bool>) -> Option<bool> {
    if stack.len() == 0 {
        None
    } else {
        Some(stack.last())
    }
}

/// The cursor is one that parsing can lead to.
pub open spec fn coherent(d: Doc, c: Cursor) -> bool {
    &&& 0 <= c.at <= d.bytes.len()
    &&& c.stack.len() <= d.limit
    &&& c.stash.len() <= 4
    &&& valid_utf8(c.stash)
    &&& !(c.state is InStr) ==> c.stash.len() == 0
    &&& match c.state {
        State::TopValue | State::TopDone => innermost(c.stack) is None,
        State::ArrFirst | State::ArrValue | State::ArrComma => innermost(c.stack) == Some(false),
        State::ObjFirst
        | State::ObjKey
        | State::ObjColon
        | State::ObjValue
        | State::ObjComma => innermost(c.stack) == Some(true),
        State::InStr { key } => key ==> innermost(c.stack) == Some(true),
    }
}

/// The state after a complete value in the innermost of `stack`.
pub open spec fn after_value(stack: Seq<bool>) -> State {
    match innermost(stack) {
        None => State::TopDone,
        Some(true) => State::ObjComma,
        Some(false) => State::ArrComma,
    }
}

/// The state after a complete string, which was a key or a value.
pub open spec fn after_string(key: bool, stack: Seq<bool>) -> State {
    if key {
        State::ObjColon
    } else {
        after_value(stack)
    }
}

/// The cursor after a complete value that ends at `k`.
pub open spec fn past_value(c: Cursor, k: int) -> Cursor {
    Cursor { at: k, state: after_value(c.stack), stack: c.stack, stash: Seq::empty() }
}

/// The cursor after a complete string that ends at `k`.
pub open spec fn past_string(c: Cursor, key: bool, k: int) -> Cursor {
    Cursor { at: k, state: after_string(key, c.stack), stack: c.stack, stash: Seq::empty() }
}

/// How many more levels may be opened.
pub open spec fn room(d: Doc, c: Cursor) -> int {
    d.limit - c.stack.len()
}

/// Skips the rest of a string that is open.
pub open spec fn settle(d: Doc, c: Cursor) -> Result<Cursor, Fault> {
    match c.state {
        State::InStr { key } => match text(d.bytes, c.at) {
            Err(f) => Err(f),
            Ok((k, _)) => Ok(past_string(c, key, k)),
        },
        _ => Ok(c),
    }
}

/// Advances to the next token.
pub open spec fn look(d: Doc, c: Cursor) -> Result<(Token, Cursor), Fault> {
    match settle(d, c) {
        Err(f) => Err(f),
        Ok(c) => match next_token(d.bytes, c.at, c.state, d.multi) {
            Err(f) => Err(f),
            Ok(m) => Ok((m.token, Cursor { at: m.at, state: m.state, ..c })),
        },
    }
}

/// `look` as an outcome.
pub open spec fn peek(d: Doc, c: Cursor) -> Outcome<Token> {
    match look(d, c) {
        Err(f) => Outcome::Broken(f),
        Ok((t, c)) => Outcome::Done(t, c),
    }
}

/// Whether the cursor stands right at the next token.
pub open spec fn peeked(d: Doc, c: Cursor) -> bool {
    look(d, c) matches Ok((t, c1)) && t != Token::Eof && c1 == c
}

/// Advances to the next token, which has to be `want`.
pub open spec fn expect(d: Doc, c: Cursor, want: Token) -> Outcome<()> {
    match look(d, c) {
        Err(f) => Outcome::Broken(f),
        Ok((t, c)) => if t == want {
            Outcome::Done((), c)
        } else {
            mismatch(want, t, c)
        },
    }
}

/// Opens the container at the cursor.
pub open spec fn enter(d: Doc, c: Cursor, object: bool) -> Outcome<()> {
    if room(d, c) <= 0 {
        refuse(ErrorKind::DepthLimitExceeded, c)
    } else {
        Outcome::Done(
            (),
            Cursor {
                at: c.at + 1,
                state: if object {
                    State::ObjFirst
                } else {
                    State::ArrFirst
                },
                stack: c.stack.push(object),
                stash: c.stash,
            },
        )
    }
}

/// The cursor after the innermost container, whose closing bracket ends at `k`.
pub open spec fn leave(c: Cursor, k: int) -> Cursor {
    Cursor {
        at: k,
        state: after_value(c.stack.drop_last()),
        stack: c.stack.drop_last(),
        stash: Seq::empty(),
    }
}

/// Advances to the next value, which has to be a container of the given kind, and opens it.
pub open spec fn begin(d: Doc, c: Cursor, object: bool) -> Outcome<()> {
    let want = if object {
        Token::BeginObject
    } else {
        Token::BeginArray
    };
    match expect(d, c, want) {
        Outcome::Done(_, c) => enter(d, c, object),
        o => o,
    }
}

/// Skips what is left of the innermost container, which has to be of the given kind, and
/// its closing bracket.
pub open spec fn close(d: Doc, c: Cursor, object: bool) -> Outcome<()> {
    match look(d, c) {
        Err(f) => Outcome::Broken(f),
        Ok((t, c)) => if innermost(c.stack) == Some(object) {
            match rest(d.bytes, c.at, c.state, room(d, c)) {
                Err(f) => Outcome::Broken(f),
                Ok(k) => Outcome::Done((), leave(c, k)),
            }
        } else {
            mismatch(
                if object {
                    Token::EndObject
                } else {
                    Token::EndArray
                },
                t,
                c,
            )
        },
    }
}

/// Closes containers, outside of a string, until only `depth` are open.
pub open spec fn drain(d: Doc, c: Cursor, depth: int) -> Result<Cursor, Fault>
    decreases c.stack.len(),
{
    if c.stack.len() <= depth || c.stack.len() == 0 {
        Ok(c)
    } else {
        match rest(d.bytes, c.at, c.state, room(d, c)) {
            Err(f) => Err(f),
            Ok(k) => drain(d, leave(c, k), depth),
        }
    }
}

/// Skips what is left of the open containers until only `depth` are open.
pub open spec fn unwind(d: Doc, c: Cursor, depth: int) -> Outcome<()> {
    if c.stack.len() <= depth {
        Outcome::Done((), c)
    } else {
        match settle(d, c) {
            Err(f) => Outcome::Broken(f),
            Ok(c) => match drain(d, c, depth) {
                Err(f) => Outcome::Broken(f),
                Ok(c) => Outcome::Done((), c),
            },
        }
    }
}

/// Skips the next value, or the rest of a string that is open.
pub open spec fn skip(d: Doc, c: Cursor) -> Outcome<()> {
    if c.state is InStr {
        match settle(d, c) {
            Err(f) => Outcome::Broken(f),
            Ok(c) => Outcome::Done((), c),
        }
    } else {
        match look(d, c) {
            Err(f) => Outcome::Broken(f),
            Ok((t, c)) => if !starts_value(t) {
                refuse(ErrorKind::UnexpectedToken(t), c)
            } else {
                match value(d.bytes, c.at, room(d, c)) {
                    Err(f) => Outcome::Broken(f),
                    Ok(k) => Outcome::Done((), past_value(c, k)),
                }
            },
        }
    }
}

/// Advances to the next key, past a member value that was not read, or else to the next
/// token.
pub open spec fn member(d: Doc, c: Cursor) -> Result<(Token, Cursor), Fault> {
    match look(d, c) {
        Err(f) => Err(f),
        Ok((t, c)) => if c.state == State::ObjValue {
            match value(d.bytes, c.at, room(d, c)) {
                Err(f) => Err(f),
                Ok(k) => look(d, past_value(c, k)),
            }
        } else {
            Ok((t, c))
        },
    }
}

/// Whether the innermost container has another member or element.
pub open spec fn has_next(d: Doc, c: Cursor) -> Outcome<bool> {
    match member(d, c) {
        Err(f) => Outcome::Broken(f),
        Ok((t, c)) => Outcome::Done(
            t != Token::EndObject && t != Token::EndArray && t != Token::Eof,
            c,
        ),
    }
}

/// The cursor inside the string that starts at `c`.
pub open spec fn inside_string(c: Cursor, key: bool) -> Cursor {
    Cursor { at: c.at + 1, state: State::InStr { key }, ..c }
}

/// Opens the next key.
pub open spec fn open_key(d: Doc, c: Cursor) -> Outcome<()> {
    match member(d, c) {
        Err(f) => Outcome::Broken(f),
        Ok((t, c)) => if t == Token::Key {
            Outcome::Done((), inside_string(c, true))
        } else {
            mismatch(Token::Key, t, c)
        },
    }
}

/// Skips the next key.
pub open spec fn skip_key(d: Doc, c: Cursor) -> Outcome<()> {
    match open_key(d, c) {
        Outcome::Done(_, c) => match settle(d, c) {
            Err(f) => Outcome::Broken(f),
            Ok(c) => Outcome::Done((), c),
        },
        o => o,
    }
}

/// Reads the rest of the string that is open, which has to fit in `size` bytes. What does
/// not fit is left to be read.
pub open spec fn read_open(d: Doc, c: Cursor, size: nat) -> Outcome<Seq<u8>> {
    match pour(d.bytes, c.at, c.stash, Some(size)) {
        Err(f) => Outcome::Broken(f),
        Ok(p) => if p.done {
            Outcome::Done(p.out, past_string(c, c.state == (State::InStr { key: true }), p.at))
        } else {
            refuse(ErrorKind::BufferTooSmall, Cursor { at: p.at, stash: p.stash, ..c })
        },
    }
}

/// Reads the next key, which has to fit in `size` bytes.
pub open spec fn read_key(d: Doc, c: Cursor, size: nat) -> Outcome<Seq<u8>> {
    match open_key(d, c) {
        Outcome::Done(_, c) => read_open(d, c, size),
        Outcome::Refused(f, c) => Outcome::Refused(f, c),
        Outcome::Broken(f) => Outcome::Broken(f),
    }
}

/// Reads the next string value, which has to fit in `size` bytes.
pub open spec fn read_str(d: Doc, c: Cursor, size: nat) -> Outcome<Seq<u8>> {
    match expect(d, c, Token::String) {
        Outcome::Done(_, c) => read_open(d, inside_string(c, false), size),
        Outcome::Refused(f, c) => Outcome::Refused(f, c),
        Outcome::Broken(f) => Outcome::Broken(f),
    }
}

/// Opens the next string value or key.
pub open spec fn open_string(d: Doc, c: Cursor) -> Outcome<()> {
    match look(d, c) {
        Err(f) => Outcome::Broken(f),
        Ok((t, c)) => if t == Token::String || t == Token::Key {
            Outcome::Done((), inside_string(c, t == Token::Key))
        } else {
            mismatch(Token::String, t, c)
        },
    }
}

/// Compares the next key with what `step` designates.
pub open spec fn match_key(d: Doc, c: Cursor, step: Step) -> Outcome<bool> {
    match open_key(d, c) {
        Outcome::Done(_, c) => match text(d.bytes, c.at) {
            Err(f) => Outcome::Broken(f),
            Ok((k, name)) => Outcome::Done(
                step_name(step) == Some(name),
                past_string(c, true, k),
            ),
        },
        Outcome::Refused(f, c) => Outcome::Refused(f, c),
        Outcome::Broken(f) => Outcome::Broken(f),
    }
}

/// Advances to the value of the first of the remaining members that `step` designates, or
/// to the end of the object if there is none.
pub open spec fn find(d: Doc, c: Cursor, step: Step) -> Outcome<bool>
    decreases d.bytes.len() - c.at,
{
    match member(d, c) {
        Err(f) => Outcome::Broken(f),
        Ok((t, c1)) => if t == Token::EndObject {
            Outcome::Done(false, c1)
        } else if t != Token::Key {
            mismatch(Token::Key, t, c1)
        } else {
            match text(d.bytes, c1.at + 1) {
                Err(f) => Outcome::Broken(f),
                Ok((k, name)) => {
                    let c2 = past_string(c1, true, k);
                    if step_name(step) == Some(name) {
                        match look(d, c2) {
                            Err(f) => Outcome::Broken(f),
                            Ok((_, c3)) => Outcome::Done(true, c3),
                        }
                    } else if c.at < k <= d.bytes.len() {
                        find(d, c2, step)
                    } else {
                        // A key has at least two bytes, so the search always moves on.
                        Outcome::Done(false, c2)
                    }
                },
            }
        },
    }
}

/// Advances to the `n`th of the remaining elements, or to the end of the array if it has
/// fewer.
pub open spec fn nth(d: Doc, c: Cursor, n: nat) -> Outcome<bool>
    decreases n,
{
    match look(d, c) {
        Err(f) => Outcome::Broken(f),
        Ok((t, c)) => if t == Token::EndArray {
            Outcome::Done(false, c)
        } else if !starts_value(t) {
            mismatch(Token::EndArray, t, c)
        } else if n == 0 {
            Outcome::Done(true, c)
        } else {
            match value(d.bytes, c.at, room(d, c)) {
                Err(f) => Outcome::Broken(f),
                Ok(k) => nth(d, past_value(c, k), (n - 1) as nat),
            }
        },
    }
}

/// Enters the next value, a container, and advances to what `step` designates in it.
pub open spec fn descend(d: Doc, c: Cursor, step: Step) -> Outcome<bool> {
    match look(d, c) {
        Err(f) => Outcome::Broken(f),
        Ok((t, c)) => if t == Token::BeginObject {
            match enter(d, c, true) {
                Outcome::Done(_, c) => find(d, c, step),
                Outcome::Refused(f, c) => Outcome::Refused(f, c),
                Outcome::Broken(f) => Outcome::Broken(f),
            }
        } else if t == Token::BeginArray {
            match step_index(step) {
                None => Outcome::Done(false, c),
                Some(i) => match enter(d, c, false) {
                    Outcome::Done(_, c) => nth(d, c, i),
                    Outcome::Refused(f, c) => Outcome::Refused(f, c),
                    Outcome::Broken(f) => Outcome::Broken(f),
                },
            }
        } else if starts_value(t) {
            Outcome::Done(false, c)
        } else {
            refuse(ErrorKind::UnexpectedToken(t), c)
        },
    }
}

/// Advances from the next value to the value at `path` in it, or to where the path ends.
pub open spec fn seek(d: Doc, c: Cursor, path: Seq<Step>) -> Outcome<bool>
    decreases path.len(),
{
    if path.len() == 0 {
        match look(d, c) {
            Err(f) => Outcome::Broken(f),
            Ok((t, c)) => if starts_value(t) {
                Outcome::Done(true, c)
            } else {
                refuse(ErrorKind::UnexpectedToken(t), c)
            },
        }
    } else {
        match descend(d, c, path[0]) {
            Outcome::Done(true, c) => seek(d, c, path.skip(1)),
            o => o,
        }
    }
}

/// Reads the next number as text, which has to fit in `size` bytes.
pub open spec fn read_number(d: Doc, c: Cursor, size: nat) -> Outcome<Seq<u8>> {
    match expect(d, c, Token::Number) {
        Outcome::Done(_, c) => match number(d.bytes, c.at) {
            Err(f) => Outcome::Broken(f),
            Ok(k) => if k - c.at <= size {
                Outcome::Done(d.bytes.subrange(c.at, k), past_value(c, k))
            } else {
                Outcome::Refused(
                    Fault { kind: ErrorKind::BufferTooSmall, at: c.at },
                    past_value(c, k),
                )
            },
        },
        Outcome::Refused(f, c) => Outcome::Refused(f, c),
        Outcome::Broken(f) => Outcome::Broken(f),
    }
}

/// Reads the literal at the cursor: a truth value, or `null`.
pub open spec fn read_literal(d: Doc, c: Cursor) -> Outcome<Option<bool>> {
    match literal(d.bytes, c.at) {
        Err(f) => Outcome::Broken(f),
        Ok(k) => Outcome::Done(
            if d.bytes[c.at] == 0x74 {
                Some(true)
            } else if d.bytes[c.at] == 0x66 {
                Some(false)
            } else {
                None
            },
            past_value(c, k),
        ),
    }
}

/// Reads the next value, `true` or `false`.
pub open spec fn read_bool(d: Doc, c: Cursor) -> Outcome<bool> {
    match expect(d, c, Token::Bool) {
        Outcome::Done(_, c) => match read_literal(d, c) {
            Outcome::Done(v, c) => Outcome::Done(v == Some(true), c),
            Outcome::Refused(f, c) => Outcome::Refused(f, c),
            Outcome::Broken(f) => Outcome::Broken(f),
        },
        Outcome::Refused(f, c) => Outcome::Refused(f, c),
        Outcome::Broken(f) => Outcome::Broken(f),
    }
}

/// Reads the next value, `null`.
pub open spec fn read_null(d: Doc, c: Cursor) -> Outcome<()> {
    match expect(d, c, Token::Null) {
        Outcome::Done(_, c) => match read_literal(d, c) {
            Outcome::Done(_, c) => Outcome::Done((), c),
            Outcome::Refused(f, c) => Outcome::Refused(f, c),
            Outcome::Broken(f) => Outcome::Broken(f),
        },
        o => o,
    }
}

/// Skips the next value, and says where it starts and ends.
pub open spec fn span(d: Doc, c: Cursor) -> Outcome<(int, int)> {
    match look(d, c) {
        Err(f) => Outcome::Broken(f),
        Ok((t, c)) => if !starts_value(t) {
            refuse(ErrorKind::UnexpectedToken(t), c)
        } else {
            match value(d.bytes, c.at, room(d, c)) {
                Err(f) => Outcome::Broken(f),
                Ok(k) => Outcome::Done((c.at, k), past_value(c, k)),
            }
        },
    }
}

/// Checks that nothing but white space is left.
pub open spec fn finish(d: Doc, c: Cursor) -> Outcome<()> {
    match look(d, c) {
        Err(f) => Outcome::Broken(f),
        Ok((t, c)) => if t == Token::Eof {
            Outcome::Done((), c)
        } else if c.stack.len() == 0 {
            refuse(ErrorKind::TrailingData, c)
        } else {
            refuse(ErrorKind::UnexpectedToken(t), c)
        },
    }
}

/// Looking keeps a cursor coherent, loses nothing, and finds the same again.
pub proof fn lemma_look(d: Doc, c: Cursor)
    requires
        coherent(d, c),
    ensures
        match look(d, c) {
            Ok((t, c1)) => {
                &&& coherent(d, c1)
                &&& c.at <= c1.at
                &&& t != Token::Eof ==> c1.at < d.bytes.len()
                &&& t == Token::Eof <==> c1.state == State::TopDone
                &&& c1.stack == c.stack
                &&& c1.stash == Seq::<u8>::empty()
                &&& !(c1.state is InStr)
                &&& c1.state != State::ObjColon
                &&& look(d, c1) == Ok::<(Token, Cursor), Fault>((t, c1))
                &&& c1.state == State::ObjValue ==> starts_value(t)
                &&& t == Token::Key || t == Token::EndObject ==> innermost(c.stack) == Some(true)
                &&& t == Token::EndArray ==> innermost(c.stack) == Some(false)
                &&& t == Token::Key ==> d.bytes[c1.at] == crate::grammar::QUOTE
            },
            Err(f) => c.at <= f.at <= d.bytes.len(),
        },
{
    lemma_text(d.bytes, c.at);
    if settle(d, c) is Ok {
        let c0 = settle(d, c)->Ok_0;
        assert(coherent(d, c0));
        lemma_next_token(d.bytes, c0.at, c0.state, d.multi);
        crate::grammar::lemma_skip_space(d.bytes, c0.at);
        if look(d, c) is Ok {
            let (t, c1) = look(d, c)->Ok_0;
            assert(c1.stash =~= Seq::<u8>::empty());
            assert(Cursor { at: c1.at, state: c1.state, ..c1 } =~= c1);
        }
    }
}

/// Skipping to the next key keeps a cursor coherent, and finds the same again.
pub proof fn lemma_member(d: Doc, c: Cursor)
    requires
        coherent(d, c),
    ensures
        match member(d, c) {
            Ok((t, c1)) => {
                &&& coherent(d, c1)
                &&& c.at <= c1.at
                &&& t != Token::Eof ==> c1.at < d.bytes.len()
                &&& c1.stack == c.stack
                &&& c1.state != State::ObjValue
                &&& look(d, c1) == Ok::<(Token, Cursor), Fault>((t, c1))
            },
            Err(f) => c.at <= f.at <= d.bytes.len(),
        },
{
    lemma_look(d, c);
    if look(d, c) is Ok {
        let (t, c1) = look(d, c)->Ok_0;
        if c1.state == State::ObjValue {
            lemma_value(d.bytes, c1.at, room(d, c1));
            if value(d.bytes, c1.at, room(d, c1)) is Ok {
                lemma_look(d, past_value(c1, value(d.bytes, c1.at, room(d, c1))->Ok_0));
            }
        }
    }
}

/// Closing containers starts with the next token.
pub proof fn lemma_drain_look(d: Doc, c: Cursor, depth: int)
    requires
        coherent(d, c),
        !(c.state is InStr),
        0 <= depth < c.stack.len(),
    ensures
        match look(d, c) {
            Err(f) => drain(d, c, depth) == Err::<Cursor, Fault>(f),
            Ok((t, c1)) => drain(d, c, depth) == drain(d, c1, depth),
        },
{
    lemma_look(d, c);
    lemma_next_token(d.bytes, c.at, c.state, d.multi);
    if look(d, c) is Ok {
        let (t, c1) = look(d, c)->Ok_0;
        let k = rest(d.bytes, c.at, c.state, room(d, c));
        assert(k == rest(d.bytes, c1.at, c1.state, room(d, c1)));
        if k is Ok {
            assert(leave(c, k->Ok_0) == leave(c1, k->Ok_0));
        }
    }
}

/// What skipping the value, or closing the containers, that `c` stands in leads to.
pub open spec fn through(d: Doc, c: Cursor, depth: int) -> Result<Cursor, Fault> {
    if c.stack.len() == depth {
        match value(d.bytes, c.at, room(d, c)) {
            Err(f) => Err(f),
            Ok(k) => Ok(past_value(c, k)),
        }
    } else {
        drain(d, c, depth)
    }
}

/// Opening a container leads where skipping it leads.
pub proof fn lemma_through_enter(d: Doc, c: Cursor, depth: int, object: bool)
    requires
        coherent(d, c),
        0 <= depth <= c.stack.len(),
        look(d, c) == Ok::<(Token, Cursor), Fault>(
            (
                if object {
                    Token::BeginObject
                } else {
                    Token::BeginArray
                },
                c,
            ),
        ),
    ensures
        match enter(d, c, object) {
            Outcome::Done(_, c1) => coherent(d, c1) && through(d, c, depth) == drain(d, c1, depth),
            Outcome::Refused(f, _) => through(d, c, depth) == Err::<Cursor, Fault>(f),
            Outcome::Broken(_) => false,
        },
{
    lemma_look(d, c);
    lemma_value(d.bytes, c.at, room(d, c));
    if room(d, c) > 0 {
        let c1 = enter(d, c, object)->Done_1;
        assert(c1.stack.drop_last() =~= c.stack);
        let inner = value(d.bytes, c.at, room(d, c));
        assert(inner == rest(d.bytes, c1.at, c1.state, room(d, c1)));
        if inner is Ok {
            lemma_through_value(d, c, depth, inner->Ok_0);
            assert(leave(c1, inner->Ok_0) == past_value(c, inner->Ok_0));
        }
    }
}

/// A complete value leads where skipping it leads.
pub proof fn lemma_through_value(d: Doc, c: Cursor, depth: int, k: int)
    requires
        coherent(d, c),
        0 <= depth <= c.stack.len(),
        look(d, c) matches Ok((t, c1)) && c1 == c && starts_value(t),
        value(d.bytes, c.at, room(d, c)) == Ok::<int, Fault>(k),
    ensures
        coherent(d, past_value(c, k)),
        through(d, c, depth) == drain(d, past_value(c, k), depth),
{
    lemma_look(d, c);
    lemma_value(d.bytes, c.at, room(d, c));
    if c.stack.len() > depth {
        let r = rest(d.bytes, c.at, c.state, room(d, c));
        let c1 = past_value(c, k);
        assert(r == rest(d.bytes, k, value_end(c.state), room(d, c)));
        assert(r == rest(d.bytes, c1.at, c1.state, room(d, c1)));
        if r is Ok {
            assert(leave(c, r->Ok_0) == leave(c1, r->Ok_0));
        }
    }
}

/// Skipping a value leads where what it stands in leads.
pub proof fn lemma_through(d: Doc, c: Cursor, depth: int)
    requires
        coherent(d, c),
        0 <= depth <= c.stack.len(),
        look(d, c) matches Ok((t, c1)) && c1 == c && starts_value(t),
    ensures
        match value(d.bytes, c.at, room(d, c)) {
            Err(f) => through(d, c, depth) == Err::<Cursor, Fault>(f),
            Ok(k) => {
                &&& c.at < k <= d.bytes.len()
                &&& coherent(d, past_value(c, k))
                &&& through(d, c, depth) == drain(d, past_value(c, k), depth)
            },
        },
{
    lemma_look(d, c);
    lemma_value(d.bytes, c.at, room(d, c));
    match value(d.bytes, c.at, room(d, c)) {
        Err(f) => lemma_through_broken(d, c, depth),
        Ok(k) => lemma_through_value(d, c, depth, k),
    }
}

/// A value that is broken breaks what it stands in.
pub proof fn lemma_through_broken(d: Doc, c: Cursor, depth: int)
    requires
        coherent(d, c),
        0 <= depth <= c.stack.len(),
        look(d, c) matches Ok((t, c1)) && c1 == c && starts_value(t),
        value(d.bytes, c.at, room(d, c)) is Err,
    ensures
        through(d, c, depth) == Err::<Cursor, Fault>(value(d.bytes, c.at, room(d, c))->Err_0),
{
    lemma_look(d, c);
}

/// A closing bracket leads out of the container.
pub proof fn lemma_through_end(d: Doc, c: Cursor, depth: int)
    requires
        coherent(d, c),
        0 <= depth < c.stack.len(),
        look(d, c) matches Ok((t, c1)) && c1 == c && (t == Token::EndObject || t
            == Token::EndArray),
    ensures
        coherent(d, leave(c, c.at + 1)),
        drain(d, c, depth) == drain(d, leave(c, c.at + 1), depth),
{
    lemma_look(d, c);
}

/// A key leads to its colon.
pub proof fn lemma_through_key(d: Doc, c: Cursor, depth: int)
    requires
        coherent(d, c),
        0 <= depth < c.stack.len(),
        look(d, c) matches Ok((t, c1)) && c1 == c && t == Token::Key,
    ensures
        match text(d.bytes, c.at + 1) {
            Err(f) => drain(d, c, depth) == Err::<Cursor, Fault>(f),
            Ok((k, _)) => {
                &&& coherent(d, past_string(c, true, k))
                &&& drain(d, c, depth) == drain(d, past_string(c, true, k), depth)
            },
        },
{
    lemma_look(d, c);
    lemma_text(d.bytes, c.at + 1);
    if text(d.bytes, c.at + 1) is Ok {
        let k = text(d.bytes, c.at + 1)->Ok_0.0;
        let c1 = past_string(c, true, k);
        let r = rest(d.bytes, c.at, c.state, room(d, c));
        assert(r == rest(d.bytes, c1.at, c1.state, room(d, c1)));
        if r is Ok {
            assert(leave(c, r->Ok_0) == leave(c1, r->Ok_0));
        }
    }
}

/// Unwinding closes one container after the other.
pub proof fn lemma_unwind(d: Doc, c: Cursor, depth: int)
    requires
        coherent(d, c),
        0 <= depth < c.stack.len(),
    ensures
        match close(d, c, c.stack.last()) {
            Outcome::Done(_, c1) => {
                &&& c1.stack.len() == c.stack.len() - 1
                &&& unwind(d, c, depth) == unwind(d, c1, depth)
            },
            Outcome::Refused(_, _) => false,
            Outcome::Broken(f) => unwind(d, c, depth) == Outcome::<()>::Broken(f),
        },
{
    lemma_look(d, c);
    if settle(d, c) is Ok {
        let c0 = settle(d, c)->Ok_0;
        lemma_text(d.bytes, c.at);
        assert(coherent(d, c0));
        lemma_close(d, c0, c.stack.last());
        assert(settle(d, c0) == Ok::<Cursor, Fault>(c0));
        assert(close(d, c, c.stack.last()) == close(d, c0, c.stack.last()));
        lemma_rest(d.bytes, c0.at, c0.state, room(d, c0));
        if rest(d.bytes, c0.at, c0.state, room(d, c0)) is Ok {
            let c1 = leave(c0, rest(d.bytes, c0.at, c0.state, room(d, c0))->Ok_0);
            assert(drain(d, c0, c.stack.len() - 1) == Ok::<Cursor, Fault>(c1));
            assert(settle(d, c1) == Ok::<Cursor, Fault>(c1));
            assert(drain(d, c0, depth) == drain(d, c1, depth));
        }
    }
}

/// Closing the innermost container is draining one level.
pub proof fn lemma_close(d: Doc, c: Cursor, object: bool)
    requires
        coherent(d, c),
        !(c.state is InStr),
        innermost(c.stack) == Some(object),
    ensures
        close(d, c, object) == (match drain(d, c, c.stack.len() - 1) {
            Err(f) => Outcome::Broken(f),
            Ok(c1) => Outcome::Done((), c1),
        }),
{
    lemma_drain_look(d, c, c.stack.len() - 1);
    lemma_look(d, c);
    if look(d, c) is Ok {
        let c1 = look(d, c)->Ok_0.1;
        let r = rest(d.bytes, c1.at, c1.state, room(d, c1));
        if r is Ok {
            let c2 = leave(c1, r->Ok_0);
            assert(drain(d, c2, c1.stack.len() - 1) == Ok::<Cursor, Fault>(c2));
        }
        assert(drain(d, c1, c1.stack.len() - 1) == (match rest(
            d.bytes,
            c1.at,
            c1.state,
            room(d, c1),
        ) {
            Err(f) => Err(f),
            Ok(k) => Ok(leave(c1, k)),
        }));
    }
}

/// Consumes the token `t` at the cursor: a bracket, a key, or a whole value without parts.
pub open spec fn step(d: Doc, c: Cursor, t: Token) -> Outcome<()> {
    match t {
        Token::BeginObject => enter(d, c, true),
        Token::BeginArray => enter(d, c, false),
        Token::EndObject | Token::EndArray => Outcome::Done((), leave(c, c.at + 1)),
        Token::Key => match text(d.bytes, c.at + 1) {
            Err(f) => Outcome::Broken(f),
            Ok((k, _)) => Outcome::Done((), past_string(c, true, k)),
        },
        Token::Eof => refuse(ErrorKind::UnexpectedEof, c),
        _ => match value(d.bytes, c.at, room(d, c)) {
            Err(f) => Outcome::Broken(f),
            Ok(k) => Outcome::Done((), past_value(c, k)),
        },
    }
}

/// Consuming one token leads on the way through the value or the containers it stands in.
pub proof fn lemma_step(d: Doc, c: Cursor, t: Token, depth: int)
    requires
        coherent(d, c),
        0 <= depth <= c.stack.len(),
        depth == c.stack.len() ==> starts_value(t),
        look(d, c) == Ok::<(Token, Cursor), Fault>((t, c)),
    ensures
        t != Token::Eof ==> match step(d, c, t) {
            Outcome::Done(_, c1) => {
                &&& coherent(d, c1)
                &&& !(c1.state is InStr)
                &&& c.at < c1.at <= d.bytes.len()
                &&& c1.stack.len() >= depth
                &&& through(d, c, depth) == drain(d, c1, depth)
            },
            Outcome::Refused(f, _) => through(d, c, depth) == Err::<Cursor, Fault>(f),
            Outcome::Broken(f) => through(d, c, depth) == Err::<Cursor, Fault>(f),
        },
{
    lemma_look(d, c);
    match t {
        Token::BeginObject => lemma_through_enter(d, c, depth, true),
        Token::BeginArray => lemma_through_enter(d, c, depth, false),
        Token::EndObject | Token::EndArray => lemma_through_end(d, c, depth),
        Token::Key => {
            lemma_text(d.bytes, c.at + 1);
            lemma_through_key(d, c, depth);
        },
        Token::Eof => {},
        _ => lemma_through(d, c, depth),
    }
}

/// Reads the next number, of at most 64 bytes, where `parsed` is what its text converts to.
pub open spec fn read_num<T>(d: Doc, c: Cursor, parsed: Option<T>) -> Outcome<T> {
    match read_number(d, c, 64) {
        Outcome::Done(text, c1) => match parsed {
            Some(v) => Outcome::Done(v, c1),
            None => Outcome::Refused(
                Fault { kind: ErrorKind::NumberOutOfRange, at: c1.at - text.len() },
                c1,
            ),
        },
        Outcome::Refused(f, c1) => if f.kind == ErrorKind::BufferTooSmall {
            Outcome::Refused(Fault { kind: ErrorKind::NumberTooLong, at: f.at }, c1)
        } else {
            Outcome::Refused(f, c1)
        },
        Outcome::Broken(f) => Outcome::Broken(f),
    }
}

/// Opening a key keeps a cursor coherent.
pub proof fn lemma_open_key(d: Doc, c: Cursor)
    requires
        coherent(d, c),
    ensures
        open_key(d, c) matches Outcome::Done(_, c1) ==> coherent(d, c1) && c.at < c1.at && c1.stash
            == Seq::<u8>::empty() && innermost(c1.stack) == Some(true),
{
    lemma_member(d, c);
    if member(d, c) is Ok {
        lemma_look(d, member(d, c)->Ok_0.1);
    }
}

/// Finding a member keeps a cursor coherent.
pub proof fn lemma_find(d: Doc, c: Cursor, step: Step)
    requires
        coherent(d, c),
    ensures
        match find(d, c, step) {
            Outcome::Done(found, c1) => {
                &&& coherent(d, c1)
                &&& c.at <= c1.at
                &&& c1.stack == c.stack
                &&& !(c1.state is InStr)
                &&& found ==> c1.state == State::ObjValue
                &&& look(d, c1) matches Ok((t, c2)) && c2 == c1 && (if found {
                    starts_value(t)
                } else {
                    t == Token::EndObject
                })
            },
            Outcome::Refused(_, c1) => coherent(d, c1) && c1.stack == c.stack,
            Outcome::Broken(_) => true,
        },
    decreases d.bytes.len() - c.at,
{
    lemma_member(d, c);
    if member(d, c) is Ok {
        let (t, c1) = member(d, c)->Ok_0;
        lemma_look(d, c1);
        if t == Token::Key {
            lemma_text(d.bytes, c1.at + 1);
            if text(d.bytes, c1.at + 1) is Ok {
                let c2 = past_string(c1, true, text(d.bytes, c1.at + 1)->Ok_0.0);
                lemma_look(d, c2);
                if step_name(step) != Some(text(d.bytes, c1.at + 1)->Ok_0.1) {
                    lemma_find(d, c2, step);
                }
            }
        }
    }
}

/// Counting elements keeps a cursor coherent.
pub proof fn lemma_nth(d: Doc, c: Cursor, n: nat)
    requires
        coherent(d, c),
    ensures
        match nth(d, c, n) {
            Outcome::Done(found, c1) => {
                &&& coherent(d, c1)
                &&& c.at <= c1.at
                &&& c1.stack == c.stack
                &&& !(c1.state is InStr)
                &&& look(d, c1) matches Ok((t, c2)) && c2 == c1 && (if found {
                    starts_value(t)
                } else {
                    t == Token::EndArray
                })
            },
            Outcome::Refused(_, c1) => coherent(d, c1) && c1.stack == c.stack,
            Outcome::Broken(_) => true,
        },
    decreases n,
{
    lemma_look(d, c);
    if look(d, c) is Ok {
        let (t, c1) = look(d, c)->Ok_0;
        lemma_look(d, c1);
        if starts_value(t) && n > 0 {
            lemma_value(d.bytes, c1.at, room(d, c1));
            if value(d.bytes, c1.at, room(d, c1)) is Ok {
                lemma_nth(
                    d,
                    past_value(c1, value(d.bytes, c1.at, room(d, c1))->Ok_0),
                    (n - 1) as nat,
                );
            }
        }
    }
}

/// Descending keeps a cursor coherent.
pub proof fn lemma_descend(d: Doc, c: Cursor, step: Step)
    requires
        coherent(d, c),
    ensures
        match descend(d, c, step) {
            Outcome::Done(found, c1) => coherent(d, c1) && c.at <= c1.at,
            Outcome::Refused(_, c1) => coherent(d, c1),
            Outcome::Broken(_) => true,
        },
{
    lemma_look(d, c);
    if look(d, c) is Ok {
        let (t, c1) = look(d, c)->Ok_0;
        lemma_look(d, c1);
        if t == Token::BeginObject && room(d, c1) > 0 {
            lemma_find(d, enter(d, c1, true)->Done_1, step);
        } else if t == Token::BeginArray && room(d, c1) > 0 && step_index(step) is Some {
            lemma_nth(d, enter(d, c1, false)->Done_1, step_index(step)->Some_0);
        }
    }
}

/// The next event, where the text of a key, string or number has to fit in `size` bytes.
pub open spec fn event(d: Doc, c: Cursor, size: nat) -> Outcome<Happening> {
    match look(d, c) {
        Err(f) => Outcome::Broken(f),
        Ok((t, c)) => match t {
            Token::BeginObject
            | Token::BeginArray
            | Token::EndObject
            | Token::EndArray => happens(step(d, c, t), t, None),
            Token::Key => heard(read_key(d, c, size), t),
            Token::String => heard(read_str(d, c, size), t),
            Token::Number => heard(read_number(d, c, size), t),
            Token::Bool | Token::Null => match read_literal(d, c) {
                Outcome::Done(v, c) => Outcome::Done(Happening { token: t, text: None, truth: v }, c),
                Outcome::Refused(f, c) => Outcome::Refused(f, c),
                Outcome::Broken(f) => Outcome::Broken(f),
            },
            Token::Eof => Outcome::Done(Happening { token: t, text: None, truth: None }, c),
        },
    }
}

/// An event: what was met, with its text or its truth value.
pub struct Happening {
    pub token: Token,
    pub text: Option<Seq<u8>>,
    pub truth: Option<bool>,
}

/// The event of meeting the bracket `t`.
pub open spec fn happens(o: Outcome<()>, t: Token, truth: Option<bool>) -> Outcome<Happening> {
    match o {
        Outcome::Done(_, c) => Outcome::Done(Happening { token: t, text: None, truth }, c),
        Outcome::Refused(f, c) => Outcome::Refused(f, c),
        Outcome::Broken(f) => Outcome::Broken(f),
    }
}

/// The event of reading the text of `t`.
pub open spec fn heard(o: Outcome<Seq<u8>>, t: Token) -> Outcome<Happening> {
    match o {
        Outcome::Done(s, c) => Outcome::Done(
            Happening { token: t, text: Some(s), truth: None },
            c,
        ),
        Outcome::Refused(f, c) => Outcome::Refused(f, c),
        Outcome::Broken(f) => Outcome::Broken(f),
    }
}

/// Reads the next part of the string that is open, as much as fits in `size` bytes, and says
/// whether the string ends there.
pub open spec fn piece(d: Doc, c: Cursor, size: nat) -> Outcome<(Seq<u8>, bool)> {
    match pour(d.bytes, c.at, c.stash, Some(size)) {
        Err(f) => Outcome::Broken(f),
        Ok(p) => Outcome::Done(
            (p.out, p.done),
            if p.done {
                past_string(c, c.state == (State::InStr { key: true }), p.at)
            } else {
                Cursor { at: p.at, stash: p.stash, ..c }
            },
        ),
    }
}

/// Reads the next part of a string that is read in parts, and was read to its end if `done`.
pub open spec fn next_part(d: Doc, c: Cursor, done: bool, size: nat) -> Outcome<Option<Seq<u8>>> {
    if done {
        Outcome::Done(None, c)
    } else if !(c.state is InStr) {
        refuse(ErrorKind::InvalidState, c)
    } else {
        match piece(d, c, size) {
            Outcome::Done((out, end), c1) => if out.len() > 0 {
                Outcome::Done(Some(out), c1)
            } else if end {
                Outcome::Done(None, c1)
            } else {
                refuse(ErrorKind::BufferTooSmall, c1)
            },
            Outcome::Refused(f, c1) => Outcome::Refused(f, c1),
            Outcome::Broken(f) => Outcome::Broken(f),
        }
    }
}

/// Skips the next value, and gives its bytes.
pub open spec fn raw(d: Doc, c: Cursor) -> Outcome<Seq<u8>> {
    match span(d, c) {
        Outcome::Done((a, b), c1) => Outcome::Done(d.bytes.subrange(a, b), c1),
        Outcome::Refused(f, c1) => Outcome::Refused(f, c1),
        Outcome::Broken(f) => Outcome::Broken(f),
    }
}

/// Whether the string content from `i` to `k` holds no escape sequence.
pub open spec fn no_escape(s: Seq<u8>, i: int, k: int) -> bool {
    forall|j: int| i <= j < k ==> #[trigger] s[j] != BACKSLASH
}

/// Whether the next value is a string without an escape sequence.
pub open spec fn borrows(d: Doc, c: Cursor) -> bool {
    expect(d, c, Token::String) matches Outcome::Done(_, c1) && text(d.bytes, c1.at + 1) matches Ok(
        (k, _),
    ) && no_escape(d.bytes, c1.at + 1, k)
}

/// Reads the next string value, which has to fit in `size` bytes if it holds an escape
/// sequence.
pub open spec fn read_str_ref(d: Doc, c: Cursor, size: nat) -> Outcome<Seq<u8>> {
    match expect(d, c, Token::String) {
        Outcome::Done(_, c1) => match text(d.bytes, c1.at + 1) {
            Ok((k, t)) => if no_escape(d.bytes, c1.at + 1, k) {
                Outcome::Done(t, past_value(c1, k))
            } else {
                read_str(d, c, size)
            },
            Err(f) => read_str(d, c, size),
        },
        Outcome::Refused(f, c1) => Outcome::Refused(f, c1),
        Outcome::Broken(f) => Outcome::Broken(f),
    }
}

} // verus!
