//! Whole-value helpers built on the parser and the writer.

use vstd::prelude::*;
use vstd::slice::slice_subrange;
use vstd::string::StringSliceAdditionalSpecFns;

use crate::cursor::{
    coherent, enter, finish, leave, lemma_drain_look, lemma_look, lemma_step, look, open_string,
    past_string, past_value, room, skip, span, step, through, Cursor, Doc, Outcome,
};
use crate::error::{Error, ErrorKind};
use crate::grammar::{
    chunk, lemma_next_token, lemma_skip_space, lemma_text, lemma_value, less, literal, next_token,
    number, rest, skip_space, starts_value, text, value, value_end, value_token, word_of, Fault,
    BRACE_CLOSE, BRACE_OPEN, BRACKET_CLOSE, BRACKET_OPEN, QUOTE,
};
use crate::io::{wrote, Feed, PipeError, Source, Write};
use crate::number::{scanned, Num};
use crate::parser::{start, Parser, Res, State, Token};
use crate::string::{law_chunks, lemma_chunk};
use crate::writer::{
    after_key, after_value, close_text, escaped, inside, key_end, key_text, law_escaped_parts,
    lemma_failed, lemma_wrote, open_text, outside, separator, string_text, JsonWriter, Place,
};

verus! {

/// Result of an operation reading from `S` and writing to `W`.
pub(crate) type PipeResult<T, S, W> = Result<
    T,
    Error<PipeError<<S as Source>::Error, <W as Write>::Error>>,
>;

/// An operation that gave `r` did what `want` says, unless reading failed, which it does not
/// do where `feed` is reliable.
pub open spec fn gave<T, E>(r: Result<T, Error<E>>, want: Outcome<T>, feed: Feed) -> bool {
    match r {
        Err(Error::Io(_)) => !feed.reliable,
        Err(Error::Json { kind, offset }) => match want {
            Outcome::Done(_, _) => false,
            Outcome::Refused(f, _) => kind == f.kind && offset == feed.origin + f.at,
            Outcome::Broken(f) => kind == f.kind && offset == feed.origin + f.at,
        },
        Ok(v) => want matches Outcome::Done(x, _) && x == v,
    }
}

/// Reads one value, and checks that nothing but white space follows it.
pub open spec fn check(d: Doc, c: Cursor) -> Outcome<()> {
    match skip(d, c) {
        Outcome::Done(_, c) => finish(d, c),
        o => o,
    }
}

/// Checks that `src` contains exactly one well-formed JSON value (default nesting limit
/// of 64 levels), using no memory besides the parser.
pub fn validate<S: Source>(src: S) -> (r: Result<(), Error<S::Error>>)
    requires
        src.wf(),
    ensures
        gave(
            r,
            check(
                Doc { bytes: src.feed().input, limit: 64, multi: false },
                start(src.at()),
            ),
            src.feed(),
        ),
{
    let mut p = Parser::new(src);
    p.skip_value()?;
    p.finish()
}

/// White space, one value, and white space: all of `s` from `i` on.
#[verifier::opaque]
pub open spec fn is_document(s: Seq<u8>, i: int, limit: int) -> bool {
    value(s, skip_space(s, i), limit) matches Ok(k) && skip_space(s, k) == s.len()
}

/// [`validate`] accepts exactly the documents: one value with nothing but white space
/// around it.
pub proof fn law_validate(s: Seq<u8>, i: int, limit: int)
    requires
        0 <= i <= s.len(),
        0 <= limit,
    ensures
        check(Doc { bytes: s, limit, multi: false }, start(i)) is Done <==> is_document(
            s,
            i,
            limit,
        ),
{
    reveal(is_document);
    let j = skip_space(s, i);
    lemma_skip_space(s, i);
    lemma_value(s, j, limit);
    if value(s, j, limit) is Ok {
        lemma_skip_space(s, value(s, j, limit)->Ok_0);
    }
}

/// The text that a value, read from `i` on, is written as at a place, and the place after it.
pub open spec fn value_copy(s: Seq<u8>, i: int, room: int, p: Place) -> (Seq<u8>, Place)
    decreases s.len() - i, 0int,
{
    if !(0 <= i < s.len()) {
        (Seq::empty(), p)
    } else {
        match value_token(s[i]) {
            Some(Token::BeginObject) => {
                let r = rest_copy(s, i + 1, State::ObjFirst, room - 1, inside(p));
                (open_text(p, BRACE_OPEN) + r.0, r.1)
            },
            Some(Token::BeginArray) => {
                let r = rest_copy(s, i + 1, State::ArrFirst, room - 1, inside(p));
                (open_text(p, BRACKET_OPEN) + r.0, r.1)
            },
            _ => scalar_copy(s, i, p),
        }
    }
}

/// The text that a value without parts, read from `i` on, is written as.
pub open spec fn scalar_copy(s: Seq<u8>, i: int, p: Place) -> (Seq<u8>, Place) {
    match value_token(s[i]) {
        Some(Token::String) => (string_text(p, text(s, i + 1)->Ok_0.1), after_value(p)),
        Some(Token::Number) => (
            separator(p) + s.subrange(i, number(s, i)->Ok_0),
            after_value(p),
        ),
        _ => (separator(p) + word_of(s[i]), after_value(p)),
    }
}

/// The text that the rest of a container, read from `i` on, is written as.
pub open spec fn rest_copy(s: Seq<u8>, i: int, state: State, room: int, p: Place) -> (
    Seq<u8>,
    Place,
)
    decreases s.len() - i, 1int,
{
    match if 0 <= i <= s.len() {
        next_token(s, i, state, false)
    } else {
        Err(Fault { kind: ErrorKind::UnexpectedEof, at: i })
    } {
        Err(_) => (Seq::empty(), p),
        Ok(m) => {
            proof {
                lemma_next_token(s, i, state, false);
            }
            if m.token == Token::EndObject {
                (close_text(p, BRACE_CLOSE), outside(p))
            } else if m.token == Token::EndArray {
                (close_text(p, BRACKET_CLOSE), outside(p))
            } else if m.token == Token::Eof {
                (Seq::empty(), p)
            } else if m.token == Token::Key {
                match text(s, m.at + 1) {
                    Err(_) => (Seq::empty(), p),
                    Ok((k, name)) => {
                        proof {
                            lemma_text(s, m.at + 1);
                        }
                        let r = rest_copy(s, k, State::ObjColon, room, after_key(p));
                        (key_text(p, name) + r.0, r.1)
                    },
                }
            } else {
                let v = value_copy(s, m.at, room, p);
                match value(s, m.at, room) {
                    Err(_) => v,
                    // A value has at least one byte, so the end always lies ahead.
                    Ok(k) => if m.at < k <= s.len() {
                        let r = rest_copy(s, k, value_end(m.state), room, v.1);
                        (v.0 + r.0, r.1)
                    } else {
                        v
                    },
                }
            }
        },
    }
}

/// The text that the rest of the open containers is written as, until only `depth` are open.
pub open spec fn drain_copy(d: Doc, c: Cursor, depth: int, p: Place) -> (Seq<u8>, Place)
    decreases c.stack.len(),
{
    if c.stack.len() <= depth || c.stack.len() == 0 {
        (Seq::empty(), p)
    } else {
        let r = rest_copy(d.bytes, c.at, c.state, room(d, c), p);
        match rest(d.bytes, c.at, c.state, room(d, c)) {
            Err(_) => r,
            Ok(k) => {
                let q = drain_copy(d, leave(c, k), depth, r.1);
                (r.0 + q.0, q.1)
            },
        }
    }
}

/// The text of what is left of the value, or of the open containers, that `c` stands in.
pub open spec fn through_copy(d: Doc, c: Cursor, depth: int, p: Place) -> (Seq<u8>, Place) {
    if c.stack.len() == depth {
        value_copy(d.bytes, c.at, room(d, c), p)
    } else {
        drain_copy(d, c, depth, p)
    }
}

/// The text that the token `t` at the cursor is written as.
pub open spec fn token_copy(d: Doc, c: Cursor, t: Token, p: Place) -> (Seq<u8>, Place) {
    match t {
        Token::BeginObject => (open_text(p, BRACE_OPEN), inside(p)),
        Token::BeginArray => (open_text(p, BRACKET_OPEN), inside(p)),
        Token::EndObject => (close_text(p, BRACE_CLOSE), outside(p)),
        Token::EndArray => (close_text(p, BRACKET_CLOSE), outside(p)),
        Token::Key => (key_text(p, text(d.bytes, c.at + 1)->Ok_0.1), after_key(p)),
        _ => scalar_copy(d.bytes, c.at, p),
    }
}

/// `b`, written behind `a`.
pub open spec fn behind(a: (Seq<u8>, Place), b: (Seq<u8>, Place)) -> (Seq<u8>, Place) {
    (a.0 + b.0, b.1)
}

/// Skipping white space and separators changes nothing of what is left to write.
pub proof fn lemma_drain_copy_look(d: Doc, c: Cursor, depth: int, p: Place)
    requires
        coherent(d, c),
        !(c.state is InStr),
        0 <= depth < c.stack.len(),
        look(d, c) is Ok,
    ensures
        drain_copy(d, c, depth, p) == drain_copy(d, look(d, c)->Ok_0.1, depth, p),
{
    lemma_look(d, c);
    lemma_next_token(d.bytes, c.at, c.state, d.multi);
    let (t, c1) = look(d, c)->Ok_0;
    let k = rest(d.bytes, c.at, c.state, room(d, c));
    assert(k == rest(d.bytes, c1.at, c1.state, room(d, c1)));
    assert(rest_copy(d.bytes, c.at, c.state, room(d, c), p) == rest_copy(
        d.bytes,
        c1.at,
        c1.state,
        room(d, c1),
        p,
    ));
    if k is Ok {
        assert(leave(c, k->Ok_0) == leave(c1, k->Ok_0));
    }
}

/// After a complete value, what is left is what follows it.
proof fn lemma_value_copy(d: Doc, c: Cursor, depth: int, p: Place, k: int)
    requires
        coherent(d, c),
        0 <= depth <= c.stack.len(),
        look(d, c) matches Ok((t, c1)) && c1 == c && starts_value(t),
        value(d.bytes, c.at, room(d, c)) == Ok::<int, Fault>(k),
    ensures
        ({
            let v = value_copy(d.bytes, c.at, room(d, c), p);
            through_copy(d, c, depth, p) == behind(
                v,
                drain_copy(d, past_value(c, k), depth, v.1),
            )
        }),
{
    lemma_look(d, c);
    lemma_value(d.bytes, c.at, room(d, c));
    let v = value_copy(d.bytes, c.at, room(d, c), p);
    let c1 = past_value(c, k);
    if c.stack.len() > depth {
        let r = rest(d.bytes, c.at, c.state, room(d, c));
        assert(r == rest(d.bytes, c1.at, c1.state, room(d, c1)));
        let rc = rest_copy(d.bytes, c1.at, c1.state, room(d, c1), v.1);
        assert(rest_copy(d.bytes, c.at, c.state, room(d, c), p) == behind(v, rc));
        if r is Ok {
            assert(leave(c, r->Ok_0) == leave(c1, r->Ok_0));
            let q = drain_copy(d, leave(c1, r->Ok_0), depth, rc.1);
            assert(v.0 + rc.0 + q.0 =~= v.0 + (rc.0 + q.0));
        }
    } else {
        assert(v.0 + Seq::<u8>::empty() =~= v.0);
    }
}

/// After an opening bracket, what is left is the container and what follows it.
proof fn lemma_enter_copy(d: Doc, c: Cursor, object: bool, depth: int, p: Place)
    requires
        coherent(d, c),
        0 <= depth <= c.stack.len(),
        look(d, c) == Ok::<(Token, Cursor), Fault>(
            (
                if object {
                    Token::BeginObject
                } else {
                    Token::BeginArray
                },
                c,
            ),
        ),
        room(d, c) > 0,
    ensures
        ({
            let w = (
                open_text(
                    p,
                    if object {
                        BRACE_OPEN
                    } else {
                        BRACKET_OPEN
                    },
                ),
                inside(p),
            );
            through_copy(d, c, depth, p) == behind(
                w,
                drain_copy(d, enter(d, c, object)->Done_1, depth, w.1),
            )
        }),
{
    lemma_look(d, c);
    let s = d.bytes;
    let c1 = enter(d, c, object)->Done_1;
    assert(c1.stack.drop_last() =~= c.stack);
    let open = open_text(
        p,
        if object {
            BRACE_OPEN
        } else {
            BRACKET_OPEN
        },
    );
    let inner = value(s, c.at, room(d, c));
    assert(inner == rest(s, c1.at, c1.state, room(d, c1)));
    let rc = rest_copy(s, c1.at, c1.state, room(d, c1), inside(p));
    let v = value_copy(s, c.at, room(d, c), p);
    assert(v == behind((open, inside(p)), rc));
    if inner is Ok {
        let k = inner->Ok_0;
        lemma_value_copy(d, c, depth, p, k);
        assert(leave(c1, k) == past_value(c, k));
        let q = drain_copy(d, past_value(c, k), depth, v.1);
        assert(open + rc.0 + q.0 =~= open + (rc.0 + q.0));
    } else if c.stack.len() > depth {
        assert(rest_copy(s, c.at, c.state, room(d, c), p) == v);
    }
}

/// After a key, what is left is its value and what follows it.
proof fn lemma_key_copy(d: Doc, c: Cursor, depth: int, p: Place)
    requires
        coherent(d, c),
        0 <= depth < c.stack.len(),
        look(d, c) == Ok::<(Token, Cursor), Fault>((Token::Key, c)),
        text(d.bytes, c.at + 1) is Ok,
    ensures
        ({
            let (k, name) = text(d.bytes, c.at + 1)->Ok_0;
            let w = (key_text(p, name), after_key(p));
            drain_copy(d, c, depth, p) == behind(
                w,
                drain_copy(d, past_string(c, true, k), depth, w.1),
            )
        }),
{
    lemma_look(d, c);
    lemma_text(d.bytes, c.at + 1);
    let s = d.bytes;
    let (k, name) = text(s, c.at + 1)->Ok_0;
    let c1 = past_string(c, true, k);
    let w = (key_text(p, name), after_key(p));
    let r = rest(s, c.at, c.state, room(d, c));
    assert(r == rest(s, c1.at, c1.state, room(d, c1)));
    let rc = rest_copy(s, c1.at, c1.state, room(d, c1), w.1);
    assert(rest_copy(s, c.at, c.state, room(d, c), p) == behind(w, rc));
    if r is Ok {
        assert(leave(c, r->Ok_0) == leave(c1, r->Ok_0));
        let q = drain_copy(d, leave(c1, r->Ok_0), depth, rc.1);
        assert(w.0 + rc.0 + q.0 =~= w.0 + (rc.0 + q.0));
    }
}

/// After a closing bracket, what is left is what follows the container.
proof fn lemma_end_copy(d: Doc, c: Cursor, t: Token, depth: int, p: Place)
    requires
        coherent(d, c),
        0 <= depth < c.stack.len(),
        look(d, c) == Ok::<(Token, Cursor), Fault>((t, c)),
        t == Token::EndObject || t == Token::EndArray,
    ensures
        ({
            let w = token_copy(d, c, t, p);
            drain_copy(d, c, depth, p) == behind(
                w,
                drain_copy(d, leave(c, c.at + 1), depth, w.1),
            )
        }),
{
    lemma_look(d, c);
    assert(rest(d.bytes, c.at, c.state, room(d, c)) == Ok::<int, Fault>(c.at + 1));
}

/// Copying a token leaves what follows it to be copied.
pub proof fn lemma_token_copy(d: Doc, c: Cursor, t: Token, depth: int, p: Place)
    requires
        coherent(d, c),
        0 <= depth <= c.stack.len(),
        depth == c.stack.len() ==> starts_value(t),
        look(d, c) == Ok::<(Token, Cursor), Fault>((t, c)),
        t != Token::Eof,
        step(d, c, t) is Done,
    ensures
        ({
            let w = token_copy(d, c, t, p);
            through_copy(d, c, depth, p) == behind(
                w,
                drain_copy(d, step(d, c, t)->Done_1, depth, w.1),
            )
        }),
{
    match t {
        Token::BeginObject => lemma_enter_copy(d, c, true, depth, p),
        Token::BeginArray => lemma_enter_copy(d, c, false, depth, p),
        Token::EndObject | Token::EndArray => lemma_end_copy(d, c, t, depth, p),
        Token::Key => lemma_key_copy(d, c, depth, p),
        _ => {
            lemma_look(d, c);
            lemma_value_copy(d, c, depth, p, value(d.bytes, c.at, room(d, c))->Ok_0);
            assert(value_copy(d.bytes, c.at, room(d, c), p) == scalar_copy(d.bytes, c.at, p));
        },
    }
}

/// An error of the reading side.
fn read_error<R, W>(e: Error<R>) -> (r: Error<PipeError<R, W>>)
    ensures
        r == (match e {
            Error::Io(x) => Error::Io(PipeError::<R, W>::Read(x)),
            Error::Json { kind, offset } => Error::Json { kind, offset },
        }),
{
    match e {
        Error::Io(x) => Error::Io(PipeError::Read(x)),
        Error::Json { kind, offset } => Error::Json { kind, offset },
    }
}

/// Reads the number at the cursor from `p` and writes it to `w`. Gives the error of the
/// writing side behind that of the reading side.
fn copy_number<S: Source, W: Write, const N: usize>(
    p: &mut Parser<S, N>,
    w: &mut JsonWriter<W>,
) -> (r: Res<Result<(), W::Error>, S>)
    requires
        old(p).wf(),
        old(w).wf(),
    ensures
        final(p).did(
            &*old(p),
            match r {
                Ok(_) => Ok(()),
                Err(e) => Err(e),
            },
            scanned(old(p).doc().bytes, old(p).cursor()),
        ),
        final(w).wf(),
        final(w).place() == old(w).place(),
        r matches Ok(x) ==> wrote(
            x is Ok,
            &old(w).inner(),
            &final(w).inner(),
            old(p).doc().bytes.subrange(old(p).cursor().at, final(p).cursor().at),
        ),
{
    let ghost s = p.doc().bytes;
    let ghost at = p.src.at();
    let ghost a = w.out;
    let mut st = Num::Start;
    let mut failed: Option<W::Error> = None;
    proof {
        p.src.bounds();
        assert(s.subrange(at, at) =~= Seq::<u8>::empty());
        assert(a.written() + Seq::<u8>::empty() =~= a.written());
    }
    loop
        invariant_except_break
            number(s, at) == st.end(s, p.src.at()),
        invariant
            p.wf(),
            p.follows(&*old(p)),
            s == old(p).doc().bytes,
            at == old(p).cursor().at,
            0 <= at <= p.src.at(),
            p.cursor() == (Cursor { at: p.src.at(), ..old(p).cursor() }),
            w.wf(),
            w.place() == old(w).place(),
            a == old(w).out,
            wrote(failed is None, &a, &w.out, s.subrange(at, p.src.at())),
        ensures
            number(s, at) == st.stopped(p.src.at()),
        decreases s.len() - p.src.at(),
    {
        let ghost from = p.src.at();
        proof {
            p.src.bounds();
        }
        let buf = match p.src.fill() {
            Ok(b) => b,
            Err(e) => {
                proof {
                    p.src.bounds();
                }
                return Err(Error::Io(e));
            },
        };
        let (next, i) = st.run(buf);
        let more = i == buf.len() && i > 0;
        let part = slice_subrange(buf, 0, i);
        let ghost m = w.out;
        proof {
            assert(st.end(s, from) == next.end(s, from + i));
            assert(part@ =~= s.subrange(from, from + i));
            assert(s.subrange(at, from) + s.subrange(from, from + i) =~= s.subrange(at, from + i));
        }
        if failed.is_none() {
            match w.raw_fragment(part) {
                Ok(_) => {},
                Err(e) => {
                    failed = Some(e);
                },
            }
            proof {
                lemma_wrote(failed is None, &a, &m, &w.out, s.subrange(at, from), part@);
            }
        } else {
            proof {
                lemma_failed(&a, &w.out, s.subrange(at, from), s.subrange(at, from + i));
            }
        }
        p.src.consume(i);
        st = next;
        proof {
            p.src.bounds();
        }
        if !more {
            break ;
        }
    }
    if !st.is_final() {
        return p.fail(ErrorKind::InvalidNumber);
    }
    match failed {
        Some(e) => Ok(Err(e)),
        None => Ok(Ok(())),
    }
}

/// Reads the string that `p` is inside of and writes its content to `w`, in small chunks.
fn copy_text<S: Source, W: Write, const N: usize>(
    p: &mut Parser<S, N>,
    w: &mut JsonWriter<W>,
) -> (r: PipeResult<(), S, W>)
    requires
        old(p).wf(),
        old(p).state is InStr,
        old(p).cursor().stash == Seq::<u8>::empty(),
        old(w).wf(),
    ensures
        final(p).wf(),
        final(w).wf(),
        final(w).place() == old(w).place(),
        ({
            let c = old(p).cursor();
            let key = c.state == (State::InStr { key: true });
            match r {
                Ok(_) => {
                    &&& final(p).follows(&*old(p))
                    &&& text(old(p).doc().bytes, c.at) matches Ok((k, t)) && final(p).cursor()
                        == past_string(c, key, k) && wrote(
                        true,
                        &old(w).inner(),
                        &final(w).inner(),
                        escaped(t),
                    )
                },
                Err(Error::Io(PipeError::Read(_))) => !old(p).feed().reliable,
                Err(Error::Io(PipeError::Write(_))) => {
                    &&& !(old(w).inner().bound() is Endless)
                    &&& text(old(p).doc().bytes, c.at) matches Ok((k, t)) ==> wrote(
                        false,
                        &old(w).inner(),
                        &final(w).inner(),
                        escaped(t),
                    )
                },
                Err(Error::Json { kind, offset }) => {
                    &&& final(p).follows(&*old(p))
                    &&& text(old(p).doc().bytes, c.at) matches Err(f) && kind == f.kind && offset
                        == old(p).feed().origin + f.at
                },
            }
        }),
{
    let mut buf = [0u8;32];
    let ghost s = p.doc().bytes;
    let ghost c0 = p.cursor();
    let ghost a = w.out;
    let ghost goal = text(s, c0.at);
    let ghost mut done = Seq::<u8>::empty();
    proof {
        assert(a.written() + Seq::<u8>::empty() =~= a.written());
        if goal is Ok {
            assert(done + c0.stash + goal->Ok_0.1 =~= goal->Ok_0.1);
        }
    }
    loop
        invariant
            p.wf(),
            p.follows(&*old(p)),
            s == old(p).doc().bytes,
            p.state is InStr,
            c0 == old(p).cursor(),
            p.state == c0.state,
            p.cursor().stack == c0.stack,
            w.wf(),
            w.place() == old(w).place(),
            a == old(w).out,
            goal == text(s, c0.at),
            wrote(true, &a, &w.out, escaped(done)),
            match text(s, p.cursor().at) {
                Err(f) => goal == Err::<(int, Seq<u8>), Fault>(f),
                Ok((k, t)) => goal == Ok::<(int, Seq<u8>), Fault>(
                    (k, done + p.cursor().stash + t),
                ),
            },
        decreases s.len() - p.cursor().at,
    {
        let ghost c = p.cursor();
        let ghost left = less(Some(32nat), c.stash.len());
        proof {
            law_chunks(s, c.at, left);
            lemma_chunk(s, c.at, left);
        }
        let (part, end) = match p.next_piece(&mut buf) {
            Ok(x) => x,
            Err(e) => return Err(read_error(e)),
        };
        let ghost out = part.spec_bytes();
        let ghost m = w.out;
        proof {
            let ch = chunk(s, c.at, left)->Ok_0;
            assert(out == c.stash + ch.out);
            law_escaped_parts(done, out);
            if end {
                assert(done + c.stash + ch.out =~= done + out);
            } else if text(s, ch.at) is Ok {
                let t = text(s, ch.at)->Ok_0.1;
                assert(done + c.stash + (ch.out + ch.stash + t) =~= done + out + ch.stash + t);
            }
        }
        match w.string_fragment(part) {
            Ok(_) => {},
            Err(e) => {
                proof {
                    lemma_wrote(false, &a, &m, &w.out, escaped(done), escaped(out));
                    if goal is Ok {
                        let t = goal->Ok_0.1;
                        let tail = t.skip((done + out).len() as int);
                        assert(t =~= done + out + tail);
                        law_escaped_parts(done + out, tail);
                        lemma_failed(&a, &w.out, escaped(done + out), escaped(t));
                    }
                }
                return Err(Error::Io(PipeError::Write(e)));
            },
        }
        proof {
            lemma_wrote(true, &a, &m, &w.out, escaped(done), escaped(out));
            done = done + out;
        }
        if end {
            return Ok(());
        }
    }
}

/// Reads the token at the cursor, which is `t`, from `p` and writes it to `w`.
#[verifier::rlimit(40)]
fn copy_token<S: Source, W: Write, const N: usize>(
    p: &mut Parser<S, N>,
    w: &mut JsonWriter<W>,
    t: Token,
) -> (r: PipeResult<(), S, W>)
    requires
        old(p).wf(),
        old(w).wf(),
        old(p).ready(),
        look(old(p).doc(), old(p).cursor()) == Ok::<(Token, Cursor), Fault>((t, old(p).cursor())),
        t != Token::Eof,
    ensures
        final(p).wf(),
        final(w).wf(),
        ({
            let d = old(p).doc();
            let c = old(p).cursor();
            let want = step(d, c, t);
            let out = token_copy(d, c, t, old(w).place());
            match r {
                Ok(_) => {
                    &&& final(p).follows(&*old(p))
                    &&& want == Outcome::Done((), final(p).cursor())
                    &&& final(w).put(&*old(w), true, out.0, out.1)
                },
                Err(Error::Io(PipeError::Read(_))) => !old(p).feed().reliable,
                Err(Error::Io(PipeError::Write(_))) => {
                    &&& !(old(w).inner().bound() is Endless)
                    &&& want is Done ==> wrote(
                        false,
                        &old(w).inner(),
                        &final(w).inner(),
                        out.0,
                    )
                },
                Err(Error::Json { kind, offset }) => {
                    &&& final(p).follows(&*old(p))
                    &&& match want {
                        Outcome::Done(_, _) => false,
                        Outcome::Refused(f, _) => kind == f.kind && offset == old(p).feed().origin
                            + f.at,
                        Outcome::Broken(f) => kind == f.kind && offset == old(p).feed().origin
                            + f.at,
                    }
                },
            }
        }),
{
    let ghost d = p.doc();
    let ghost c = p.cursor();
    let ghost place = w.place();
    let ghost a = w.out;
    let ghost out = token_copy(d, c, t, place);
    proof {
        lemma_look(d, c);
        lemma_value(d.bytes, c.at, room(d, c));
    }
    match t {
        Token::BeginObject | Token::BeginArray | Token::EndObject | Token::EndArray => {
            match p.step(t) {
                Ok(_) => {},
                Err(e) => return Err(read_error(e)),
            }
            let r = match t {
                Token::BeginObject => w.begin_object(),
                Token::BeginArray => w.begin_array(),
                Token::EndObject => w.end_object(),
                _ => w.end_array(),
            };
            match r {
                Ok(_) => Ok(()),
                Err(e) => Err(Error::Io(PipeError::Write(e))),
            }
        },
        Token::Key | Token::String => {
            let ghost goal = text(d.bytes, c.at + 1);
            let ghost open = open_text(place, QUOTE);
            match w.begin_string() {
                Ok(_) => {},
                Err(e) => {
                    proof {
                        if goal is Ok {
                            lemma_failed(&a, &w.out, open, out.0);
                        }
                    }
                    return Err(Error::Io(PipeError::Write(e)));
                },
            }
            p.open_string(t == Token::Key);
            let ghost m = w.out;
            match copy_text(p, w) {
                Ok(_) => {},
                Err(e) => {
                    proof {
                        if goal is Ok {
                            let body = escaped(goal->Ok_0.1);
                            if e matches Error::Io(PipeError::Write(_)) {
                                lemma_wrote(false, &a, &m, &w.out, open, body);
                                lemma_failed(&a, &w.out, open + body, out.0);
                            }
                        }
                    }
                    return Err(e);
                },
            }
            let ghost body = escaped(goal->Ok_0.1);
            let ghost m2 = w.out;
            proof {
                lemma_wrote(true, &a, &m, &m2, open, body);
            }
            let r = if t == Token::Key {
                w.end_key()
            } else {
                w.end_string()
            };
            proof {
                let tail = if t == Token::Key {
                    key_end(place)
                } else {
                    seq![QUOTE]
                };
                lemma_wrote(r is Ok, &a, &m2, &w.out, open + body, tail);
                assert(open + body + tail =~= out.0);
            }
            match r {
                Ok(_) => Ok(()),
                Err(e) => Err(Error::Io(PipeError::Write(e))),
            }
        },
        Token::Number => {
            match w.begin_raw() {
                Ok(_) => {},
                Err(e) => {
                    proof {
                        if number(d.bytes, c.at) is Ok {
                            lemma_failed(&a, &w.out, separator(place), out.0);
                        }
                    }
                    return Err(Error::Io(PipeError::Write(e)));
                },
            }
            let ghost m = w.out;
            let x = match copy_number(p, w) {
                Ok(x) => x,
                Err(e) => return Err(read_error(e)),
            };
            proof {
                lemma_wrote(
                    x is Ok,
                    &a,
                    &m,
                    &w.out,
                    separator(place),
                    d.bytes.subrange(c.at, p.cursor().at),
                );
            }
            match x {
                Ok(_) => {},
                Err(e) => return Err(Error::Io(PipeError::Write(e))),
            }
            p.value_done();
            w.end_raw();
            Ok(())
        },
        Token::Bool | Token::Null => {
            let v = match p.literal() {
                Ok(v) => v,
                Err(e) => return Err(read_error(e)),
            };
            let r = match v {
                Some(b) => w.bool(b),
                None => w.null(),
            };
            match r {
                Ok(_) => Ok(()),
                Err(e) => Err(Error::Io(PipeError::Write(e))),
            }
        },
        Token::Eof => Ok(()),
    }
}

/// The text that the next value is written as, and the place after it.
pub open spec fn next_copy(d: Doc, c: Cursor, p: Place) -> (Seq<u8>, Place) {
    let c1 = look(d, c)->Ok_0.1;
    value_copy(d.bytes, c1.at, room(d, c1), p)
}

/// Reads the next value from `p` and writes it to `w`, in constant memory (strings are
/// transferred in small chunks).
///
/// With a compact writer this minifies, with [`JsonWriter::pretty`] it pretty-prints. After
/// [`Parser::seek`], it extracts a sub-document.
#[verifier::rlimit(40)]
pub fn copy_value<S: Source, W: Write, const N: usize>(
    p: &mut Parser<S, N>,
    w: &mut JsonWriter<W>,
) -> (r: PipeResult<(), S, W>)
    requires
        old(p).wf(),
        old(w).wf(),
    ensures
        final(p).wf(),
        final(w).wf(),
        ({
            let want = span(old(p).doc(), old(p).cursor());
            let out = next_copy(old(p).doc(), old(p).cursor(), old(w).place());
            match r {
                Ok(_) => {
                    &&& final(p).follows(&*old(p))
                    &&& want matches Outcome::Done(_, c) && c == final(p).cursor()
                    &&& final(w).put(&*old(w), true, out.0, out.1)
                },
                Err(Error::Io(PipeError::Read(_))) => !old(p).feed().reliable,
                Err(Error::Io(PipeError::Write(_))) => {
                    &&& !(old(w).inner().bound() is Endless)
                    &&& want is Done ==> wrote(
                        false,
                        &old(w).inner(),
                        &final(w).inner(),
                        out.0,
                    )
                },
                Err(Error::Json { kind, offset }) => {
                    &&& final(p).follows(&*old(p))
                    &&& match want {
                        Outcome::Done(_, _) => false,
                        Outcome::Refused(f, _) => kind == f.kind && offset == old(p).feed().origin
                            + f.at,
                        Outcome::Broken(f) => kind == f.kind && offset == old(p).feed().origin
                            + f.at,
                    }
                },
            }
        }),
{
    let ghost d = p.doc();
    let ghost a = w.out;
    let ghost place = w.place();
    let ghost want = span(d, p.cursor());
    let base = p.depth();
    proof {
        lemma_look(d, p.cursor());
    }
    let mut t = match p.peek() {
        Ok(t) => t,
        Err(e) => return Err(read_error(e)),
    };
    if !t.is_value() {
        return Err(Error::Json { kind: ErrorKind::UnexpectedToken(t), offset: p.offset() });
    }
    let ghost goal = through(d, p.cursor(), base as int);
    let ghost total = next_copy(d, old(p).cursor(), place);
    let ghost mut done = Seq::<u8>::empty();
    proof {
        assert(a.written() + done =~= a.written());
        assert(done + total.0 =~= total.0);
    }
    loop
        invariant
            p.wf(),
            w.wf(),
            p.follows(&*old(p)),
            d == old(p).doc(),
            a == old(w).out,
            place == old(w).place(),
            want == span(d, old(p).cursor()),
            total == next_copy(d, old(p).cursor(), place),
            t != Token::Eof ==> p.ready(),
            look(d, p.cursor()) == Ok::<(Token, Cursor), Fault>((t, p.cursor())),
            base <= p.cursor().stack.len(),
            base == p.cursor().stack.len() ==> starts_value(t),
            through(d, p.cursor(), base as int) == goal,
            match goal {
                Err(f) => want == Outcome::<(int, int)>::Broken(f),
                Ok(c) => want matches Outcome::Done(_, c1) && c1 == c,
            },
            wrote(true, &a, &w.out, done),
            goal is Ok ==> total == behind(
                (done, w.place()),
                through_copy(d, p.cursor(), base as int, w.place()),
            ),
        decreases d.bytes.len() - p.cursor().at,
    {
        let ghost c = p.cursor();
        let ghost at = w.place();
        let ghost m = w.out;
        let ghost out = token_copy(d, c, t, at);
        proof {
            lemma_look(d, c);
            if t != Token::Eof {
                lemma_step(d, c, t, base as int);
                if step(d, c, t) is Done {
                    lemma_token_copy(d, c, t, base as int, at);
                    let next = drain_copy(d, step(d, c, t)->Done_1, base as int, out.1);
                    assert(done + (out.0 + next.0) =~= done + out.0 + next.0);
                }
            }
        }
        if let Token::Eof = t {
            return Err(Error::Json { kind: ErrorKind::UnexpectedEof, offset: p.offset() });
        }
        match copy_token(p, w, t) {
            Ok(_) => {},
            Err(e) => {
                proof {
                    if e matches Error::Io(PipeError::Write(_)) && want is Done {
                        lemma_wrote(false, &a, &m, &w.out, done, out.0);
                        lemma_failed(&a, &w.out, done + out.0, total.0);
                    }
                }
                return Err(e);
            },
        }
        proof {
            lemma_wrote(true, &a, &m, &w.out, done, out.0);
            done = done + out.0;
        }
        if p.depth() == base {
            proof {
                assert(done + Seq::<u8>::empty() =~= done);
            }
            return Ok(());
        }
        proof {
            lemma_look(d, p.cursor());
            lemma_drain_look(d, p.cursor(), base as int);
            if look(d, p.cursor()) is Ok {
                lemma_drain_copy_look(d, p.cursor(), base as int, w.place());
            }
        }
        t = match p.peek() {
            Ok(t) => t,
            Err(e) => return Err(read_error(e)),
        };
    }
}

} // verus!
