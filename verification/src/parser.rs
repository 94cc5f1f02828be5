//! The streaming parser.

use core::convert::Infallible;
use core::str::FromStr;
use vstd::prelude::*;
use vstd::slice::slice_subrange;
use vstd::string::StringSliceAdditionalSpecFns;

use crate::cursor::{
    begin, borrows, close, coherent, descend, enter, event, expect, find, finish, has_next,
    innermost, inside_string, leave, lemma_close, lemma_drain_look, lemma_look, lemma_member,
    lemma_open_key, lemma_step, lemma_through, lemma_through_end, lemma_through_key, lemma_unwind,
    look, match_key, member, next_part, no_escape, nth, open_key, open_string, past_string,
    past_value, peek, peeked, piece, raw, read_bool, read_key, read_literal, read_null, read_num,
    read_number, read_open, read_str, read_str_ref, room, seek, settle, skip, skip_key, span, step,
    through, unwind, Cursor, Doc, Happening, Outcome,
};
use crate::error::{Error, ErrorKind};
use crate::grammar::{
    byte, is_space, lemma_number, lemma_skip_space, lemma_text, lemma_value, literal, next_token,
    pour, skip_space, starts_value, text, word_end, word_of, Fault, BACKSLASH, BRACE_CLOSE,
    BRACE_OPEN, BRACKET_CLOSE, BRACKET_OPEN, COLON, COMMA, MINUS, NEWLINE, QUOTE, RETURN, SPACE,
    TAB,
};
use crate::io::{same_storage, slice_feed, Feed, SliceSource, Source};
use crate::number::{fmt_usize, lemma_number_ascii};
use crate::path::{step_name, Path, Seg, Segments, Step};
use crate::stack::{max_levels, BitStack};
use crate::string::{
    from_utf8, is_raw, lemma_pour, lemma_raw_text, lemma_text_raw, meaning, BufSink, KeyMatcher,
    NullSink, Sink,
};
use crate::Span;

verus! {

/// Result type used by parser methods.
pub(crate) type Res<T, S> = Result<T, Error<<S as Source>::Error>>;

/// Kind of the next token, as returned by [`Parser::peek`].
#[derive(Debug, Clone, Copy, PartialEq, Eq, Hash, Structural)]
pub enum Token {
    /// `null`
    Null,
    /// `true` or `false`
    Bool,
    /// A number.
    Number,
    /// A string value.
    String,
    /// `{`
    BeginObject,
    /// `[`
    BeginArray,
    /// An object member name (a string followed by `:`).
    Key,
    /// `}`
    EndObject,
    /// `]`
    EndArray,
    /// End of input after the top-level value.
    Eof,
}

impl Token {
    /// Whether this token starts a value.
    pub fn is_value(self) -> (r: bool)
        ensures
            r == starts_value(self),
    {
        matches!(
            self,
            Self::Null
                | Self::Bool
                | Self::Number
                | Self::String
                | Self::BeginObject
                | Self::BeginArray
        )
    }
}

/// What the parser expects next.
#[derive(Debug, Clone, Copy, PartialEq, Eq, Structural)]
pub enum State {
    /// Before the top-level value.
    TopValue,
    /// After the top-level value.
    TopDone,
    /// After `[`: value or `]`.
    ArrFirst,
    /// After `,` in an array: value.
    ArrValue,
    /// After an array element: `,` or `]`.
    ArrComma,
    /// After `{`: key or `}`.
    ObjFirst,
    /// After `,` in an object: key.
    ObjKey,
    /// After a key: `:`.
    ObjColon,
    /// After `:`: value.
    ObjValue,
    /// After a member value: `,` or `}`.
    ObjComma,
    /// Inside a string whose opening quote was consumed.
    InStr {
        /// Whether the string is an object key.
        key: bool,
    },
}

/// A streaming JSON parser (pull parser / cursor) with bounded memory.
///
/// The parser reads from a [`Source`] and never buffers more than a few bytes itself.
/// Values are *lazy*: [`peek`](Parser::peek) tells what comes next without consuming it,
/// then the caller decides to read it ([`read_str`](Parser::read_str),
/// [`read_num`](Parser::read_num), [`begin_object`](Parser::begin_object), ...),
/// skip it ([`skip_value`](Parser::skip_value)), measure it
/// ([`value_span`](Parser::value_span)), or navigate into it
/// ([`seek`](Parser::seek)).
///
/// `N` is the size in bytes of the nesting stack; the maximum nesting depth is `8 * N`.
/// Use [`Parser::new`] for the default depth (`N = 8`, 64 levels) or
/// `Parser::<_, N>::with_stack(src)` for another one.
///
/// After a JSON syntax error or an I/O error, the parser state is unspecified and the
/// parser should be discarded. Errors caused by the caller (type mismatch, buffer too
/// small, number out of range) leave it usable.
pub struct Parser<S, const N: usize> {
    pub(crate) src: S,
    pub(crate) stack: BitStack<N>,
    pub(crate) state: State,
    pub(crate) multi: bool,
    pub(crate) stash: [u8; 4],
    pub(crate) stash_len: u8,
}

impl<S: Source, const N: usize> Parser<S, N> {
    /// What the parser reads.
    pub open(crate) spec fn feed(&self) -> Feed {
        self.src.feed()
    }

    /// The document, and how it is parsed.
    pub open(crate) spec fn doc(&self) -> Doc {
        Doc {
            bytes: self.src.feed().input,
            limit: max_levels(N as int),
            multi: self.multi,
        }
    }

    /// Where the parser stands.
    pub open(crate) spec fn cursor(&self) -> Cursor {
        Cursor {
            at: self.src.at(),
            state: self.state,
            stack: self.stack@,
            stash: self.stash@.subrange(0, self.stash_len as int),
        }
    }

    /// The parser's invariant.
    pub open(crate) spec fn wf(&self) -> bool {
        &&& self.src.wf()
        &&& self.stack.wf()
        &&& self.stash_len <= 4
        &&& coherent(self.doc(), self.cursor())
    }

    /// The source of the parser.
    pub open(crate) spec fn inner(&self) -> S {
        self.src
    }

    /// The next byte is buffered, and can be consumed.
    pub open(crate) spec fn ready(&self) -> bool {
        self.src.avail() > 0
    }

    /// The parser still reads what `before` read, in the same way.
    pub open spec fn follows(&self, before: &Self) -> bool {
        &&& self.feed() == before.feed()
        &&& self.doc() == before.doc()
    }

    /// An operation that took the parser from `before` to this state, and gave `r`, did what
    /// `want` says: unless the source failed, which a reliable one does not.
    pub open spec fn did<T>(
        &self,
        before: &Self,
        r: Result<T, Error<S::Error>>,
        want: Outcome<T>,
    ) -> bool {
        &&& self.wf()
        &&& match r {
            Err(Error::Io(_)) => {
                &&& !before.feed().reliable
                &&& same_storage(self.feed().kept, before.feed().kept)
                &&& self.feed().input == before.feed().input
                &&& self.feed().origin == before.feed().origin
            },
            Err(Error::Json { kind, offset }) => {
                &&& self.follows(before)
                &&& match want {
                    Outcome::Done(_, _) => false,
                    Outcome::Refused(f, c) => {
                        &&& kind == f.kind
                        &&& offset == before.feed().origin + f.at
                        &&& self.cursor() == c
                    },
                    Outcome::Broken(f) => {
                        &&& kind == f.kind
                        &&& offset == before.feed().origin + f.at
                    },
                }
            },
            Ok(v) => {
                &&& self.follows(before)
                &&& want == Outcome::Done(v, self.cursor())
            },
        }
    }
}

impl<S: Source> Parser<S, 8> {
    /// Creates a parser with the default nesting stack (64 levels).
    pub fn new(src: S) -> (r: Self)
        requires
            src.wf(),
        ensures
            r.wf(),
            r.inner() == src,
            r.feed() == src.feed(),
            r.doc() == (Doc { bytes: src.feed().input, limit: 64, multi: false }),
            r.cursor() == start(src.at()),
    {
        Self::with_stack(src)
    }
}

impl<'a> Parser<SliceSource<'a>, 8> {
    /// Creates a parser for a document in memory, with the default nesting stack.
    pub fn from_slice(data: &'a [u8]) -> (r: Self)
        ensures
            r.wf(),
            r.feed() == slice_feed(data@),
            r.doc() == (Doc { bytes: data@, limit: 64, multi: false }),
            r.cursor() == start(0),
    {
        Self::new(SliceSource::new(data))
    }
}

/// The cursor of a parser that starts at `at`.
pub open spec fn start(at: int) -> Cursor {
    Cursor { at, state: State::TopValue, stack: Seq::empty(), stash: Seq::empty() }
}

fn is_ws(b: u8) -> (r: bool)
    ensures
        r == is_space(b),
{
    matches!(b, SPACE | NEWLINE | RETURN | TAB)
}

fn value_token(b: u8) -> (r: Option<Token>)
    ensures
        r == crate::grammar::value_token(b),
{
    match b {
        BRACE_OPEN => Some(Token::BeginObject),
        BRACKET_OPEN => Some(Token::BeginArray),
        QUOTE => Some(Token::String),
        MINUS | 0x30..=0x39 => Some(Token::Number),
        0x74 | 0x66 => Some(Token::Bool),
        0x6e => Some(Token::Null),
        _ => None,
    }
}

impl<S: Source, const N: usize> Parser<S, N> {
    /// Maximum nesting depth supported by this parser.
    pub fn max_depth() -> (r: usize)
        ensures
            r == max_levels(N as int),
    {
        BitStack::<N>::max()
    }

    /// Creates a parser with a nesting stack of `N` bytes (`8 * N` levels).
    pub fn with_stack(src: S) -> (r: Self)
        requires
            src.wf(),
        ensures
            r.wf(),
            r.inner() == src,
            r.feed() == src.feed(),
            r.doc() == (Doc {
                bytes: src.feed().input,
                limit: max_levels(N as int),
                multi: false,
            }),
            r.cursor() == start(src.at()),
    {
        let r = Self {
            src,
            stack: BitStack::new(),
            state: State::TopValue,
            multi: false,
            stash: [0; 4],
            stash_len: 0,
        };
        proof {
            r.src.bounds();
            assert(r.cursor() =~= start(src.at()));
        }
        r
    }

    /// Accepts a sequence of top-level values separated by whitespace (e.g. JSON Lines /
    /// NDJSON) instead of reporting [`ErrorKind::TrailingData`] after the first one.
    pub fn allow_multiple_values(self, allow: bool) -> (r: Self)
        requires
            self.wf(),
        ensures
            r.wf(),
            r.inner() == self.inner(),
            r.feed() == self.feed(),
            r.doc() == (Doc { multi: allow, ..self.doc() }),
            r.cursor() == self.cursor(),
    {
        let mut p = self;
        p.multi = allow;
        p
    }

    /// The source.
    pub fn source(&self) -> (r: &S)
        ensures
            *r == self.inner(),
    {
        &self.src
    }

    /// The source. Consuming bytes directly desynchronizes the parser.
    pub fn source_mut(&mut self) -> (r: &mut S)
        ensures
            *r == old(self).inner(),
            final(self).inner() == *final(r),
            final(self).doc() == (Doc { bytes: (*final(r)).feed().input, ..old(self).doc() }),
            final(self).feed() == (*final(r)).feed(),
            final(self).cursor() == (Cursor { at: (*final(r)).at(), ..old(self).cursor() }),
            old(self).wf() && (*final(r)).wf() && (*final(r)).feed().input
                == old(self).feed().input && (*final(r)).at() == old(self).cursor().at ==> final(self).wf(),
    {
        &mut self.src
    }

    /// Returns the source.
    pub fn into_source(self) -> (r: S)
        ensures
            r == self.inner(),
    {
        self.src
    }

    /// Byte offset of the next unconsumed byte. Right after [`peek`](Parser::peek) this is
    /// the offset of the first byte of the next token.
    pub fn offset(&self) -> (r: u64)
        requires
            self.wf(),
        ensures
            r == self.feed().origin + self.cursor().at,
    {
        self.src.offset()
    }

    /// Current nesting depth (0 at top level).
    pub fn depth(&self) -> (r: usize)
        ensures
            r == self.cursor().stack.len(),
    {
        self.stack.depth()
    }

    pub(crate) fn fail<T>(&self, kind: ErrorKind) -> (r: Res<T, S>)
        requires
            self.wf(),
        ensures
            r matches Err(Error::Json { kind: k, offset }) && k == kind && offset
                == self.feed().origin + self.cursor().at,
    {
        Err(Error::Json { kind, offset: self.src.offset() })
    }

    /// The next byte, which is not consumed, or `None` at end of input.
    pub(crate) fn peek_byte(&mut self) -> (r: Res<Option<u8>, S>)
        requires
            old(self).wf(),
        ensures
            final(self).did(
                &*old(self),
                r,
                Outcome::Done(byte(old(self).doc().bytes, old(self).cursor().at), old(self).cursor()),
            ),
            r matches Ok(Some(_)) ==> final(self).ready(),
            r is Ok ==> final(self).follows(&*old(self)),
            old(self).ready() ==> !(r matches Err(Error::Io(_))),
    {
        proof {
            self.src.bounds();
        }
        match self.src.fill() {
            Ok(buf) => {
                let r = if buf.len() > 0 {
                    Some(buf[0])
                } else {
                    None
                };
                Ok(r)
            },
            Err(e) => {
                proof {
                    self.src.bounds();
                }
                Err(Error::Io(e))
            },
        }
    }

    /// Skips whitespace, returning the next byte (not consumed) or `None` at end of input.
    pub(crate) fn skip_ws(&mut self) -> (r: Res<Option<u8>, S>)
        requires
            old(self).wf(),
        ensures
            final(self).did(
                &*old(self),
                r,
                ({
                    let s = old(self).doc().bytes;
                    let j = skip_space(s, old(self).cursor().at);
                    Outcome::Done(byte(s, j), Cursor { at: j, ..old(self).cursor() })
                }),
            ),
            r matches Ok(Some(_)) ==> final(self).ready(),
            old(self).ready() && skip_space(old(self).doc().bytes, old(self).cursor().at)
                == old(self).cursor().at ==> !(r matches Err(Error::Io(_))),
    {
        let ghost s = self.doc().bytes;
        let ghost still = self.ready() && skip_space(s, self.cursor().at) == self.cursor().at;
        loop
            invariant
                self.wf(),
                self.follows(&*old(self)),
                s == old(self).doc().bytes,
                still == (old(self).ready() && skip_space(s, old(self).cursor().at)
                    == old(self).cursor().at),
                still ==> self.ready() && self.src.at() == old(self).src.at(),
                skip_space(s, self.src.at()) == skip_space(s, old(self).src.at()),
                self.cursor() == (Cursor { at: self.src.at(), ..old(self).cursor() }),
            decreases s.len() - self.src.at(),
        {
            proof {
                self.src.bounds();
                lemma_skip_space(s, self.src.at());
            }
            let ghost at = self.src.at();
            let buf = match self.src.fill() {
                Ok(buf) => buf,
                Err(e) => {
                    proof {
                        self.src.bounds();
                    }
                    return Err(Error::Io(e));
                },
            };
            let mut i: usize = 0;
            while i < buf.len() && is_ws(buf[i])
                invariant
                    i <= buf@.len(),
                    0 <= at,
                    at + buf@.len() <= s.len(),
                    buf@ == s.subrange(at, at + buf@.len()),
                    skip_space(s, at + i) == skip_space(s, at),
                decreases buf@.len() - i,
            {
                i = i + 1;
            }
            let n = buf.len();
            if i < n {
                let b = buf[i];
                self.src.consume(i);
                return Ok(Some(b));
            }
            proof {
                lemma_skip_space(s, at + n);
            }
            self.src.consume(n);
            if n == 0 {
                return Ok(None);
            }
        }
    }

    /// Updates the state after a complete value.
    pub(crate) fn value_done(&mut self)
        requires
            old(self).src.wf(),
            old(self).stack.wf(),
            old(self).stash_len == 0,
        ensures
            final(self).wf(),
            final(self).follows(&*old(self)),
            final(self).src == old(self).src,
            final(self).cursor() == past_value(old(self).cursor(), old(self).src.at()),
    {
        self.state = match self.stack.top() {
            None => State::TopDone,
            Some(true) => State::ObjComma,
            Some(false) => State::ArrComma,
        };
        proof {
            self.src.bounds();
            assert(self.cursor() =~= past_value(old(self).cursor(), old(self).src.at()));
        }
    }

    /// Advances to the next token, outside of a string.
    fn token(&mut self) -> (r: Res<Token, S>)
        requires
            old(self).wf(),
            !(old(self).state is InStr),
        ensures
            final(self).did(&*old(self), r, peek(old(self).doc(), old(self).cursor())),
            r matches Ok(t) ==> t != Token::Eof ==> final(self).ready(),
            old(self).ready() && peeked(old(self).doc(), old(self).cursor()) ==> !(r matches Err(
                Error::Io(_),
            )),
    {
        let ghost s = self.doc().bytes;
        let ghost d = self.doc();
        let ghost want = next_token(s, self.src.at(), self.state, self.multi);
        let ghost still = self.ready() && peeked(d, self.cursor());
        proof {
            lemma_look(d, self.cursor());
        }
        loop
            invariant
                still == (old(self).ready() && peeked(d, old(self).cursor())),
                still ==> self.ready() && self.cursor() == old(self).cursor(),
                self.wf(),
                self.follows(&*old(self)),
                s == old(self).doc().bytes,
                d == old(self).doc(),
                !(self.state is InStr),
                want == next_token(s, self.src.at(), self.state, self.multi),
                self.cursor().stack == old(self).cursor().stack,
                self.cursor().stash == old(self).cursor().stash,
                peek(d, old(self).cursor()) == (match want {
                    Err(f) => Outcome::Broken(f),
                    Ok(m) => Outcome::Done(
                        m.token,
                        Cursor { at: m.at, state: m.state, ..old(self).cursor() },
                    ),
                }),
            decreases
                    match self.state {
                        State::TopDone | State::ArrComma | State::ObjComma | State::ObjColon => 1int,
                        _ => 0int,
                    },
        {
            proof {
                lemma_skip_space(s, self.src.at());
            }
            let b = match self.skip_ws()? {
                Some(b) => b,
                None => {
                    return if self.state == State::TopDone {
                        Ok(Token::Eof)
                    } else {
                        self.fail(ErrorKind::UnexpectedEof)
                    };
                },
            };
            let tok = match self.state {
                State::TopValue | State::ArrValue | State::ObjValue => value_token(b),
                State::ArrFirst => if b == BRACKET_CLOSE {
                    Some(Token::EndArray)
                } else {
                    value_token(b)
                },
                State::ArrComma => match b {
                    COMMA => {
                        self.src.consume(1);
                        self.state = State::ArrValue;
                        proof {
                            self.src.bounds();
                        }
                        continue ;
                    },
                    BRACKET_CLOSE => Some(Token::EndArray),
                    _ => None,
                },
                State::ObjFirst => match b {
                    QUOTE => Some(Token::Key),
                    BRACE_CLOSE => Some(Token::EndObject),
                    _ => None,
                },
                State::ObjKey => if b == QUOTE {
                    Some(Token::Key)
                } else {
                    None
                },
                State::ObjComma => match b {
                    COMMA => {
                        self.src.consume(1);
                        self.state = State::ObjKey;
                        proof {
                            self.src.bounds();
                        }
                        continue ;
                    },
                    BRACE_CLOSE => Some(Token::EndObject),
                    _ => None,
                },
                State::ObjColon => {
                    if b == COLON {
                        self.src.consume(1);
                        self.state = State::ObjValue;
                        proof {
                            self.src.bounds();
                        }
                        continue ;
                    }
                    None
                },
                State::TopDone => {
                    if self.multi {
                        self.state = State::TopValue;
                        continue ;
                    }
                    return self.fail(ErrorKind::TrailingData);
                },
                State::InStr { .. } => None,
            };
            return match tok {
                Some(t) => Ok(t),
                None => self.fail(ErrorKind::UnexpectedByte(b)),
            };
        }
    }

    /// Updates the state after a complete string.
    pub(crate) fn str_done(&mut self, key: bool)
        requires
            old(self).src.wf(),
            old(self).stack.wf(),
            old(self).stash_len == 0,
            key ==> innermost(old(self).stack@) == Some(true),
        ensures
            final(self).wf(),
            final(self).follows(&*old(self)),
            final(self).src == old(self).src,
            final(self).cursor() == past_string(old(self).cursor(), key, old(self).src.at()),
    {
        if key {
            self.state = State::ObjColon;
            proof {
                self.src.bounds();
                assert(self.cursor() =~= past_string(old(self).cursor(), key, old(self).src.at()));
            }
        } else {
            self.value_done();
        }
    }

    /// Skips the rest of a string that is open.
    pub(crate) fn finish_str(&mut self) -> (r: Res<(), S>)
        requires
            old(self).wf(),
        ensures
            final(self).did(
                &*old(self),
                r,
                match settle(old(self).doc(), old(self).cursor()) {
                    Err(f) => Outcome::Broken(f),
                    Ok(c) => Outcome::Done((), c),
                },
            ),
    {
        let key = match self.state {
            State::InStr { key } => key,
            _ => return Ok(()),
        };
        let ghost c = self.cursor();
        proof {
            lemma_pour(self.doc().bytes, c.at, c.stash, None);
        }
        let mut sink = NullSink::new();
        self.decode(&mut sink)?;
        self.str_done(key);
        Ok(())
    }

    /// Returns the kind of the next token without consuming it.
    ///
    /// Whitespace and separators (`,` and `:`) before it are consumed, so afterwards
    /// [`offset`](Parser::offset) is the exact position of the token. Calling `peek`
    /// again returns the same token. If a string was partially read with a
    /// [`StrReader`], the rest of it is skipped first.
    pub fn peek(&mut self) -> (r: Res<Token, S>)
        requires
            old(self).wf(),
        ensures
            final(self).did(&*old(self), r, peek(old(self).doc(), old(self).cursor())),
            r matches Ok(t) ==> t != Token::Eof ==> final(self).ready(),
            old(self).ready() && peeked(old(self).doc(), old(self).cursor()) ==> !(r matches Err(
                Error::Io(_),
            )),
    {
        proof {
            lemma_look(self.doc(), self.cursor());
        }
        if let State::InStr { .. } = self.state {
            self.finish_str()?;
        }
        self.token()
    }

    fn mismatch<T>(&self, expected: Token, found: Token) -> (r: Res<T, S>)
        requires
            self.wf(),
        ensures
            r matches Err(Error::Json { kind, offset }) && kind == (ErrorKind::TypeMismatch {
                expected,
                found,
            }) && offset == self.feed().origin + self.cursor().at,
    {
        self.fail(ErrorKind::TypeMismatch { expected, found })
    }

    /// Advances to the next token, which has to be `want`.
    pub(crate) fn expect(&mut self, want: Token) -> (r: Res<(), S>)
        requires
            old(self).wf(),
        ensures
            final(self).did(&*old(self), r, expect(old(self).doc(), old(self).cursor(), want)),
            r is Ok && want != Token::Eof ==> final(self).ready(),
    {
        let t = self.peek()?;
        if t == want {
            Ok(())
        } else {
            self.mismatch(want, t)
        }
    }

    /// Whether the parser has a value pending as the value of an object member.
    fn member_value_pending(&self) -> (r: bool)
        ensures
            r == (self.cursor().state == State::ObjValue),
    {
        self.state == State::ObjValue
    }

    /// Consumes `{` and enters the object.
    pub fn begin_object(&mut self) -> (r: Res<(), S>)
        requires
            old(self).wf(),
        ensures
            final(self).did(&*old(self), r, begin(old(self).doc(), old(self).cursor(), true)),
    {
        proof {
            lemma_look(self.doc(), self.cursor());
        }
        self.expect(Token::BeginObject)?;
        self.enter(true)
    }

    /// Consumes `[` and enters the array.
    pub fn begin_array(&mut self) -> (r: Res<(), S>)
        requires
            old(self).wf(),
        ensures
            final(self).did(&*old(self), r, begin(old(self).doc(), old(self).cursor(), false)),
    {
        proof {
            lemma_look(self.doc(), self.cursor());
        }
        self.expect(Token::BeginArray)?;
        self.enter(false)
    }

    /// Consumes the opening bracket at the cursor.
    pub(crate) fn enter(&mut self, object: bool) -> (r: Res<(), S>)
        requires
            old(self).wf(),
            old(self).ready(),
            !(old(self).state is InStr),
        ensures
            final(self).did(&*old(self), r, enter(old(self).doc(), old(self).cursor(), object)),
    {
        if !self.stack.push(object) {
            return self.fail(ErrorKind::DepthLimitExceeded);
        }
        self.src.consume(1);
        self.state = if object {
            State::ObjFirst
        } else {
            State::ArrFirst
        };
        proof {
            self.src.bounds();
        }
        Ok(())
    }

    /// Consumes the closing bracket at the cursor.
    pub(crate) fn leave(&mut self)
        requires
            old(self).wf(),
            old(self).ready(),
            old(self).cursor().stack.len() > 0,
            !(old(self).state is InStr),
        ensures
            final(self).wf(),
            final(self).follows(&*old(self)),
            final(self).cursor() == leave(old(self).cursor(), old(self).cursor().at + 1),
    {
        self.src.consume(1);
        self.stack.pop();
        assert(self.stash@.subrange(0, self.stash_len as int) =~= Seq::<u8>::empty());
        self.value_done();
    }

    /// Consumes `true`, `false` or `null` (the parser is positioned on its first byte).
    pub(crate) fn literal(&mut self) -> (r: Res<Option<bool>, S>)
        requires
            old(self).wf(),
            !(old(self).state is InStr),
            old(self).cursor().at < old(self).doc().bytes.len(),
        ensures
            final(self).did(&*old(self), r, read_literal(old(self).doc(), old(self).cursor())),
    {
        let ghost s = self.doc().bytes;
        let ghost at = self.src.at();
        let (lit, v): (&[u8], Option<bool>) = match self.peek_byte()? {
            Some(0x74) => (&[0x74u8, 0x72, 0x75, 0x65], Some(true)),
            Some(0x66) => (&[0x66u8, 0x61, 0x6c, 0x73, 0x65], Some(false)),
            _ => (&[0x6eu8, 0x75, 0x6c, 0x6c], None),
        };
        assert(lit@ =~= word_of(s[at]));
        let mut k: usize = 0;
        while k < lit.len()
            invariant
                k <= lit@.len(),
                self.wf(),
                self.follows(&*old(self)),
                s == old(self).doc().bytes,
                self.cursor() == (Cursor { at: self.src.at(), ..old(self).cursor() }),
                lit@ == word_of(s[old(self).cursor().at]),
                word_end(s, self.src.at(), lit@, k as int) == literal(s, old(self).cursor().at),
            decreases lit@.len() - k,
        {
            match self.peek_byte()? {
                Some(b) => if b == lit[k] {
                    self.src.consume(1);
                    proof {
                        self.src.bounds();
                    }
                } else {
                    return self.fail(ErrorKind::UnexpectedByte(b));
                },
                None => return self.fail(ErrorKind::UnexpectedEof),
            }
            k = k + 1;
        }
        self.value_done();
        Ok(v)
    }

    /// Consumes the opening quote of the string at the cursor.
    pub(crate) fn open_string(&mut self, key: bool)
        requires
            old(self).wf(),
            old(self).ready(),
            !(old(self).state is InStr),
            key ==> innermost(old(self).cursor().stack) == Some(true),
        ensures
            final(self).wf(),
            final(self).follows(&*old(self)),
            final(self).state is InStr,
            final(self).cursor() == inside_string(old(self).cursor(), key),
    {
        self.src.consume(1);
        self.state = State::InStr { key };
        proof {
            self.src.bounds();
        }
    }

    /// Consumes the token at the cursor, which is `t`.
    pub(crate) fn step(&mut self, t: Token) -> (r: Res<(), S>)
        requires
            old(self).wf(),
            t != Token::Eof ==> old(self).ready(),
            look(old(self).doc(), old(self).cursor()) == Ok::<(Token, Cursor), Fault>(
                (t, old(self).cursor()),
            ),
        ensures
            final(self).did(&*old(self), r, step(old(self).doc(), old(self).cursor(), t)),
    {
        let ghost c = self.cursor();
        proof {
            lemma_look(self.doc(), c);
        }
        match t {
            Token::BeginObject => self.enter(true),
            Token::BeginArray => self.enter(false),
            Token::EndObject | Token::EndArray => {
                self.leave();
                Ok(())
            },
            Token::Key => {
                self.open_string(true);
                self.finish_str()
            },
            Token::String => {
                self.open_string(false);
                self.finish_str()
            },
            Token::Number => {
                let mut sink = NullSink::new();
                self.scan_number(&mut sink)?;
                self.value_done();
                Ok(())
            },
            Token::Bool | Token::Null => {
                self.literal()?;
                Ok(())
            },
            Token::Eof => self.fail(ErrorKind::UnexpectedEof),
        }
    }

    /// Skips the next value (validating it). If a string is being read with a
    /// [`StrReader`], skips the rest of that string instead.
    pub fn skip_value(&mut self) -> (r: Res<(), S>)
        requires
            old(self).wf(),
        ensures
            final(self).did(&*old(self), r, skip(old(self).doc(), old(self).cursor())),
    {
        if let State::InStr { .. } = self.state {
            return self.finish_str();
        }
        let base = self.stack.depth();
        let ghost d = self.doc();
        proof {
            lemma_look(d, self.cursor());
        }
        let mut t = self.peek()?;
        if !t.is_value() {
            return self.fail(ErrorKind::UnexpectedToken(t));
        }
        let ghost goal = through(d, self.cursor(), base as int);
        loop
            invariant
                self.wf(),
                self.follows(&*old(self)),
                d == old(self).doc(),
                t != Token::Eof ==> self.ready(),
                look(d, self.cursor()) == Ok::<(Token, Cursor), Fault>((t, self.cursor())),
                base <= self.cursor().stack.len(),
                base == self.cursor().stack.len() ==> starts_value(t),
                through(d, self.cursor(), base as int) == goal,
                skip(d, old(self).cursor()) == (match goal {
                    Err(f) => Outcome::Broken(f),
                    Ok(c) => Outcome::Done((), c),
                }),
            decreases d.bytes.len() - self.cursor().at,
        {
            proof {
                lemma_look(d, self.cursor());
                lemma_step(d, self.cursor(), t, base as int);
            }
            self.step(t)?;
            if self.stack.depth() == base {
                return Ok(());
            }
            proof {
                lemma_look(d, self.cursor());
                lemma_drain_look(d, self.cursor(), base as int);
            }
            t = self.peek()?;
        }
    }

    /// Skips the remaining members of the current object and consumes its `}`.
    pub fn end_object(&mut self) -> (r: Res<(), S>)
        requires
            old(self).wf(),
        ensures
            final(self).did(&*old(self), r, close(old(self).doc(), old(self).cursor(), true)),
    {
        let ghost d = self.doc();
        let ghost depth = self.cursor().stack.len() - 1;
        let ghost goal = close(d, self.cursor(), true);
        loop
            invariant
                self.wf(),
                self.follows(&*old(self)),
                d == old(self).doc(),
                depth == self.cursor().stack.len() - 1,
                goal == close(d, old(self).cursor(), true),
                goal == close(d, self.cursor(), true),
            decreases d.bytes.len() - self.cursor().at,
        {
            proof {
                lemma_look(d, self.cursor());
            }
            let t = self.peek()?;
            let ghost c = self.cursor();
            proof {
                lemma_look(d, c);
                if innermost(c.stack) == Some(true) {
                    lemma_close(d, c, true);
                }
            }
            match t {
                Token::EndObject => {
                    proof {
                        lemma_through_end(d, c, depth);
                    }
                    self.leave();
                    return Ok(());
                },
                Token::Key => {
                    proof {
                        lemma_through_key(d, c, depth);
                        lemma_text(d.bytes, c.at + 1);
                    }
                    self.skip_key()?;
                },
                _ => if t.is_value() && self.member_value_pending() {
                    proof {
                        lemma_through(d, c, depth);
                    }
                    self.skip_value()?;
                } else {
                    return self.mismatch(Token::EndObject, t);
                },
            }
            proof {
                lemma_close(d, self.cursor(), true);
            }
        }
    }

    /// Skips the remaining elements of the current array and consumes its `]`.
    pub fn end_array(&mut self) -> (r: Res<(), S>)
        requires
            old(self).wf(),
        ensures
            final(self).did(&*old(self), r, close(old(self).doc(), old(self).cursor(), false)),
    {
        let ghost d = self.doc();
        let ghost depth = self.cursor().stack.len() - 1;
        let ghost goal = close(d, self.cursor(), false);
        loop
            invariant
                self.wf(),
                self.follows(&*old(self)),
                d == old(self).doc(),
                depth == self.cursor().stack.len() - 1,
                goal == close(d, old(self).cursor(), false),
                goal == close(d, self.cursor(), false),
            decreases d.bytes.len() - self.cursor().at,
        {
            proof {
                lemma_look(d, self.cursor());
            }
            let t = self.peek()?;
            let ghost c = self.cursor();
            proof {
                lemma_look(d, c);
                if innermost(c.stack) == Some(false) {
                    lemma_close(d, c, false);
                }
            }
            match t {
                Token::EndArray => {
                    proof {
                        lemma_through_end(d, c, depth);
                    }
                    self.leave();
                    return Ok(());
                },
                _ => if t.is_value() && self.stack.top() == Some(false) {
                    proof {
                        lemma_through(d, c, depth);
                    }
                    self.skip_value()?;
                } else {
                    return self.mismatch(Token::EndArray, t);
                },
            }
            proof {
                lemma_close(d, self.cursor(), false);
            }
        }
    }

    /// Leaves containers (skipping their remaining content) until [`depth`](Parser::depth)
    /// is `depth`.
    pub fn unwind(&mut self, depth: usize) -> (r: Res<(), S>)
        requires
            old(self).wf(),
        ensures
            final(self).did(
                &*old(self),
                r,
                unwind(old(self).doc(), old(self).cursor(), depth as int),
            ),
    {
        let ghost d = self.doc();
        let ghost goal = unwind(d, self.cursor(), depth as int);
        while self.stack.depth() > depth
            invariant
                self.wf(),
                self.follows(&*old(self)),
                d == old(self).doc(),
                goal == unwind(d, old(self).cursor(), depth as int),
                goal == unwind(d, self.cursor(), depth as int),
            decreases self.cursor().stack.len(),
        {
            proof {
                lemma_unwind(d, self.cursor(), depth as int);
            }
            match self.stack.top() {
                Some(true) => self.end_object()?,
                _ => self.end_array()?,
            }
        }
        Ok(())
    }

    /// Whether the current object or array has another member/element (or, at top level,
    /// whether there is another value). An unread member value is skipped first.
    pub fn has_next(&mut self) -> (r: Res<bool, S>)
        requires
            old(self).wf(),
        ensures
            final(self).did(&*old(self), r, has_next(old(self).doc(), old(self).cursor())),
    {
        match self.next_member()? {
            Token::EndObject | Token::EndArray | Token::Eof => Ok(false),
            _ => Ok(true),
        }
    }

    /// Advances to the next key, skipping an unread member value first, or else to the next
    /// token.
    fn next_member(&mut self) -> (r: Res<Token, S>)
        requires
            old(self).wf(),
        ensures
            final(self).did(
                &*old(self),
                r,
                match member(old(self).doc(), old(self).cursor()) {
                    Err(f) => Outcome::Broken(f),
                    Ok((t, c)) => Outcome::Done(t, c),
                },
            ),
            r matches Ok(t) ==> t != Token::Eof ==> final(self).ready(),
    {
        proof {
            lemma_look(self.doc(), self.cursor());
        }
        let t = self.peek()?;
        if t.is_value() && self.member_value_pending() {
            self.skip_value()?;
            return self.peek();
        }
        Ok(t)
    }

    /// Consumes the opening quote of the next key (skipping an unread member value first).
    pub(crate) fn open_key(&mut self) -> (r: Res<(), S>)
        requires
            old(self).wf(),
        ensures
            final(self).did(&*old(self), r, open_key(old(self).doc(), old(self).cursor())),
            r is Ok ==> final(self).cursor().state == (State::InStr { key: true }),
    {
        proof {
            lemma_member(self.doc(), self.cursor());
        }
        let t = self.next_member()?;
        proof {
            lemma_look(self.doc(), self.cursor());
        }
        if t == Token::Key {
            self.open_string(true);
            Ok(())
        } else {
            self.mismatch(Token::Key, t)
        }
    }

    /// Reads the next object key into `buf`.
    ///
    /// If the previous member's value was not read, it is skipped. Fails with
    /// [`ErrorKind::BufferTooSmall`] if the key does not fit (the rest of the key is then
    /// skipped by the next operation).
    pub fn read_key<'b>(&mut self, buf: &'b mut [u8]) -> (r: Res<&'b str, S>)
        requires
            old(self).wf(),
        ensures
            final(self).did(
                &*old(self),
                bytes_of(r),
                read_key(old(self).doc(), old(self).cursor(), old(buf)@.len()),
            ),
    {
        self.open_key()?;
        self.read_open_str(buf)
    }

    /// Skips the next object key.
    pub fn skip_key(&mut self) -> (r: Res<(), S>)
        requires
            old(self).wf(),
        ensures
            final(self).did(&*old(self), r, skip_key(old(self).doc(), old(self).cursor())),
    {
        self.open_key()?;
        self.finish_str()
    }

    /// Reads a string value into `buf` and returns it.
    ///
    /// Fails with [`ErrorKind::BufferTooSmall`] if it does not fit; the parser is still
    /// usable and the rest of the string is skipped by the next operation. Use
    /// [`str_reader`](Parser::str_reader) to process long strings in chunks.
    pub fn read_str<'b>(&mut self, buf: &'b mut [u8]) -> (r: Res<&'b str, S>)
        requires
            old(self).wf(),
        ensures
            final(self).did(
                &*old(self),
                bytes_of(r),
                read_str(old(self).doc(), old(self).cursor(), old(buf)@.len()),
            ),
    {
        proof {
            lemma_look(self.doc(), self.cursor());
        }
        self.expect(Token::String)?;
        self.open_string(false);
        self.read_open_str(buf)
    }

    /// Reads the rest of the string that is open.
    fn read_open_str<'b>(&mut self, buf: &'b mut [u8]) -> (r: Res<&'b str, S>)
        requires
            old(self).wf(),
            old(self).state is InStr,
        ensures
            final(self).did(
                &*old(self),
                bytes_of(r),
                read_open(old(self).doc(), old(self).cursor(), old(buf)@.len()),
            ),
    {
        let key = matches!(self.state, State::InStr { key: true });
        let ghost c = self.cursor();
        let ghost size = buf@.len();
        proof {
            lemma_pour(self.doc().bytes, c.at, c.stash, Some(size));
        }
        let mut sink = BufSink::new(buf);
        if !self.decode(&mut sink)? {
            return self.fail(ErrorKind::BufferTooSmall);
        }
        let ghost out = pour(old(self).doc().bytes, c.at, c.stash, Some(size))->Ok_0.out;
        assert(sink.got() =~= out);
        let len = sink.len;
        let buf = sink.into_buf();
        self.str_done(key);
        match from_utf8(slice_subrange(buf, 0, len)) {
            Some(s) => Ok(s),
            None => self.fail(ErrorKind::InvalidUnicode),
        }
    }

    /// Reads a number as its JSON text into `buf`.
    pub fn read_number_str<'b>(&mut self, buf: &'b mut [u8]) -> (r: Res<&'b str, S>)
        requires
            old(self).wf(),
        ensures
            final(self).did(
                &*old(self),
                bytes_of(r),
                read_number(old(self).doc(), old(self).cursor(), old(buf)@.len()),
            ),
    {
        proof {
            lemma_look(self.doc(), self.cursor());
        }
        self.expect(Token::Number)?;
        let start = self.offset();
        let ghost c = self.cursor();
        let ghost s = self.doc().bytes;
        let mut sink = BufSink::new(buf);
        self.scan_number(&mut sink)?;
        let ghost text = s.subrange(c.at, self.cursor().at);
        proof {
            lemma_number(s, c.at);
            lemma_number_ascii(s, c.at);
            assert(sink.got() =~= text);
        }
        let (len, overflow) = (sink.len, sink.overflow);
        let buf = sink.into_buf();
        self.value_done();
        if overflow {
            return Err(Error::Json { kind: ErrorKind::BufferTooSmall, offset: start });
        }
        match from_utf8(slice_subrange(buf, 0, len)) {
            Some(s) => Ok(s),
            None => self.fail(ErrorKind::InvalidNumber),
        }
    }

    /// Reads `true` or `false`.
    pub fn read_bool(&mut self) -> (r: Res<bool, S>)
        requires
            old(self).wf(),
        ensures
            final(self).did(&*old(self), r, read_bool(old(self).doc(), old(self).cursor())),
    {
        proof {
            lemma_look(self.doc(), self.cursor());
        }
        self.expect(Token::Bool)?;
        let v = self.literal()?;
        Ok(v == Some(true))
    }

    /// Reads `null`.
    pub fn read_null(&mut self) -> (r: Res<(), S>)
        requires
            old(self).wf(),
        ensures
            final(self).did(&*old(self), r, read_null(old(self).doc(), old(self).cursor())),
    {
        proof {
            lemma_look(self.doc(), self.cursor());
        }
        self.expect(Token::Null)?;
        self.literal()?;
        Ok(())
    }

    /// Skips the next value and returns its position: `start` is the offset of its first
    /// byte and `end` the offset right after its last byte.
    ///
    /// `end - start` is the exact encoded length of the value, which is what is needed to
    /// replace it in place (see [`edit`](crate::edit)).
    pub fn value_span(&mut self) -> (r: Res<Span, S>)
        requires
            old(self).wf(),
        ensures
            final(self).did(
                &*old(self),
                positions_of(r, old(self).feed().origin),
                span(old(self).doc(), old(self).cursor()),
            ),
    {
        proof {
            lemma_look(self.doc(), self.cursor());
        }
        let t = self.peek()?;
        if !t.is_value() {
            return self.fail(ErrorKind::UnexpectedToken(t));
        }
        let start = self.offset();
        self.skip_value()?;
        Ok(Span { start, end: self.offset() })
    }

    /// Checks that nothing but whitespace follows the top-level value.
    pub fn finish(&mut self) -> (r: Res<(), S>)
        requires
            old(self).wf(),
        ensures
            final(self).did(&*old(self), r, finish(old(self).doc(), old(self).cursor())),
    {
        match self.peek()? {
            Token::Eof => Ok(()),
            t => if self.stack.depth() == 0 {
                self.fail(ErrorKind::TrailingData)
            } else {
                self.fail(ErrorKind::UnexpectedToken(t))
            },
        }
    }
    /// Reads the next object key and compares it with `name`, without any buffer.
    pub fn match_key(&mut self, name: &str) -> (r: Res<bool, S>)
        requires
            old(self).wf(),
        ensures
            final(self).did(
                &*old(self),
                r,
                match_key(old(self).doc(), old(self).cursor(), Step::Key(name.spec_bytes())),
            ),
    {
        self.match_seg_key(&Seg::Key(name))
    }

    /// Advances inside the current object to the member named `name` and positions the
    /// parser at its value. Returns `false` (positioned at the closing `}`) if there is no
    /// such member among the remaining ones.
    pub fn find_key(&mut self, name: &str) -> (r: Res<bool, S>)
        requires
            old(self).wf(),
        ensures
            final(self).did(
                &*old(self),
                r,
                find(old(self).doc(), old(self).cursor(), Step::Key(name.spec_bytes())),
            ),
    {
        self.find_member(&Seg::Key(name))
    }

    /// Reads the next object key and compares it with the name that `seg` designates.
    pub(crate) fn match_seg_key(&mut self, seg: &Seg<'_>) -> (r: Res<bool, S>)
        requires
            old(self).wf(),
        ensures
            final(self).did(
                &*old(self),
                r,
                match_key(old(self).doc(), old(self).cursor(), seg@),
            ),
    {
        let mut digits = [0u8;20];
        let (pat, escaped): (&[u8], bool) = match *seg {
            Seg::Key(k) => (k.as_bytes(), false),
            Seg::Pointer(p) => (p.as_bytes(), true),
            Seg::Index(i) => (fmt_usize(i, &mut digits), false),
        };
        assert(meaning(pat@, escaped) == step_name(seg@));
        self.open_key()?;
        let ghost c = self.cursor();
        proof {
            lemma_pour(self.doc().bytes, c.at, c.stash, None);
            lemma_open_key(old(self).doc(), old(self).cursor());
        }
        let mut m = KeyMatcher::new(pat, escaped);
        self.decode(&mut m)?;
        proof {
            let (k, name) = text(old(self).doc().bytes, c.at)->Ok_0;
            assert(m.got() =~= name);
        }
        self.str_done(true);
        Ok(m.matched())
    }

    /// Advances inside the current object to the member that `seg` designates.
    pub(crate) fn find_member(&mut self, seg: &Seg<'_>) -> (r: Res<bool, S>)
        requires
            old(self).wf(),
        ensures
            final(self).did(&*old(self), r, find(old(self).doc(), old(self).cursor(), seg@)),
    {
        let ghost d = self.doc();
        let ghost goal = find(d, self.cursor(), seg@);
        loop
            invariant
                self.wf(),
                self.follows(&*old(self)),
                d == old(self).doc(),
                goal == find(d, old(self).cursor(), seg@),
                goal == find(d, self.cursor(), seg@),
            decreases d.bytes.len() - self.cursor().at,
        {
            proof {
                lemma_member(d, self.cursor());
            }
            let t = self.next_member()?;
            let ghost c = self.cursor();
            match t {
                Token::Key => {
                    proof {
                        lemma_look(d, c);
                        lemma_text(d.bytes, c.at + 1);
                    }
                    if self.match_seg_key(seg)? {
                        self.peek()?;
                        return Ok(true);
                    }
                },
                Token::EndObject => return Ok(false),
                _ => return self.mismatch(Token::Key, t),
            }
        }
    }

    /// Inside an array, skips to element `idx` (counting from the current position).
    pub(crate) fn nth_element(&mut self, idx: usize) -> (r: Res<bool, S>)
        requires
            old(self).wf(),
        ensures
            final(self).did(
                &*old(self),
                r,
                nth(old(self).doc(), old(self).cursor(), idx as nat),
            ),
    {
        let ghost d = self.doc();
        let ghost goal = nth(d, self.cursor(), idx as nat);
        let mut i: usize = 0;
        loop
            invariant
                i <= idx,
                self.wf(),
                self.follows(&*old(self)),
                d == old(self).doc(),
                goal == nth(d, old(self).cursor(), idx as nat),
                goal == nth(d, self.cursor(), (idx - i) as nat),
            decreases idx - i,
        {
            proof {
                lemma_look(d, self.cursor());
            }
            match self.peek()? {
                Token::EndArray => return Ok(false),
                t => if t.is_value() {
                    if i == idx {
                        return Ok(true);
                    }
                    proof {
                        lemma_look(d, self.cursor());
                    }
                    self.skip_value()?;
                    i = i + 1;
                } else {
                    return self.mismatch(Token::EndArray, t);
                },
            }
        }
    }

    /// Enters the next value and advances to what `seg` designates in it.
    pub(crate) fn descend(&mut self, seg: &Seg<'_>) -> (r: Res<bool, S>)
        requires
            old(self).wf(),
        ensures
            final(self).did(&*old(self), r, descend(old(self).doc(), old(self).cursor(), seg@)),
    {
        proof {
            lemma_look(self.doc(), self.cursor());
        }
        match self.peek()? {
            Token::BeginObject => {
                self.begin_object()?;
                self.find_member(seg)
            },
            Token::BeginArray => {
                let i = match seg.index() {
                    Some(i) => i,
                    None => return Ok(false),
                };
                self.begin_array()?;
                self.nth_element(i)
            },
            t => if t.is_value() {
                Ok(false)
            } else {
                self.fail(ErrorKind::UnexpectedToken(t))
            },
        }
    }

    /// Navigates from the next value to the value at `path`, and stops right before it:
    /// afterwards [`offset`](Parser::offset) is the position of its first byte and it can
    /// be read, skipped, measured or navigated further.
    ///
    /// Paths can be given as `&["foo", "bar"]`, as a JSON Pointer (`"/foo/bar/0"`), or as
    /// segments (`&[Seg::Key("foo"), Seg::Index(0)]`).
    /// On a stream, only data after the current position can be found.
    ///
    /// Returns `Ok(false)` if the path does not exist. The parser is then left where the
    /// search stopped (possibly inside containers, see [`depth`](Parser::depth) and
    /// [`unwind`](Parser::unwind)).
    pub fn seek<P: Path + ?Sized>(&mut self, path: &P) -> (r: Res<bool, S>)
        requires
            old(self).wf(),
        ensures
            final(self).did(
                &*old(self),
                r,
                seek(old(self).doc(), old(self).cursor(), path.steps()),
            ),
    {
        let mut segs = path.segments();
        let ghost d = self.doc();
        let ghost goal = seek(d, self.cursor(), path.steps());
        loop
            invariant_except_break
                self.wf(),
                self.follows(&*old(self)),
                d == old(self).doc(),
                goal == seek(d, old(self).cursor(), path.steps()),
                goal == seek(d, self.cursor(), segs.left()),
                segs.wf(),
            ensures
                self.wf(),
                self.follows(&*old(self)),
                d == old(self).doc(),
                goal == seek(d, old(self).cursor(), path.steps()),
                goal == seek(d, self.cursor(), Seq::empty()),
            decreases segs.left().len(),
        {
            let ghost left = segs.left();
            let seg = match segs.next() {
                Some(seg) => seg,
                None => {
                    assert(left =~= Seq::<Step>::empty());
                    break ;
                },
            };
            if !self.descend(&seg)? {
                return Ok(false);
            }
        }
        match self.peek()? {
            t => if t.is_value() {
                Ok(true)
            } else {
                self.fail(ErrorKind::UnexpectedToken(t))
            },
        }
    }

    /// Reads a number and converts it with [`FromStr`] (any integer or float type).
    ///
    /// Integer types fail with [`ErrorKind::NumberOutOfRange`] if the number is out of
    /// range or has a fraction or exponent.
    ///
    /// What text converts to what value is up to `T`; a number of more than 64 bytes is not
    /// converted.
    pub fn read_num<T: FromStr>(&mut self) -> (r: Res<T, S>)
        requires
            old(self).wf(),
        ensures
            exists|parsed: Option<T>|
                {
                    &&& final(self).did(
                        &*old(self),
                        r,
                        #[trigger] read_num(old(self).doc(), old(self).cursor(), parsed),
                    )
                    &&& !(r matches Err(Error::Io(_))) ==> (read_number(
                        old(self).doc(),
                        old(self).cursor(),
                        64,
                    ) matches Outcome::Done(text, _) ==> from_text(text, parsed))
                },
    {
        self.read_num_with(parse_text::<T>)
    }

    /// Reads a number and converts its text with `parse`, which gives `None` where it cannot.
    pub fn read_num_with<T, F: FnOnce(&str) -> Option<T>>(&mut self, parse: F) -> (r: Res<T, S>)
        requires
            old(self).wf(),
            forall|s: &str| #[trigger] call_requires(parse, (s,)),
        ensures
            exists|parsed: Option<T>|
                {
                    &&& final(self).did(
                        &*old(self),
                        r,
                        #[trigger] read_num(old(self).doc(), old(self).cursor(), parsed),
                    )
                    &&& !(r matches Err(Error::Io(_))) ==> (read_number(
                        old(self).doc(),
                        old(self).cursor(),
                        64,
                    ) matches Outcome::Done(text, _) ==> converts(parse, text, parsed))
                },
    {
        let mut tmp = [0u8;64];
        let ghost d = self.doc();
        let ghost c = self.cursor();
        proof {
            lemma_look(d, c);
        }
        self.expect(Token::Number)?;
        let start = self.offset();
        proof {
            lemma_look(d, self.cursor());
            lemma_number(d.bytes, self.cursor().at);
        }
        let text = match self.read_number_str(&mut tmp) {
            Err(Error::Json { kind: ErrorKind::BufferTooSmall, offset }) => {
                assert(self.did(
                    &*old(self),
                    Err(Error::Json { kind: ErrorKind::NumberTooLong, offset }),
                    read_num(d, c, None::<T>),
                ));
                return Err(Error::Json { kind: ErrorKind::NumberTooLong, offset });
            },
            Err(e) => {
                assert(self.did(&*old(self), Err(e), read_num(d, c, None::<T>)));
                return Err(e);
            },
            Ok(text) => text,
        };
        let parsed = parse(text);
        let ghost given = parsed;
        let r = match parsed {
            Some(v) => Ok(v),
            None => Err(Error::Json { kind: ErrorKind::NumberOutOfRange, offset: start }),
        };
        assert(converts(parse, text.spec_bytes(), given));
        assert(self.did(&*old(self), r, read_num(d, c, given)));
        r
    }

    /// Reads the next token as an [`Event`]. Keys, strings and numbers are copied into
    /// `buf` (fails with [`ErrorKind::BufferTooSmall`] if they do not fit).
    pub fn next_event<'b>(&mut self, buf: &'b mut [u8]) -> (r: Res<Event<'b>, S>)
        requires
            old(self).wf(),
        ensures
            final(self).did(
                &*old(self),
                match r {
                    Ok(e) => Ok(e@),
                    Err(e) => Err(e),
                },
                event(old(self).doc(), old(self).cursor(), old(buf)@.len()),
            ),
    {
        proof {
            lemma_look(self.doc(), self.cursor());
        }
        let t = self.peek()?;
        match t {
            Token::BeginObject => {
                self.step(t)?;
                Ok(Event::BeginObject)
            },
            Token::BeginArray => {
                self.step(t)?;
                Ok(Event::BeginArray)
            },
            Token::EndObject => {
                self.step(t)?;
                Ok(Event::EndObject)
            },
            Token::EndArray => {
                self.step(t)?;
                Ok(Event::EndArray)
            },
            Token::Key => Ok(Event::Key(self.read_key(buf)?)),
            Token::String => Ok(Event::String(self.read_str(buf)?)),
            Token::Number => Ok(Event::Number(self.read_number_str(buf)?)),
            Token::Bool => {
                let v = self.literal()?;
                Ok(Event::Bool(v == Some(true)))
            },
            Token::Null => {
                self.literal()?;
                Ok(Event::Null)
            },
            Token::Eof => Ok(Event::Eof),
        }
    }
}

impl<S: Source, const N: usize> Parser<S, N> {
    /// Reads the next part of the string that is open into `buf`, and says whether the
    /// string ends there.
    pub(crate) fn next_piece<'b>(&mut self, buf: &'b mut [u8]) -> (r: Res<(&'b str, bool), S>)
        requires
            old(self).wf(),
            old(self).state is InStr,
        ensures
            final(self).did(
                &*old(self),
                match r {
                    Ok((s, end)) => Ok((s.spec_bytes(), end)),
                    Err(e) => Err(e),
                },
                piece(old(self).doc(), old(self).cursor(), old(buf)@.len()),
            ),
    {
        let key = matches!(self.state, State::InStr { key: true });
        let ghost c = self.cursor();
        let ghost size = buf@.len();
        proof {
            lemma_pour(self.doc().bytes, c.at, c.stash, Some(size));
        }
        let mut sink = BufSink::new(buf);
        let finished = self.decode(&mut sink)?;
        let ghost out = pour(old(self).doc().bytes, c.at, c.stash, Some(size))->Ok_0.out;
        assert(sink.got() =~= out);
        let len = sink.len;
        let buf = sink.into_buf();
        if finished {
            self.str_done(key);
        }
        match from_utf8(slice_subrange(buf, 0, len)) {
            Some(s) => Ok((s, finished)),
            None => self.fail(ErrorKind::InvalidUnicode),
        }
    }

    /// Starts reading the next string value (or object key) in chunks.
    pub fn str_reader<'p>(&'p mut self) -> (r: Res<StrReader<'p, S, N>, S>)
        requires
            old(self).wf(),
        ensures
            match r {
                Ok(reader) => {
                    &&& !reader.is_over()
                    &&& (*reader.inner()).did(
                        &*old(self),
                        Ok(()),
                        open_string(old(self).doc(), old(self).cursor()),
                    )
                    &&& *final(self) == *final(reader.inner())
                },
                Err(e) => final(self).did(
                    &*old(self),
                    Err(e),
                    open_string(old(self).doc(), old(self).cursor()),
                ),
            },
    {
        self.begin_string()?;
        Ok(StrReader { parser: self, done: false })
    }

    /// Consumes the opening quote of the next string value or object key, and says which of
    /// the two it is.
    pub(crate) fn begin_string(&mut self) -> (r: Res<(), S>)
        requires
            old(self).wf(),
        ensures
            final(self).did(&*old(self), r, open_string(old(self).doc(), old(self).cursor())),
            r is Ok ==> final(self).state is InStr,
    {
        proof {
            lemma_look(self.doc(), self.cursor());
        }
        match self.peek()? {
            Token::String => self.open_string(false),
            Token::Key => self.open_string(true),
            t => return self.mismatch(Token::String, t),
        }
        Ok(())
    }
}

/// Reads a string value or key in chunks, for strings larger than any available buffer.
///
/// Obtained from [`Parser::str_reader`]. Dropping it before the end is fine: the parser
/// skips the rest of the string on its next operation.
pub struct StrReader<'p, S: Source, const N: usize> {
    pub(crate) parser: &'p mut Parser<S, N>,
    pub(crate) done: bool,
}

impl<'p, S: Source, const N: usize> StrReader<'p, S, N> {
    /// The parser, inside the string.
    pub open(crate) spec fn inner(&self) -> &'p mut Parser<S, N> {
        self.parser
    }

    /// Whether the string was read to its end.
    pub open(crate) spec fn is_over(&self) -> bool {
        self.done
    }

    /// Decodes the next chunk into `buf`, returning `None` at the end of the string.
    ///
    /// Chunks never split a character; `buf` must have room for at least 4 bytes to be
    /// guaranteed to make progress.
    pub fn next_chunk<'b>(&mut self, buf: &'b mut [u8]) -> (r: Res<Option<&'b str>, S>)
        requires
            old(self).inner().wf(),
        ensures
            *final(final(self).inner()) == *final(old(self).inner()),
            (*final(self).inner()).did(
                &*old(self).inner(),
                match r {
                    Ok(Some(s)) => Ok(Some(s.spec_bytes())),
                    Ok(None) => Ok(None),
                    Err(e) => Err(e),
                },
                next_part(
                    old(self).inner().doc(),
                    old(self).inner().cursor(),
                    old(self).is_over(),
                    old(buf)@.len(),
                ),
            ),
            r is Ok ==> final(self).is_over() == (old(self).is_over()
                || !(final(self).inner().cursor().state is InStr)),
    {
        if self.done {
            return Ok(None);
        }
        if !matches!(self.parser.state, State::InStr { .. }) {
            return self.parser.fail(ErrorKind::InvalidState);
        }
        let (s, finished) = self.parser.next_piece(buf)?;
        if finished {
            self.done = true;
        }
        if s.as_bytes().len() == 0 {
            return if finished {
                Ok(None)
            } else {
                self.parser.fail(ErrorKind::BufferTooSmall)
            };
        }
        Ok(Some(s))
    }

    /// Whether the end of the string was reached.
    pub fn is_done(&self) -> (r: bool)
        ensures
            r == self.is_over(),
    {
        self.done
    }

    /// Skips the rest of the string.
    pub fn skip_rest(self) -> (r: Res<(), S>)
        requires
            self.inner().wf(),
        ensures
            (*final(self.inner())).did(
                &*old(self.inner()),
                r,
                if self.is_over() {
                    Outcome::Done((), old(self.inner()).cursor())
                } else {
                    match settle(old(self.inner()).doc(), old(self.inner()).cursor()) {
                        Err(f) => Outcome::Broken(f),
                        Ok(c) => Outcome::Done((), c),
                    }
                },
            ),
    {
        if self.done {
            Ok(())
        } else {
            self.parser.finish_str()
        }
    }
}

impl<'a, const N: usize> Parser<SliceSource<'a>, N> {
    /// Skips the next value and returns its raw JSON text (zero copy).
    pub fn raw_value(&mut self) -> (r: Result<&'a [u8], Error<Infallible>>)
        requires
            old(self).wf(),
        ensures
            final(self).did(
                &*old(self),
                match r {
                    Ok(b) => Ok(b@),
                    Err(e) => Err(e),
                },
                raw(old(self).doc(), old(self).cursor()),
            ),
    {
        let ghost d = self.doc();
        proof {
            lemma_look(d, self.cursor());
            if look(d, self.cursor()) is Ok {
                let c = look(d, self.cursor())->Ok_0.1;
                lemma_value(d.bytes, c.at, room(d, c));
            }
        }
        let span = self.value_span()?;
        Ok(slice_subrange(self.src.data(), span.start as usize, span.end as usize))
    }

    /// Reads a string value, borrowing it from the input when it contains no escape
    /// sequence, and decoding it into `scratch` otherwise.
    pub fn read_str_ref<'b>(&mut self, scratch: &'b mut [u8]) -> (r: Result<
        &'b str,
        Error<Infallible>,
    >) where 'a: 'b
        requires
            old(self).wf(),
        ensures
            final(self).did(
                &*old(self),
                bytes_of(r),
                read_str_ref(old(self).doc(), old(self).cursor(), old(scratch)@.len()),
            ),
            borrows(old(self).doc(), old(self).cursor()) ==> final(scratch)@ == old(scratch)@,
    {
        let ghost d = self.doc();
        proof {
            lemma_look(d, self.cursor());
        }
        self.expect(Token::String)?;
        let ghost c = self.cursor();
        let ghost s = d.bytes;
        let ghost from = c.at + 1;
        proof {
            lemma_look(d, c);
            lemma_text_raw(s, from);
        }
        let rest = self.src.remaining();
        let n = rest.len();
        let mut i: usize = 1;
        while i < n && rest[i] != QUOTE && rest[i] != BACKSLASH && rest[i] >= 0x20
            invariant
                1 <= i <= n == rest@.len(),
                0 <= c.at <= s.len(),
                rest@ == s.skip(c.at),
                forall|k: int| c.at + 1 <= k < c.at + i ==> is_raw(#[trigger] s[k]),
            decreases n - i,
        {
            assert(rest@[i as int] == s[c.at + i]);
            i = i + 1;
        }
        proof {
            if text(s, from) is Ok {
                let k = text(s, from)->Ok_0.0;
                if no_escape(s, from, k) {
                    if i < k - 1 - c.at {
                        assert(is_raw(s[c.at + i]));
                        assert(rest@[i as int] == s[c.at + i]);
                    }
                    if i > k - 1 - c.at {
                        assert(is_raw(s[k - 1]));
                    }
                    assert(c.at + i == k - 1);
                }
            }
        }
        if i < n && rest[i] == QUOTE {
            let body = slice_subrange(rest, 1, i);
            assert(body@ =~= s.subrange(from, c.at + i));
            assert(rest@[i as int] == s[c.at + i]);
            if let Some(text) = from_utf8(body) {
                proof {
                    lemma_raw_text(s, from, i - 1);
                    assert(no_escape(s, from, c.at + i + 1));
                }
                self.src.consume(i + 1);
                self.value_done();
                return Ok(text);
            }
        }
        self.read_str(scratch)
    }
}

/// Converts text to a value.
///
/// Trusted: calls `str::parse`, that is `T`'s own [`FromStr`]. Nothing is claimed of what it
/// gives, which is up to `T`.
#[verifier::external_body]
fn parse_text<T: FromStr>(s: &str) -> (r: Option<T>) {
    s.parse().ok()
}

/// Whether `parse` may give `parsed` for the text that is `text` in UTF-8.
pub open spec fn converts<T, F: FnOnce(&str) -> Option<T>>(
    parse: F,
    text: Seq<u8>,
    parsed: Option<T>,
) -> bool {
    exists|s: &str| s.spec_bytes() == text && #[trigger] call_ensures(parse, (s,), parsed)
}

/// Whether `T`'s own [`FromStr`] may give `parsed` for the text that is `text` in UTF-8.
pub closed spec fn from_text<T: FromStr>(text: Seq<u8>, parsed: Option<T>) -> bool {
    converts(parse_text::<T>, text, parsed)
}

/// A parse event, as returned by [`Parser::next_event`].
#[derive(Debug, Clone, Copy, PartialEq)]
pub enum Event<'b> {
    /// `{`
    BeginObject,
    /// `}`
    EndObject,
    /// `[`
    BeginArray,
    /// `]`
    EndArray,
    /// An object member name.
    Key(&'b str),
    /// A string value.
    String(&'b str),
    /// A number, as its (validated) JSON text.
    Number(&'b str),
    /// `true` or `false`.
    Bool(bool),
    /// `null`.
    Null,
    /// End of input.
    Eof,
}

impl<'b> Event<'b> {
    /// The event as mathematics: text is its UTF-8 bytes.
    pub open spec fn view(&self) -> Happening {
        match *self {
            Event::BeginObject => Happening { token: Token::BeginObject, text: None, truth: None },
            Event::EndObject => Happening { token: Token::EndObject, text: None, truth: None },
            Event::BeginArray => Happening { token: Token::BeginArray, text: None, truth: None },
            Event::EndArray => Happening { token: Token::EndArray, text: None, truth: None },
            Event::Key(s) => Happening {
                token: Token::Key,
                text: Some(s.spec_bytes()),
                truth: None,
            },
            Event::String(s) => Happening {
                token: Token::String,
                text: Some(s.spec_bytes()),
                truth: None,
            },
            Event::Number(s) => Happening {
                token: Token::Number,
                text: Some(s.spec_bytes()),
                truth: None,
            },
            Event::Bool(b) => Happening { token: Token::Bool, text: None, truth: Some(b) },
            Event::Null => Happening { token: Token::Null, text: None, truth: None },
            Event::Eof => Happening { token: Token::Eof, text: None, truth: None },
        }
    }
}

/// The text of a result, as bytes.
pub open spec fn bytes_of<'b, E>(r: Result<&'b str, E>) -> Result<Seq<u8>, E> {
    match r {
        Ok(s) => Ok(s.spec_bytes()),
        Err(e) => Err(e),
    }
}

/// The span of a result, as positions in a document whose first byte has offset `origin`.
pub open spec fn positions_of<E>(r: Result<Span, E>, origin: int) -> Result<(int, int), E> {
    match r {
        Ok(p) => Ok((p.start - origin, p.end - origin)),
        Err(e) => Err(e),
    }
}

} // verus!
