//! The JSON grammar, as mathematics: which bytes form a value, where it ends, and what is
//! wrong, and where, with bytes that form none.
//!
//! A document is a sequence of bytes and a position is an index into it. Every rule takes a
//! position and gives the position after what it describes, or a [`Fault`].

use vstd::prelude::*;
use vstd::utf8::{encode_scalar, is_scalar};

use crate::error::ErrorKind;
use crate::parser::{State, Token};

verus! {

pub const QUOTE: u8 = 0x22;

pub const BACKSLASH: u8 = 0x5c;

pub const SLASH: u8 = 0x2f;

pub const TILDE: u8 = 0x7e;

pub const COMMA: u8 = 0x2c;

pub const COLON: u8 = 0x3a;

pub const BRACE_OPEN: u8 = 0x7b;

pub const BRACE_CLOSE: u8 = 0x7d;

pub const BRACKET_OPEN: u8 = 0x5b;

pub const BRACKET_CLOSE: u8 = 0x5d;

pub const PLUS: u8 = 0x2b;

pub const MINUS: u8 = 0x2d;

pub const DOT: u8 = 0x2e;

pub const SPACE: u8 = 0x20;

pub const TAB: u8 = 0x09;

pub const NEWLINE: u8 = 0x0a;

pub const RETURN: u8 = 0x0d;

/// What is wrong with a document, and where.
pub struct Fault {
    pub kind: ErrorKind,
    pub at: int,
}

/// The result of a rule that does not match.
pub open spec fn fault<T>(kind: ErrorKind, at: int) -> Result<T, Fault> {
    Err(Fault { kind, at })
}

/// The byte at `i`, if the document has one.
pub open spec fn byte(s: Seq<u8>, i: int) -> Option<u8> {
    if 0 <= i < s.len() {
        Some(s[i])
    } else {
        None
    }
}

/// White space between tokens.
pub open spec fn is_space(b: u8) -> bool {
    b == SPACE || b == NEWLINE || b == RETURN || b == TAB
}

/// The first position from `i` on that holds no white space.
pub open spec fn skip_space(s: Seq<u8>, i: int) -> int
    decreases s.len() - i,
{
    if 0 <= i < s.len() && is_space(s[i]) {
        skip_space(s, i + 1)
    } else {
        i
    }
}

pub open spec fn is_digit(b: u8) -> bool {
    0x30 <= b <= 0x39
}

/// Whether there is a decimal digit at `i`.
pub open spec fn digit_at(s: Seq<u8>, i: int) -> bool {
    0 <= i < s.len() && is_digit(s[i])
}

/// The first position from `i` on that holds no decimal digit.
pub open spec fn skip_digits(s: Seq<u8>, i: int) -> int
    decreases s.len() - i,
{
    if digit_at(s, i) {
        skip_digits(s, i + 1)
    } else {
        i
    }
}

/// The end of the number at `i`: a sign, an integer without leading zeros, a fraction, an
/// exponent.
pub open spec fn number(s: Seq<u8>, i: int) -> Result<int, Fault> {
    if byte(s, i) == Some(MINUS) {
        integer(s, i + 1)
    } else {
        integer(s, i)
    }
}

/// The end of a number from its integer part on.
pub open spec fn integer(s: Seq<u8>, i: int) -> Result<int, Fault> {
    if !digit_at(s, i) {
        fault(ErrorKind::InvalidNumber, i)
    } else if s[i] == 0x30 {
        fraction(s, i + 1)
    } else {
        fraction(s, skip_digits(s, i))
    }
}

/// The end of a number from what follows its integer part on.
pub open spec fn fraction(s: Seq<u8>, i: int) -> Result<int, Fault> {
    if byte(s, i) != Some(DOT) {
        exponent(s, i)
    } else if !digit_at(s, i + 1) {
        fault(ErrorKind::InvalidNumber, i + 1)
    } else {
        exponent(s, skip_digits(s, i + 1))
    }
}

/// Whether `b` is `e` or `E`.
pub open spec fn is_exponent_mark(b: u8) -> bool {
    b == 0x65 || b == 0x45
}

pub open spec fn is_sign(b: u8) -> bool {
    b == PLUS || b == MINUS
}

/// The end of a number from what follows its fraction on.
pub open spec fn exponent(s: Seq<u8>, i: int) -> Result<int, Fault> {
    if !(0 <= i < s.len() && is_exponent_mark(s[i])) {
        Ok(i)
    } else {
        let k = if 0 <= i + 1 < s.len() && is_sign(s[i + 1]) {
            i + 2
        } else {
            i + 1
        };
        if !digit_at(s, k) {
            fault(ErrorKind::InvalidNumber, k)
        } else {
            Ok(skip_digits(s, k))
        }
    }
}

/// The end of `word`, of which the first `k` bytes were found in front of `i`.
pub open spec fn word_end(s: Seq<u8>, i: int, word: Seq<u8>, k: int) -> Result<int, Fault>
    decreases word.len() - k,
{
    if k >= word.len() {
        Ok(i)
    } else {
        match byte(s, i) {
            None => fault(ErrorKind::UnexpectedEof, i),
            Some(b) => if b == word[k] {
                word_end(s, i + 1, word, k + 1)
            } else {
                fault(ErrorKind::UnexpectedByte(b), i)
            },
        }
    }
}

pub open spec fn word_true() -> Seq<u8> {
    seq![0x74, 0x72, 0x75, 0x65]
}

pub open spec fn word_false() -> Seq<u8> {
    seq![0x66, 0x61, 0x6c, 0x73, 0x65]
}

pub open spec fn word_null() -> Seq<u8> {
    seq![0x6e, 0x75, 0x6c, 0x6c]
}

/// The word that a value starting with `b` has to be.
pub open spec fn word_of(b: u8) -> Seq<u8> {
    if b == 0x74 {
        word_true()
    } else if b == 0x66 {
        word_false()
    } else {
        word_null()
    }
}

/// The end of `true`, `false` or `null` at `i`.
pub open spec fn literal(s: Seq<u8>, i: int) -> Result<int, Fault> {
    word_end(s, i, word_of(s[i]), 0)
}

/// The value of a hexadecimal digit.
pub open spec fn hex_digit(b: u8) -> Option<int> {
    if 0x30 <= b <= 0x39 {
        Some(b - 0x30)
    } else if 0x61 <= b <= 0x66 {
        Some(b - 0x61 + 10)
    } else if 0x41 <= b <= 0x46 {
        Some(b - 0x41 + 10)
    } else {
        None
    }
}

/// The number that `n` hexadecimal digits at `i` write, behind digits that write `v`.
pub open spec fn hex(s: Seq<u8>, i: int, n: nat, v: int) -> Result<int, Fault>
    decreases n,
{
    if n == 0 {
        Ok(v)
    } else {
        match byte(s, i) {
            None => fault(ErrorKind::UnexpectedEof, i),
            Some(b) => match hex_digit(b) {
                None => fault(ErrorKind::InvalidEscape, i),
                Some(d) => hex(s, i + 1, (n - 1) as nat, v * 16 + d),
            },
        }
    }
}

pub open spec fn is_high_surrogate(v: int) -> bool {
    0xd800 <= v <= 0xdbff
}

pub open spec fn is_low_surrogate(v: int) -> bool {
    0xdc00 <= v <= 0xdfff
}

/// The character that a `\u` escape stands for, with the position after it; `i` is the
/// position of its first digit. A character beyond U+FFFF takes two escapes.
pub open spec fn unicode_escape(s: Seq<u8>, i: int) -> Result<(int, int), Fault> {
    match hex(s, i, 4, 0) {
        Err(f) => Err(f),
        Ok(hi) => if is_low_surrogate(hi) {
            fault(ErrorKind::InvalidUnicode, i + 4)
        } else if !is_high_surrogate(hi) {
            Ok((i + 4, hi))
        } else if byte(s, i + 4) != Some(BACKSLASH) {
            fault(ErrorKind::InvalidUnicode, i + 4)
        } else if byte(s, i + 5) != Some(0x75u8) {
            fault(ErrorKind::InvalidUnicode, i + 5)
        } else {
            match hex(s, i + 6, 4, 0) {
                Err(f) => Err(f),
                Ok(lo) => if is_low_surrogate(lo) {
                    Ok((i + 10, 0x10000 + (hi - 0xd800) * 0x400 + (lo - 0xdc00)))
                } else {
                    fault(ErrorKind::InvalidUnicode, i + 10)
                },
            }
        },
    }
}

/// The character that the letter `e` behind a backslash stands for.
pub open spec fn short_escape(e: u8) -> Option<u8> {
    if e == QUOTE || e == BACKSLASH || e == SLASH {
        Some(e)
    } else if e == 0x62 {
        Some(0x08u8)
    } else if e == 0x66 {
        Some(0x0cu8)
    } else if e == 0x6e {
        Some(0x0au8)
    } else if e == 0x72 {
        Some(0x0du8)
    } else if e == 0x74 {
        Some(0x09u8)
    } else {
        None
    }
}

/// The character that an escape sequence stands for, with the position after it; `i` is
/// the position behind the backslash.
pub open spec fn escape(s: Seq<u8>, i: int) -> Result<(int, int), Fault> {
    match byte(s, i) {
        None => fault(ErrorKind::UnexpectedEof, i),
        Some(e) => if e == 0x75 {
            unicode_escape(s, i + 1)
        } else {
            match short_escape(e) {
                Some(c) => Ok((i + 1, c as int)),
                None => fault(ErrorKind::InvalidEscape, i),
            }
        },
    }
}

/// How many bytes the UTF-8 character starting with `b` has (0 if none starts with it).
pub open spec fn utf8_len(b: u8) -> int {
    if 0xc2 <= b <= 0xdf {
        2
    } else if 0xe0 <= b <= 0xef {
        3
    } else if 0xf0 <= b <= 0xf4 {
        4
    } else {
        0
    }
}

/// Whether `b` may stand at index `k` of a UTF-8 character starting with `first`. The second
/// byte rules out overlong forms, surrogates, and what lies beyond U+10FFFF.
pub open spec fn utf8_tail(first: u8, k: int, b: u8) -> bool {
    if k == 1 && first == 0xe0 {
        0xa0 <= b <= 0xbf
    } else if k == 1 && first == 0xed {
        0x80 <= b <= 0x9f
    } else if k == 1 && first == 0xf0 {
        0x90 <= b <= 0xbf
    } else if k == 1 && first == 0xf4 {
        0x80 <= b <= 0x8f
    } else {
        0x80 <= b <= 0xbf
    }
}

/// The end of the UTF-8 character at `i`, of which `k` bytes were checked.
pub open spec fn utf8_end(s: Seq<u8>, i: int, k: int) -> Result<int, Fault>
    decreases utf8_len(s[i]) - k,
{
    if k >= utf8_len(s[i]) {
        Ok(i + k)
    } else {
        match byte(s, i + k) {
            None => fault(ErrorKind::UnexpectedEof, i + k),
            Some(b) => if utf8_tail(s[i], k, b) {
                utf8_end(s, i, k + 1)
            } else {
                fault(ErrorKind::InvalidUnicode, i + k)
            },
        }
    }
}

/// A byte that stands for itself in a string.
pub open spec fn is_plain(b: u8) -> bool {
    0x20 <= b < 0x80 && b != QUOTE && b != BACKSLASH
}

/// One character of a string, at `i`, which does not hold the closing quote: the position
/// after it, and the UTF-8 bytes it stands for.
pub open spec fn unit(s: Seq<u8>, i: int) -> Result<(int, Seq<u8>), Fault> {
    let b = s[i];
    if is_plain(b) {
        Ok((i + 1, seq![b]))
    } else if b == BACKSLASH {
        match escape(s, i + 1) {
            Err(f) => Err(f),
            Ok((k, c)) => Ok((k, encode_scalar(c as u32))),
        }
    } else if b < 0x20 {
        fault(ErrorKind::ControlCharacter, i)
    } else if utf8_len(b) == 0 {
        fault(ErrorKind::InvalidUnicode, i)
    } else {
        match utf8_end(s, i, 1) {
            Err(f) => Err(f),
            Ok(k) => Ok((k, s.subrange(i, k))),
        }
    }
}

/// The rest of a string from `i` on: the position after its closing quote, and the UTF-8
/// bytes it stands for.
pub open spec fn text(s: Seq<u8>, i: int) -> Result<(int, Seq<u8>), Fault>
    decreases s.len() - i,
{
    if !(0 <= i < s.len()) {
        fault(ErrorKind::UnexpectedEof, i)
    } else if s[i] == QUOTE {
        Ok((i + 1, Seq::empty()))
    } else {
        match unit(s, i) {
            Err(f) => Err(f),
            Ok((k, b)) => {
                proof {
                    lemma_unit(s, i);
                }
                match text(s, k) {
                    Err(f) => Err(f),
                    Ok((e, t)) => Ok((e, b + t)),
                }
            },
        }
    }
}

/// A part of a string: as many whole characters as fit in `room` bytes (all of them where
/// there is no limit).
#[verifier::ext_equal]
pub struct Chunk {
    /// The position after what was read.
    pub at: int,
    /// The UTF-8 bytes of the characters that fit.
    pub out: Seq<u8>,
    /// A character that was read but does not fit.
    pub stash: Seq<u8>,
    /// Whether the closing quote was read.
    pub done: bool,
}

/// Whether `n` bytes fit in `room`.
pub open spec fn fits(room: Option<nat>, n: nat) -> bool {
    match room {
        None => true,
        Some(r) => n <= r,
    }
}

/// What is left of `room` after `n` bytes.
pub open spec fn less(room: Option<nat>, n: nat) -> Option<nat> {
    match room {
        None => None,
        Some(r) => if n <= r {
            Some((r - n) as nat)
        } else {
            Some(0)
        },
    }
}

/// `c`, behind `head`.
pub open spec fn prepend(head: Seq<u8>, c: Result<Chunk, Fault>) -> Result<Chunk, Fault> {
    match c {
        Err(f) => Err(f),
        Ok(c) => Ok(Chunk { out: head + c.out, ..c }),
    }
}

/// The next part of a string, from `i` on.
pub open spec fn chunk(s: Seq<u8>, i: int, room: Option<nat>) -> Result<Chunk, Fault>
    decreases s.len() - i,
{
    if !(0 <= i < s.len()) {
        fault(ErrorKind::UnexpectedEof, i)
    } else if s[i] == QUOTE {
        Ok(Chunk { at: i + 1, out: Seq::empty(), stash: Seq::empty(), done: true })
    } else if room == Some(0nat) {
        Ok(Chunk { at: i, out: Seq::empty(), stash: Seq::empty(), done: false })
    } else {
        match unit(s, i) {
            Err(f) => Err(f),
            Ok((k, b)) => {
                proof {
                    lemma_unit(s, i);
                }
                if fits(room, b.len()) {
                    prepend(b, chunk(s, k, less(room, b.len())))
                } else {
                    Ok(Chunk { at: k, out: Seq::empty(), stash: b, done: false })
                }
            },
        }
    }
}

/// The next part of a string of which the character `stash` was read before.
pub open spec fn pour(s: Seq<u8>, i: int, stash: Seq<u8>, room: Option<nat>) -> Result<
    Chunk,
    Fault,
> {
    if fits(room, stash.len()) {
        prepend(stash, chunk(s, i, less(room, stash.len())))
    } else {
        Ok(Chunk { at: i, out: Seq::empty(), stash, done: false })
    }
}

/// The kind of value that starts with `b`.
pub open spec fn value_token(b: u8) -> Option<Token> {
    if b == BRACE_OPEN {
        Some(Token::BeginObject)
    } else if b == BRACKET_OPEN {
        Some(Token::BeginArray)
    } else if b == QUOTE {
        Some(Token::String)
    } else if b == MINUS || is_digit(b) {
        Some(Token::Number)
    } else if b == 0x74 || b == 0x66 {
        Some(Token::Bool)
    } else if b == 0x6e {
        Some(Token::Null)
    } else {
        None
    }
}

/// Whether a token starts a value.
pub open spec fn starts_value(t: Token) -> bool {
    t == Token::Null || t == Token::Bool || t == Token::Number || t == Token::String || t
        == Token::BeginObject || t == Token::BeginArray
}

/// The token that starts with `b` where `state` expects no separator.
pub open spec fn direct_token(state: State, b: u8) -> Option<Token> {
    match state {
        State::TopValue | State::ArrValue | State::ObjValue => value_token(b),
        State::ArrFirst => if b == BRACKET_CLOSE {
            Some(Token::EndArray)
        } else {
            value_token(b)
        },
        State::ArrComma => if b == BRACKET_CLOSE {
            Some(Token::EndArray)
        } else {
            None
        },
        State::ObjFirst => if b == QUOTE {
            Some(Token::Key)
        } else if b == BRACE_CLOSE {
            Some(Token::EndObject)
        } else {
            None
        },
        State::ObjKey => if b == QUOTE {
            Some(Token::Key)
        } else {
            None
        },
        State::ObjComma => if b == BRACE_CLOSE {
            Some(Token::EndObject)
        } else {
            None
        },
        _ => None,
    }
}

/// The state that the separator `b` leads to from `state`.
pub open spec fn separator(state: State, b: u8) -> Option<State> {
    if state == State::ArrComma && b == COMMA {
        Some(State::ArrValue)
    } else if state == State::ObjComma && b == COMMA {
        Some(State::ObjKey)
    } else if state == State::ObjColon && b == COLON {
        Some(State::ObjValue)
    } else {
        None
    }
}

/// A token: its kind, its position, and the state in which it is met.
pub struct Met {
    pub token: Token,
    pub at: int,
    pub state: State,
}

/// The next token from `i` on, where `state` expects no separator.
pub open spec fn plain_token(s: Seq<u8>, i: int, state: State) -> Result<Met, Fault> {
    let j = skip_space(s, i);
    match byte(s, j) {
        None => fault(ErrorKind::UnexpectedEof, j),
        Some(b) => match direct_token(state, b) {
            Some(t) => Ok(Met { token: t, at: j, state }),
            None => fault(ErrorKind::UnexpectedByte(b), j),
        },
    }
}

/// The next token from `i` on, after white space and the separator that `state` expects.
/// `multi` allows more than one top-level value.
pub open spec fn next_token(s: Seq<u8>, i: int, state: State, multi: bool) -> Result<Met, Fault> {
    let j = skip_space(s, i);
    if state == State::TopDone {
        if byte(s, j) is None {
            Ok(Met { token: Token::Eof, at: j, state })
        } else if multi {
            plain_token(s, j, State::TopValue)
        } else {
            fault(ErrorKind::TrailingData, j)
        }
    } else {
        match byte(s, j) {
            Some(b) => match separator(state, b) {
                Some(next) => plain_token(s, j + 1, next),
                None => plain_token(s, i, state),
            },
            None => plain_token(s, i, state),
        }
    }
}

/// The state after an element or member value that was met in `state`.
pub open spec fn value_end(state: State) -> State {
    match state {
        State::ArrFirst | State::ArrValue => State::ArrComma,
        State::ObjValue => State::ObjComma,
        _ => State::TopDone,
    }
}

/// The end of the value that starts at `i` and may nest `room` levels deep.
pub open spec fn value(s: Seq<u8>, i: int, room: int) -> Result<int, Fault>
    decreases s.len() - i, 0int,
{
    match byte(s, i) {
        None => fault(ErrorKind::UnexpectedEof, i),
        Some(b) => match value_token(b) {
            None => fault(ErrorKind::UnexpectedByte(b), i),
            Some(Token::BeginObject) => if room <= 0 {
                fault(ErrorKind::DepthLimitExceeded, i)
            } else {
                rest(s, i + 1, State::ObjFirst, room - 1)
            },
            Some(Token::BeginArray) => if room <= 0 {
                fault(ErrorKind::DepthLimitExceeded, i)
            } else {
                rest(s, i + 1, State::ArrFirst, room - 1)
            },
            Some(Token::String) => match text(s, i + 1) {
                Err(f) => Err(f),
                Ok((k, _)) => Ok(k),
            },
            Some(Token::Number) => number(s, i),
            Some(_) => literal(s, i),
        },
    }
}

/// The end of the innermost open container, from `i` on, where `state` is what is expected
/// there and values may nest `room` levels deep.
pub open spec fn rest(s: Seq<u8>, i: int, state: State, room: int) -> Result<int, Fault>
    decreases s.len() - i, 1int,
{
    match if 0 <= i <= s.len() {
        next_token(s, i, state, false)
    } else {
        fault(ErrorKind::UnexpectedEof, i)
    } {
        Err(f) => Err(f),
        Ok(m) => {
            proof {
                lemma_next_token(s, i, state, false);
            }
            if m.token == Token::EndObject || m.token == Token::EndArray {
                Ok(m.at + 1)
            } else if m.token == Token::Key {
                match text(s, m.at + 1) {
                    Err(f) => Err(f),
                    Ok((k, _)) => {
                        proof {
                            lemma_text(s, m.at + 1);
                        }
                        rest(s, k, State::ObjColon, room)
                    },
                }
            } else if m.token == Token::Eof {
                fault(ErrorKind::UnexpectedEof, m.at)
            } else {
                match value(s, m.at, room) {
                    Err(f) => Err(f),
                    // A value has at least one byte, so the end always lies ahead.
                    Ok(k) => if m.at < k <= s.len() {
                        rest(s, k, value_end(m.state), room)
                    } else {
                        Ok(k)
                    },
                }
            }
        },
    }
}

/// White space ends at a position that holds none.
pub proof fn lemma_skip_space(s: Seq<u8>, i: int)
    requires
        0 <= i <= s.len(),
    ensures
        i <= skip_space(s, i) <= s.len(),
        skip_space(s, i) < s.len() ==> !is_space(s[skip_space(s, i)]),
        skip_space(s, skip_space(s, i)) == skip_space(s, i),
        forall|k: int| i <= k < skip_space(s, i) ==> is_space(#[trigger] s[k]),
    decreases s.len() - i,
{
    if i < s.len() && is_space(s[i]) {
        lemma_skip_space(s, i + 1);
    }
}

pub proof fn lemma_skip_digits(s: Seq<u8>, i: int)
    requires
        0 <= i <= s.len(),
    ensures
        i <= skip_digits(s, i) <= s.len(),
        digit_at(s, i) ==> i < skip_digits(s, i),
    decreases s.len() - i,
{
    if digit_at(s, i) {
        lemma_skip_digits(s, i + 1);
    }
}

/// Four hexadecimal digits write a number of 16 bits.
pub proof fn lemma_hex4(s: Seq<u8>, i: int)
    requires
        0 <= i,
    ensures
        hex(s, i, 4, 0) matches Ok(v) ==> 0 <= v <= 0xffff && i + 4 <= s.len(),
        hex(s, i, 4, 0) matches Err(f) ==> i <= f.at && (i <= s.len() ==> f.at <= s.len()),
{
    reveal_with_fuel(hex, 5);
}

/// An escape sequence stands for a Unicode scalar value.
pub proof fn lemma_escape(s: Seq<u8>, i: int)
    requires
        0 <= i <= s.len(),
    ensures
        match escape(s, i) {
            Ok((k, c)) => i < k <= s.len() && 0 <= c <= 0x10ffff && is_scalar(c as u32),
            Err(f) => i <= f.at <= s.len(),
        },
{
    lemma_hex4(s, i + 1);
    lemma_hex4(s, i + 7);
}

pub proof fn lemma_utf8_end(s: Seq<u8>, i: int, k: int)
    requires
        0 <= i,
        1 <= k,
        i + k <= s.len(),
        utf8_len(s[i]) > 0 ==> k <= utf8_len(s[i]),
    ensures
        match utf8_end(s, i, k) {
            Ok(e) => i < e <= s.len() && (utf8_len(s[i]) > 0 ==> e == i + utf8_len(s[i])),
            Err(f) => i <= f.at <= s.len(),
        },
    decreases utf8_len(s[i]) - k,
{
    if k < utf8_len(s[i]) && byte(s, i + k) is Some && utf8_tail(s[i], k, s[i + k]) {
        lemma_utf8_end(s, i, k + 1);
    }
}

/// A character takes at least one byte of the document, and stands for one to four.
pub proof fn lemma_unit(s: Seq<u8>, i: int)
    requires
        0 <= i < s.len(),
    ensures
        match unit(s, i) {
            Ok((k, b)) => i < k <= s.len() && 1 <= b.len() <= 4,
            Err(f) => i <= f.at <= s.len(),
        },
{
    lemma_escape(s, i + 1);
    lemma_utf8_end(s, i, 1);
}

/// A string ends within the document.
pub proof fn lemma_text(s: Seq<u8>, i: int)
    requires
        0 <= i <= s.len(),
    ensures
        match text(s, i) {
            Ok((k, t)) => i < k <= s.len(),
            Err(f) => i <= f.at <= s.len(),
        },
    decreases s.len() - i,
{
    if i < s.len() && s[i] != QUOTE {
        lemma_unit(s, i);
        if unit(s, i) is Ok {
            lemma_text(s, unit(s, i)->Ok_0.0);
        }
    }
}

pub proof fn lemma_number(s: Seq<u8>, i: int)
    requires
        0 <= i <= s.len(),
    ensures
        match number(s, i) {
            Ok(k) => i < k <= s.len(),
            Err(f) => i <= f.at <= s.len(),
        },
{
    let a = if byte(s, i) == Some(MINUS) {
        i + 1
    } else {
        i
    };
    if digit_at(s, a) {
        lemma_skip_digits(s, a);
        let b = if s[a] == 0x30 {
            a + 1
        } else {
            skip_digits(s, a)
        };
        lemma_fraction(s, b);
    }
}

pub proof fn lemma_fraction(s: Seq<u8>, i: int)
    requires
        0 <= i <= s.len(),
    ensures
        match fraction(s, i) {
            Ok(k) => i <= k <= s.len(),
            Err(f) => i <= f.at <= s.len(),
        },
{
    if byte(s, i) != Some(DOT) {
        lemma_exponent(s, i);
    } else if digit_at(s, i + 1) {
        lemma_skip_digits(s, i + 1);
        lemma_exponent(s, skip_digits(s, i + 1));
    }
}

pub proof fn lemma_exponent(s: Seq<u8>, i: int)
    requires
        0 <= i <= s.len(),
    ensures
        match exponent(s, i) {
            Ok(k) => i <= k <= s.len(),
            Err(f) => i <= f.at <= s.len(),
        },
{
    if i < s.len() {
        lemma_skip_digits(s, i + 1);
    }
    if i + 1 < s.len() {
        lemma_skip_digits(s, i + 2);
    }
}

pub proof fn lemma_word_end(s: Seq<u8>, i: int, word: Seq<u8>, k: int)
    requires
        0 <= i <= s.len(),
        0 <= k <= word.len(),
    ensures
        match word_end(s, i, word, k) {
            Ok(e) => e == i + word.len() - k && e <= s.len(),
            Err(f) => i <= f.at <= s.len(),
        },
    decreases word.len() - k,
{
    if k < word.len() && byte(s, i) == Some(word[k]) {
        lemma_word_end(s, i + 1, word, k + 1);
    }
}

/// A value has at least one byte and ends within the document.
pub proof fn lemma_value(s: Seq<u8>, i: int, room: int)
    requires
        0 <= i <= s.len(),
    ensures
        match value(s, i, room) {
            Ok(k) => i < k <= s.len(),
            Err(f) => i <= f.at <= s.len(),
        },
    decreases s.len() - i, 0int,
{
    if i < s.len() {
        lemma_text(s, i + 1);
        lemma_number(s, i);
        lemma_word_end(s, i, word_of(s[i]), 0);
        lemma_rest(s, i + 1, State::ObjFirst, room - 1);
        lemma_rest(s, i + 1, State::ArrFirst, room - 1);
    }
}

/// A container ends within the document.
pub proof fn lemma_rest(s: Seq<u8>, i: int, state: State, room: int)
    requires
        0 <= i <= s.len(),
    ensures
        match rest(s, i, state, room) {
            Ok(k) => i < k <= s.len(),
            Err(f) => i <= f.at <= s.len(),
        },
    decreases s.len() - i, 1int,
{
    lemma_next_token(s, i, state, false);
    if next_token(s, i, state, false) is Ok {
        let m = next_token(s, i, state, false)->Ok_0;
        if m.at < s.len() {
            lemma_text(s, m.at + 1);
            if m.token == Token::Key && text(s, m.at + 1) is Ok {
                lemma_rest(s, text(s, m.at + 1)->Ok_0.0, State::ObjColon, room);
            }
            lemma_value(s, m.at, room);
            if value(s, m.at, room) is Ok {
                lemma_rest(s, value(s, m.at, room)->Ok_0, value_end(m.state), room);
            }
        }
    }
}

/// A token lies ahead, and is met again from where it stands.
pub proof fn lemma_next_token(s: Seq<u8>, i: int, state: State, multi: bool)
    requires
        0 <= i <= s.len(),
    ensures
        match next_token(s, i, state, multi) {
            Ok(m) => {
                &&& i <= m.at <= s.len()
                &&& m.token != Token::Eof ==> m.at < s.len()
                &&& next_token(s, m.at, m.state, multi) == Ok::<Met, Fault>(m)
            },
            Err(f) => i <= f.at <= s.len(),
        },
{
    lemma_skip_space(s, i);
    let j = skip_space(s, i);
    if j < s.len() {
        lemma_skip_space(s, j + 1);
    }
    lemma_skip_space(s, j);
}

} // verus!
