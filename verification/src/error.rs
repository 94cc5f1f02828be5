//! What can go wrong.

use vstd::prelude::*;
use vstd::string::{StringExecFns, StringSliceAdditionalSpecFns};
use vstd::utf8::{encode_utf8, encode_utf8_decode_utf8, is_ascii_chars, is_ascii_chars_encode_utf8};

use crate::number::{decimal, fmt_u64, lemma_ascii_utf8, lemma_decimal_len, lemma_widths};
use crate::parser::Token;
use crate::path::lemma_decimal_index;
use crate::string::from_utf8;
use crate::writer::{hex_char, hex_digit};

verus! {

/// What went wrong while processing JSON.
#[derive(Debug, Clone, Copy, PartialEq, Eq, Structural)]
#[non_exhaustive]
pub enum ErrorKind {
    /// The input ended in the middle of a JSON value.
    UnexpectedEof,
    /// A byte that is not valid at this position.
    UnexpectedByte(u8),
    /// Non-whitespace data follows the top-level value.
    TrailingData,
    /// An invalid escape sequence in a string.
    InvalidEscape,
    /// Invalid UTF-8, or a `\u` escape encoding an unpaired surrogate.
    InvalidUnicode,
    /// An unescaped control character (below U+0020) in a string.
    ControlCharacter,
    /// A malformed number.
    InvalidNumber,
    /// The document nests deeper than the parser's stack allows.
    DepthLimitExceeded,
    /// A caller-provided buffer is too small for the requested data.
    BufferTooSmall,
    /// A number is too long for the internal conversion buffer (64 bytes).
    NumberTooLong,
    /// A number cannot be represented in the requested type (out of range,
    /// or has a fraction/exponent when an integer was requested).
    NumberOutOfRange,
    /// A value of a different type was found.
    TypeMismatch {
        /// What the caller asked for.
        expected: Token,
        /// What the document contains.
        found: Token,
    },
    /// A value was expected, but something else was found.
    UnexpectedToken(Token),
    /// The operation is not valid in the current state.
    InvalidState,
    /// The path buffer given to a walk is too small.
    PathTooLong,
}

/// Error type of all fallible operations: either an I/O error from the
/// underlying source/sink/storage, or a JSON error at a given byte offset.
#[derive(Debug, Clone, Copy, PartialEq, Eq)]
pub enum Error<E> {
    /// Error reported by the underlying I/O.
    Io(E),
    /// Malformed JSON, or API misuse.
    Json {
        /// What went wrong.
        kind: ErrorKind,
        /// Byte offset in the input where it went wrong.
        offset: u64,
    },
}

impl<E> Error<E> {
    /// The JSON error kind, or `None` for I/O errors.
    pub fn kind(&self) -> (r: Option<ErrorKind>)
        ensures
            r == (match *self {
                Error::Json { kind, offset } => Some(kind),
                Error::Io(_) => None,
            }),
    {
        match self {
            Self::Json { kind, .. } => Some(*kind),
            Self::Io(_) => None,
        }
    }

    /// The byte offset of a JSON error, or `None` for I/O errors.
    pub fn offset(&self) -> (r: Option<u64>)
        ensures
            r == (match *self {
                Error::Json { kind, offset } => Some(offset),
                Error::Io(_) => None,
            }),
    {
        match self {
            Self::Json { offset, .. } => Some(*offset),
            Self::Io(_) => None,
        }
    }

    /// Converts the I/O error type.
    pub fn map_io<F, C: FnOnce(E) -> F>(self, f: C) -> (r: Error<F>)
        requires
            self matches Error::Io(e) ==> call_requires(f, (e,)),
        ensures
            match self {
                Error::Io(e) => r matches Error::Io(x) && call_ensures(f, (e,), x),
                Error::Json { kind, offset } => r == (Error::<F>::Json { kind, offset }),
            },
    {
        match self {
            Self::Io(e) => Error::Io(f(e)),
            Self::Json { kind, offset } => Error::Json { kind, offset },
        }
    }
}

/// ASCII bytes as text.
pub open spec fn ascii(b: Seq<u8>) -> Seq<char> {
    Seq::new(b.len(), |i: int| b[i] as char)
}

/// What a token is called.
pub open spec fn token_text(t: Token) -> Seq<char> {
    match t {
        Token::Null => "null"@,
        Token::Bool => "boolean"@,
        Token::Number => "number"@,
        Token::String => "string"@,
        Token::BeginObject => "object"@,
        Token::BeginArray => "array"@,
        Token::Key => "object key"@,
        Token::EndObject => "'}'"@,
        Token::EndArray => "']'"@,
        Token::Eof => "end of input"@,
    }
}

/// The text of an error. A byte is shown as a character if it is a visible one.
pub open spec fn kind_text(kind: ErrorKind) -> Seq<char> {
    match kind {
        ErrorKind::UnexpectedEof => "unexpected end of input"@,
        ErrorKind::UnexpectedByte(b) => if 0x21 <= b <= 0x7e {
            "unexpected character '"@ + ascii(seq![b]) + "'"@
        } else {
            "unexpected byte 0x"@ + ascii(seq![hex_char(b as int / 16), hex_char(b as int % 16)])
        },
        ErrorKind::TrailingData => "trailing data after JSON value"@,
        ErrorKind::InvalidEscape => "invalid escape sequence"@,
        ErrorKind::InvalidUnicode => "invalid unicode"@,
        ErrorKind::ControlCharacter => "control character in string"@,
        ErrorKind::InvalidNumber => "invalid number"@,
        ErrorKind::DepthLimitExceeded => "nesting depth limit exceeded"@,
        ErrorKind::BufferTooSmall => "buffer too small"@,
        ErrorKind::NumberTooLong => "number too long"@,
        ErrorKind::NumberOutOfRange => "number out of range for target type"@,
        ErrorKind::TypeMismatch { expected, found } => "expected "@ + token_text(expected)
            + ", found "@ + token_text(found),
        ErrorKind::UnexpectedToken(t) => "expected a value, found "@ + token_text(t),
        ErrorKind::InvalidState => "operation not valid in current state"@,
        ErrorKind::PathTooLong => "path buffer too small"@,
    }
}

/// Appends ASCII bytes to a text.
fn add_ascii(s: String, b: &[u8]) -> (r: String)
    requires
        forall|i: int| 0 <= i < b@.len() ==> #[trigger] b@[i] < 0x80,
    ensures
        r@ == s@ + ascii(b@),
{
    proof {
        lemma_ascii_utf8(b@);
    }
    match from_utf8(b) {
        Some(t) => {
            proof {
                let chars = ascii(b@);
                assert(is_ascii_chars(chars));
                is_ascii_chars_encode_utf8(chars);
                assert(encode_utf8(chars) =~= b@);
                encode_utf8_decode_utf8(chars);
                encode_utf8_decode_utf8(t@);
            }
            s.concat(t)
        },
        None => s,
    }
}

impl Token {
    /// What the token is called.
    pub fn name(self) -> (r: &'static str)
        ensures
            r@ == token_text(self),
    {
        match self {
            Self::Null => "null",
            Self::Bool => "boolean",
            Self::Number => "number",
            Self::String => "string",
            Self::BeginObject => "object",
            Self::BeginArray => "array",
            Self::Key => "object key",
            Self::EndObject => "'}'",
            Self::EndArray => "']'",
            Self::Eof => "end of input",
        }
    }
}

impl ErrorKind {
    /// The text of the error.
    pub fn message(&self) -> (r: String)
        ensures
            r@ == kind_text(*self),
    {
        match *self {
            Self::UnexpectedEof => "unexpected end of input".to_owned(),
            Self::UnexpectedByte(b) => if 0x21 <= b && b <= 0x7e {
                assert([b]@ =~= seq![b]);
                add_ascii("unexpected character '".to_owned(), &[b]).concat("'")
            } else {
                let digits = [hex_digit(b / 16), hex_digit(b % 16)];
                assert(digits@ =~= seq![hex_char(b as int / 16), hex_char(b as int % 16)]);
                add_ascii("unexpected byte 0x".to_owned(), &digits)
            },
            Self::TrailingData => "trailing data after JSON value".to_owned(),
            Self::InvalidEscape => "invalid escape sequence".to_owned(),
            Self::InvalidUnicode => "invalid unicode".to_owned(),
            Self::ControlCharacter => "control character in string".to_owned(),
            Self::InvalidNumber => "invalid number".to_owned(),
            Self::DepthLimitExceeded => "nesting depth limit exceeded".to_owned(),
            Self::BufferTooSmall => "buffer too small".to_owned(),
            Self::NumberTooLong => "number too long".to_owned(),
            Self::NumberOutOfRange => "number out of range for target type".to_owned(),
            Self::TypeMismatch { expected, found } => "expected ".to_owned().concat(
                expected.name(),
            ).concat(", found ").concat(found.name()),
            Self::UnexpectedToken(t) => "expected a value, found ".to_owned().concat(t.name()),
            Self::InvalidState => "operation not valid in current state".to_owned(),
            Self::PathTooLong => "path buffer too small".to_owned(),
        }
    }
}

impl<E> Error<E> {
    /// The text of the error, where `io` gives that of an I/O error.
    pub fn message<C: FnOnce(&E) -> String>(&self, io: C) -> (r: String)
        requires
            *self matches Error::Io(e) ==> call_requires(io, (&e,)),
        ensures
            match *self {
                Error::Io(e) => exists|s: String|
                    #[trigger] call_ensures(io, (&e,), s) && r@ == "I/O error: "@ + s@,
                Error::Json { kind, offset } => r@ == kind_text(kind) + " at offset "@ + ascii(
                    decimal(offset as nat),
                ),
            },
    {
        match self {
            Self::Io(e) => "I/O error: ".to_owned().concat(io(e).as_str()),
            Self::Json { kind, offset } => {
                let mut buf = [0u8;20];
                proof {
                    lemma_widths();
                    lemma_decimal_len(*offset as nat, 20);
                    lemma_decimal_index(*offset as nat);
                }
                add_ascii(kind.message().concat(" at offset "), fmt_u64(*offset, &mut buf))
            },
        }
    }
}

} // verus!
