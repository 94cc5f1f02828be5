//! Streaming JSON parsing, writing and editing for memory-constrained systems: no buffer but
//! those that the caller provides, and a memory footprint of a few hundred bytes regardless
//! of document size. A multi-megabyte JSON file in flash can be edited with a 256-byte buffer.
//!
//! ## Parsing
//!
//! [`Parser`] is a pull parser (a cursor) over any [`Source`]: a slice
//! ([`Parser::from_slice`]), a stream ([`io::ReadSource`]), or random-access
//! [`edit::Storage`]. Values are lazy: one [`peek`](Parser::peek)s at the next one and
//! decides to read it, skip it, measure it, or descend into it.
//!
//! Other ways to consume a document:
//! - [`Parser::walk`]: callbacks for every value, with its JSON Pointer path.
//! - [`Parser::next_event`]: classic pull events.
//! - Cursor methods: [`begin_object`](Parser::begin_object),
//!   [`find_key`](Parser::find_key), [`read_key`](Parser::read_key),
//!   [`has_next`](Parser::has_next), [`read_num`](Parser::read_num),
//!   [`str_reader`](Parser::str_reader) for strings larger than any buffer, ...
//! - [`Parser::skip_value`], [`Parser::value_span`] (exact byte range of a value),
//!   [`validate`], [`copy_value`] (minify, pretty-print, extract).
//!
//! ## Writing
//!
//! [`JsonWriter`] encodes to any [`io::Write`]; types implement [`ToJson`].
//! [`encoded_len`] measures an encoding without producing it.
//!
//! ## Editing
//!
//! The [`edit`] module replaces, sets, inserts, appends and removes values:
//! in place in any [`edit::Storage`] ([`edit::Editor`]: locate the value, measure the new
//! encoding, move the tail of the document once, write the new value), or while copying
//! a stream ([`edit::copy_edit`]).
//!
//! ## How it is specified
//!
//! [`grammar`] says what JSON text is: where a number, a string, a value or the rest of a
//! container ends, and which fault is found where. [`cursor`] says what each step of a parser
//! over a document does, as a function from one cursor to the next. The parser's methods are
//! proved to take these steps. [`writer`] says which text each value is written as, and
//! [`edit`] which bytes of a document a modification replaces, and by what.
//!
//! What these say is tied to JSON itself by laws: [`notation`] tells from a value the texts that
//! are read as it, [`layout`] the one that is written for it, [`reading`] and [`step_laws`] what a
//! parser gives where the value stands, [`faults`] what is wrong with text that is none,
//! [`walk_laws`] which calls a walk makes, [`path_laws`] what a path leads to, and [`span_laws`]
//! which bytes an edit takes out and puts in.
#![allow(unused_imports)]

use vstd::prelude::*;

pub mod copied;
pub mod cursor;
pub mod edit;
pub mod edit_laws;
mod error;
pub mod faults;
pub mod grammar;
pub mod io;
pub mod laws;
pub mod layout;
pub mod notation;
mod number;
mod parser;
pub mod path;
pub mod path_laws;
pub mod place_laws;
pub mod read_laws;
pub mod reading;
pub mod span_laws;
pub mod splice;
mod stack;
pub mod step_laws;
mod string;
pub mod tree;
mod util;
mod walk;
pub mod walk_laws;
pub mod writer;
pub mod written;

pub use error::{Error, ErrorKind};
pub use io::{SliceSource, Source};
pub use parser::{Event, Parser, StrReader, Token};
pub use path::{Path, Seg};
pub use string::law_chunks;
pub use util::{copy_value, law_validate, validate};
pub use walk::{law_pointer_escape, Flow, Node};
pub use writer::{encoded_len, to_slice, JsonWriter, RawJson, ToJson};

verus! {

/// A byte range `start..end` in a document.
#[derive(Debug, Clone, Copy, PartialEq, Eq, Hash, Default)]
pub struct Span {
    /// Offset of the first byte.
    pub start: u64,
    /// Offset after the last byte.
    pub end: u64,
}

impl Span {
    /// Length in bytes.
    pub fn len(&self) -> (r: u64)
        requires
            self.start <= self.end,
        ensures
            r == self.end - self.start,
    {
        self.end - self.start
    }

    /// Whether the span is empty.
    pub fn is_empty(&self) -> (r: bool)
        ensures
            r == (self.start == self.end),
    {
        self.end == self.start
    }

    /// The span as a `usize` range, for slicing (`None` if it does not fit).
    pub fn range(&self) -> (r: Option<core::ops::Range<usize>>)
        ensures
            match r {
                Some(x) => x.start == self.start && x.end == self.end,
                None => self.start > usize::MAX || self.end > usize::MAX,
            },
    {
        if self.start > usize::MAX as u64 || self.end > usize::MAX as u64 {
            return None;
        }
        Some(self.start as usize..self.end as usize)
    }
}

} // verus!
