//! What copying a value means: a law that relates [`copy_value`](crate::copy_value) to the tree of
//! values that a document stands for.

use vstd::prelude::*;
use vstd::utf8::valid_utf8;

use crate::grammar::{
    is_space, lemma_next_token, lemma_text, lemma_value, next_token, number, starts_value, text,
    value, value_token, word_of, Fault, BACKSLASH, BRACE_CLOSE, BRACE_OPEN, BRACKET_CLOSE,
    BRACKET_OPEN, COLON, QUOTE,
};
use crate::number::lemma_number_bytes;
use crate::parser::{State, Token};
use crate::splice::{at_item, behind, is_value, left, lemma_piece, piece, read_item, stands};
use crate::string::lemma_chunk;
use crate::tree::{ends, lemma_same_value, same, tree, Item, Json};
use crate::util::{rest_copy, scalar_copy, value_copy};
use crate::writer::{
    after_key, after_value, close_text, compact, escape_byte, escaped, inside, key_text, outside,
    separator, Place, Pos,
};
use crate::written::{
    law_bool, law_null, law_string, lemma_array_whole, lemma_object_whole, lemma_reads_element,
    lemma_reads_end, lemma_reads_member, lemma_reads_object_end, lemma_stands_parts, lemma_writes,
    member_text, written_at,
};

verus! {

/// What is left of a container, as it is copied.
#[verifier::opaque]
pub(crate) open(crate) spec fn rest_text(s: Seq<u8>, i: int, state: State, room: int, p: Place) -> (Seq<u8>, Place) {
    rest_copy(s, i, state, room, p)
}

/// A value, as it is copied.
#[verifier::opaque]
pub(crate) open(crate) spec fn value_text(s: Seq<u8>, i: int, room: int, p: Place) -> (Seq<u8>, Place) {
    value_copy(s, i, room, p)
}

/// The text of the next item of a container, in front of what is left of it.
pub(crate) proof fn lemma_copy_piece(s: Seq<u8>, i: int, state: State, room: int, p: Place)
    requires
        left(s, i, state, room).0 is Ok,
        at_item(state),
    ensures
        match piece(s, i, state, room) {
            Some(pc) => if behind(state) == State::ArrComma {
                let v = value_text(s, pc.at, room, p);
                rest_text(s, i, state, room, p) == (
                    v.0 + rest_text(s, pc.end, State::ArrComma, room, v.1).0,
                    rest_text(s, pc.end, State::ArrComma, room, v.1).1,
                )
            } else {
                let v = value_text(s, pc.at, room, after_key(p));
                rest_text(s, i, state, room, p) == (
                    key_text(p, pc.name) + (v.0 + rest_text(
                        s,
                        pc.end,
                        State::ObjComma,
                        room,
                        v.1,
                    ).0),
                    rest_text(s, pc.end, State::ObjComma, room, v.1).1,
                )
            },
            None => rest_text(s, i, state, room, p) == (
                close_text(
                    p,
                    if behind(state) == State::ArrComma {
                        BRACKET_CLOSE
                    } else {
                        BRACE_CLOSE
                    },
                ),
                outside(p),
            ),
        },
        piece(s, i, state, room) matches Some(pc) ==> {
            &&& 0 <= i <= pc.at < pc.end < s.len()
            &&& value(s, pc.at, room) == Ok::<int, Fault>(pc.end)
            &&& valid_utf8(pc.name)
        },
{
    reveal(rest_text);
    reveal(value_text);
    lemma_piece(s, i, state, room);
    reveal(piece);
    reveal(left);
    let m = next_token(s, i, state, false)->Ok_0;
    lemma_next_token(s, i, state, false);
    if m.token == Token::Key {
        let (k, name) = text(s, m.at + 1)->Ok_0;
        lemma_text(s, m.at + 1);
        lemma_chunk(s, m.at + 1, None);
        lemma_next_token(s, k, State::ObjColon, false);
        let v = next_token(s, k, State::ObjColon, false)->Ok_0;
        assert(v.token != Token::Key);
        lemma_value(s, v.at, room);
        let r = rest_copy(s, k, State::ObjColon, room, after_key(p));
        assert(rest_copy(s, i, state, room, p) == (key_text(p, name) + r.0, r.1));
    } else if starts_value(m.token) {
        lemma_value(s, m.at, room);
        assert(valid_utf8(Seq::<u8>::empty()));
    }
}

/// What was written at a place, in its parts.
proof fn lemma_written_parts(j: (Seq<u8>, Place), p: Place, room: int, t: Json) -> (w: Seq<u8>)
    requires
        written_at(j, p, room, t),
    ensures
        j == (separator(p) + w, after_value(p)),
        is_value(w, room),
        tree(w, 0, room) == t,
{
    let w = j.0.skip(separator(p).len() as int);
    assert(j.0 =~= separator(p) + w);
    w
}

/// A value without parts is copied as itself.
#[verifier::rlimit(40)]
proof fn lemma_copy_scalar(s: Seq<u8>, i: int, room: int, p: Place)
    requires
        0 <= i < s.len(),
        value(s, i, room) is Ok,
        value_token(s[i]) != Some(Token::BeginObject),
        value_token(s[i]) != Some(Token::BeginArray),
    ensures
        written_at(scalar_copy(s, i, p), p, room, tree(s, i, room)),
{
    let k = value(s, i, room)->Ok_0;
    lemma_value(s, i, room);
    match value_token(s[i]) {
        Some(Token::String) => {
            let b = text(s, i + 1)->Ok_0.1;
            lemma_chunk(s, i + 1, None);
            law_string(b, room);
            let w = seq![QUOTE] + escaped(b) + seq![QUOTE];
            lemma_writes(p, w, room, Json::Text(b));
            assert(scalar_copy(s, i, p).0 =~= separator(p) + w);
        },
        Some(Token::Number) => {
            let w = s.subrange(i, k);
            assert forall|x: int| i <= x < k implies #[trigger] s[x] == w[x - i] by {
            }
            assert(same(s, w, -i, i, k));
            lemma_same_value(s, w, -i, i, room);
            lemma_writes(p, w, room, tree(s, i, room));
        },
        _ => {
            if s[i] == 0x6e {
                law_null(room);
                lemma_writes(p, word_of(s[i]), room, Json::Null);
            } else {
                law_bool(s[i] == 0x74, room);
                lemma_writes(p, word_of(s[i]), room, Json::Bool(s[i] == 0x74));
            }
        },
    }
}

/// The text of an item, in its parts.
proof fn lemma_item_text(p: Place, array: bool, name: Seq<u8>, w: Seq<u8>, more: Seq<u8>)
    ensures
        array ==> separator(p) + w + more == (separator(p) + w) + more,
        !array ==> key_text(p, name) + ((separator(after_key(p)) + w) + more) == separator(p)
            + member_text(p, name, w) + more,
{
    assert(key_text(p, name) + ((separator(after_key(p)) + w) + more) =~= separator(p)
        + member_text(p, name, w) + more);
}

/// What is left of a container is copied with its items.
proof fn lemma_copy_rest(
    s: Seq<u8>,
    i: int,
    state: State,
    room: int,
    p: Place,
    t: Seq<u8>,
    x: int,
)
    requires
        left(s, i, state, room).0 is Ok,
        at_item(state),
        0 <= room,
        0 < p.depth,
        p.depth + room <= u32::MAX,
        p.pos == (if state == behind(state) {
            Pos::AfterValue
        } else {
            Pos::Start
        }),
        stands(t, x, rest_text(s, i, state, room, p).0),
    ensures
        left(t, x, state, room) == (
            Ok::<int, Fault>(x + rest_text(s, i, state, room, p).0.len()),
            left(s, i, state, room).1,
        ),
        rest_text(s, i, state, room, p).1 == outside(p),
        p.pos == Pos::AfterValue ==> ends(t, x),
    decreases s.len() - i, 1int,
{
    let all = rest_text(s, i, state, room, p).0;
    lemma_piece(s, i, state, room);
    lemma_copy_piece(s, i, state, room, p);
    match piece(s, i, state, room) {
        None => {
            if behind(state) == State::ArrComma {
                lemma_reads_end(t, x, p, room);
            } else {
                lemma_reads_object_end(t, x, p, room);
            }
        },
        Some(pc) => {
            let array = behind(state) == State::ArrComma;
            let q = if array {
                p
            } else {
                after_key(p)
            };
            lemma_copy_value(s, pc.at, room, q);
            let w = lemma_written_parts(
                value_text(s, pc.at, room, q),
                q,
                room,
                tree(s, pc.at, room),
            );
            let body = if array {
                w
            } else {
                member_text(p, pc.name, w)
            };
            let more = rest_text(s, pc.end, behind(state), room, after_value(p)).0;
            lemma_item_text(p, array, pc.name, w, more);
            assert(all == separator(p) + body + more);
            let y = x + separator(p).len() + body.len();
            lemma_stands_parts(t, x, separator(p) + body, more);
            lemma_stands_parts(t, x, separator(p), body);
            lemma_copy_rest(s, pc.end, behind(state), room, after_value(p), t, y);
            let end = y + more.len();
            let its = left(s, pc.end, behind(state), room).1;
            let first = p.pos == Pos::Start;
            if array {
                lemma_reads_element(t, x, p, first, w, room, end, its);
            } else {
                lemma_reads_member(t, x, p, first, pc.name, w, room, end, its);
            }
            assert(read_item(s, pc, room) == Item {
                name: pc.name,
                value: tree(s, pc.at, room),
            }) by {
                reveal(read_item);
            }
        },
    }
}

/// A value is copied as itself.
proof fn lemma_copy_value(s: Seq<u8>, i: int, room: int, p: Place)
    requires
        0 <= i,
        0 <= room,
        value(s, i, room) is Ok,
        p.depth + room <= u32::MAX,
    ensures
        written_at(value_text(s, i, room, p), p, room, tree(s, i, room)),
    decreases s.len() - i, 0int,
{
    reveal(value_text);
    reveal(rest_text);
    let b = s[i];
    if value_token(b) == Some(Token::BeginObject) || value_token(b) == Some(Token::BeginArray) {
        let state = if b == BRACE_OPEN {
            State::ObjFirst
        } else {
            State::ArrFirst
        };
        let q = inside(p);
        let r = rest_copy(s, i + 1, state, room - 1, q);
        let w = seq![b] + r.0;
        assert(w.subrange(1, 1 + r.0.len() as int) =~= r.0);
        assert(left(s, i + 1, state, room - 1).0 == value(s, i, room) && tree(s, i, room) == (
        if b == BRACE_OPEN {
            Json::Object(left(s, i + 1, state, room - 1).1)
        } else {
            Json::Array(left(s, i + 1, state, room - 1).1)
        })) by {
            reveal(left);
        }
        lemma_copy_rest(s, i + 1, state, room - 1, q, w, 1);
        if b == BRACE_OPEN {
            lemma_object_whole(w, room - 1, left(s, i + 1, state, room - 1).1);
        } else {
            lemma_array_whole(w, room - 1, left(s, i + 1, state, room - 1).1);
        }
        lemma_writes(p, w, room, tree(s, i, room));
        assert(value_text(s, i, room, p).0 =~= separator(p) + w);
        assert(outside(q) == after_value(p));
    } else {
        lemma_copy_scalar(s, i, room, p);
    }
}

/// Copying a value keeps what it means: whether it is minified or indented, what
/// [`copy_value`](crate::copy_value) writes for a value is JSON for the same value.
pub proof fn law_copy_value(s: Seq<u8>, i: int, room: int, p: Place)
    requires
        0 <= i,
        0 <= room,
        value(s, i, room) is Ok,
        p.depth + room <= u32::MAX,
    ensures
        written_at(value_copy(s, i, room, p), p, room, tree(s, i, room)),
{
    lemma_copy_value(s, i, room, p);
    reveal(value_text);
}

/// A value without parts is copied as what it means.
proof fn lemma_scalar_means(s: Seq<u8>, i: int, r: int, t: Seq<u8>, j: int, u: int, p: Place)
    requires
        0 <= i,
        0 <= j,
        value(s, i, r) is Ok,
        value(t, j, u) is Ok,
        tree(s, i, r) == tree(t, j, u),
        !(tree(s, i, r) is Array),
        !(tree(s, i, r) is Object),
    ensures
        scalar_copy(s, i, p) == scalar_copy(t, j, p),
{
    lemma_value(s, i, r);
    lemma_value(t, j, u);
}

/// Values that mean the same are copied as the same text.
proof fn lemma_copy_means(s: Seq<u8>, i: int, r: int, t: Seq<u8>, j: int, u: int, p: Place)
    requires
        0 <= i,
        0 <= j,
        value(s, i, r) is Ok,
        value(t, j, u) is Ok,
        tree(s, i, r) == tree(t, j, u),
    ensures
        value_text(s, i, r, p) == value_text(t, j, u, p),
    decreases s.len() - i, 0int,
{
    lemma_value(s, i, r);
    lemma_value(t, j, u);
    reveal(value_text);
    if tree(s, i, r) is Array || tree(s, i, r) is Object {
        let state = if s[i] == BRACE_OPEN {
            State::ObjFirst
        } else {
            State::ArrFirst
        };
        reveal(left);
        lemma_rest_means(s, i + 1, state, r - 1, t, j + 1, state, u - 1, inside(p));
        reveal(rest_text);
    } else {
        lemma_scalar_means(s, i, r, t, j, u, p);
    }
}

/// What is left of containers that hold the same is copied as the same text.
#[verifier::rlimit(40)]
proof fn lemma_rest_means(
    s: Seq<u8>,
    i: int,
    state: State,
    r: int,
    t: Seq<u8>,
    j: int,
    other: State,
    u: int,
    p: Place,
)
    requires
        left(s, i, state, r).0 is Ok,
        left(t, j, other, u).0 is Ok,
        at_item(state),
        at_item(other),
        behind(state) == behind(other),
        left(s, i, state, r).1 == left(t, j, other, u).1,
    ensures
        rest_text(s, i, state, r, p) == rest_text(t, j, other, u, p),
    decreases s.len() - i, 1int,
{
    lemma_piece(s, i, state, r);
    lemma_piece(t, j, other, u);
    lemma_copy_piece(s, i, state, r, p);
    lemma_copy_piece(t, j, other, u, p);
    let its = left(s, i, state, r).1;
    match piece(s, i, state, r) {
        Some(a) => {
            assert(its.len() > 0);
            let b = piece(t, j, other, u)->Some_0;
            assert(its[0] == read_item(s, a, r));
            assert(its[0] == read_item(t, b, u));
            assert(a.name == b.name && tree(s, a.at, r) == tree(t, b.at, u)) by {
                reveal(read_item);
            }
            assert(its.skip(1) =~= left(s, a.end, behind(state), r).1);
            assert(its.skip(1) =~= left(t, b.end, behind(other), u).1);
            let q = if behind(state) == State::ArrComma {
                p
            } else {
                after_key(p)
            };
            lemma_copy_means(s, a.at, r, t, b.at, u, q);
            let next = value_text(s, a.at, r, q).1;
            lemma_rest_means(s, a.end, behind(state), r, t, b.end, behind(other), u, next);
        },
        None => {
            if piece(t, j, other, u) is Some {
                assert(its.len() > 0);
            }
        },
    }
}

/// Copying what was copied gives the same bytes as copying it in the first place: minifying is
/// done once and for all, and undoes indenting.
pub proof fn law_copy_again(s: Seq<u8>, i: int, room: int, p: Place, q: Place)
    requires
        0 <= i,
        0 <= room,
        value(s, i, room) is Ok,
        p.depth + room <= u32::MAX,
    ensures
        ({
            let w = value_copy(s, i, room, p).0.skip(separator(p).len() as int);
            is_value(w, room) && value_copy(w, 0, room, q) == value_copy(s, i, room, q)
        }),
{
    law_copy_value(s, i, room, p);
    let w = value_copy(s, i, room, p).0.skip(separator(p).len() as int);
    lemma_copy_means(w, 0, room, s, i, room, q);
    reveal(value_text);
}

/// Where in JSON text a byte stands.
pub enum Scan {
    /// Outside of strings.
    Outside,
    /// In a string.
    Quoted,
    /// Behind a backslash in a string.
    Escaped,
}

/// Reads a byte on: nowhere, if it is white space outside of strings.
pub open spec fn read_on(at: Scan, b: u8) -> Option<Scan> {
    match at {
        Scan::Outside => if is_space(b) {
            None
        } else if b == QUOTE {
            Some(Scan::Quoted)
        } else {
            Some(Scan::Outside)
        },
        Scan::Quoted => if b == BACKSLASH {
            Some(Scan::Escaped)
        } else if b == QUOTE {
            Some(Scan::Outside)
        } else {
            Some(Scan::Quoted)
        },
        Scan::Escaped => Some(Scan::Quoted),
    }
}

/// Where reading `w` leads, if it holds no white space outside of strings.
pub open spec fn read_all(w: Seq<u8>, at: Scan) -> Option<Scan>
    decreases w.len(),
{
    if w.len() == 0 {
        Some(at)
    } else {
        match read_on(at, w[0]) {
            None => None,
            Some(next) => read_all(w.skip(1), next),
        }
    }
}

/// Whether `w` holds no white space outside of strings, and each string in it is closed.
pub open spec fn tight(w: Seq<u8>) -> bool {
    read_all(w, Scan::Outside) == Some(Scan::Outside)
}

proof fn lemma_read_both(a: Seq<u8>, b: Seq<u8>, at: Scan)
    ensures
        read_all(a + b, at) == (match read_all(a, at) {
            None => None,
            Some(x) => read_all(b, x),
        }),
    decreases a.len(),
{
    if a.len() == 0 {
        assert(a + b =~= b);
    } else {
        assert((a + b).skip(1) =~= a.skip(1) + b);
        assert((a + b)[0] == a[0]);
        match read_on(at, a[0]) {
            None => {},
            Some(next) => lemma_read_both(a.skip(1), b, next),
        }
    }
}

proof fn lemma_tight_both(a: Seq<u8>, b: Seq<u8>)
    requires
        tight(a),
        tight(b),
    ensures
        tight(a + b),
{
    lemma_read_both(a, b, Scan::Outside);
}

/// Bytes that are neither white space nor quotes.
proof fn lemma_tight_plain(w: Seq<u8>)
    requires
        forall|k: int| 0 <= k < w.len() ==> !is_space(#[trigger] w[k]) && w[k] != QUOTE,
    ensures
        tight(w),
    decreases w.len(),
{
    if w.len() > 0 {
        let rest = w.skip(1);
        assert forall|k: int| 0 <= k < rest.len() implies !is_space(#[trigger] rest[k]) && rest[k]
            != QUOTE by {
            assert(rest[k] == w[k + 1]);
        }
        assert(!is_space(w[0]));
        lemma_tight_plain(rest);
    }
}

/// Text that is escaped stays in its string.
proof fn lemma_read_escaped(b: Seq<u8>)
    ensures
        read_all(escaped(b), Scan::Quoted) == Some(Scan::Quoted),
    decreases b.len(),
{
    if b.len() > 0 {
        let w = escape_byte(b.last());
        lemma_read_escaped(b.drop_last());
        lemma_read_both(escaped(b.drop_last()), w, Scan::Quoted);
        reveal_with_fuel(read_all, 7);
        assert(read_all(w, Scan::Quoted) == Some(Scan::Quoted)) by {
            let w1 = w.skip(1);
            if w.len() > 1 {
                assert(w1[0] == w[1]);
            }
            if w.len() == 6 {
                assert(w1.skip(1)[0] == w[2]);
                assert(w1.skip(1).skip(1)[0] == w[3]);
                assert(w1.skip(1).skip(1).skip(1)[0] == w[4]);
                assert(w1.skip(1).skip(1).skip(1).skip(1)[0] == w[5]);
            }
        }
    }
}

/// A string.
proof fn lemma_tight_string(b: Seq<u8>)
    ensures
        tight(seq![QUOTE] + escaped(b) + seq![QUOTE]),
{
    let q = seq![QUOTE];
    lemma_read_escaped(b);
    reveal_with_fuel(read_all, 2);
    assert(read_all(q, Scan::Outside) == Some(Scan::Quoted));
    assert(read_all(q, Scan::Quoted) == Some(Scan::Outside));
    lemma_read_both(q, escaped(b), Scan::Outside);
    lemma_read_both(q + escaped(b), q, Scan::Outside);
}

/// What precedes a value inside of a container in compact JSON.
proof fn lemma_tight_separator(p: Place)
    requires
        p.indent == 0,
        0 < p.depth || p.pos != Pos::AfterValue,
    ensures
        tight(separator(p)),
{
    lemma_tight_plain(separator(p));
}

/// A value without parts.
proof fn lemma_tight_scalar(s: Seq<u8>, i: int, room: int, p: Place)
    requires
        0 <= i < s.len(),
        value(s, i, room) is Ok,
        value_token(s[i]) != Some(Token::BeginObject),
        value_token(s[i]) != Some(Token::BeginArray),
        tight(separator(p)),
    ensures
        tight(scalar_copy(s, i, p).0),
{
    lemma_value(s, i, room);
    match value_token(s[i]) {
        Some(Token::String) => {
            let b = text(s, i + 1)->Ok_0.1;
            let w = seq![QUOTE] + escaped(b) + seq![QUOTE];
            lemma_tight_string(b);
            lemma_tight_both(separator(p), w);
            assert(separator(p) + seq![QUOTE] + escaped(b) + seq![QUOTE] =~= separator(p) + w);
        },
        Some(Token::Number) => {
            let w = s.subrange(i, number(s, i)->Ok_0);
            lemma_number_bytes(s, i);
            lemma_tight_plain(w);
            lemma_tight_both(separator(p), w);
        },
        _ => {
            lemma_tight_plain(word_of(s[i]));
            lemma_tight_both(separator(p), word_of(s[i]));
        },
    }
}

/// A value in compact JSON.
proof fn lemma_tight_value(s: Seq<u8>, i: int, room: int, p: Place)
    requires
        0 <= i,
        0 <= room,
        value(s, i, room) is Ok,
        p.indent == 0,
        p.depth + room <= u32::MAX,
        tight(separator(p)),
    ensures
        tight(value_text(s, i, room, p).0),
    decreases s.len() - i, 0int,
{
    lemma_value(s, i, room);
    reveal(value_text);
    let b = s[i];
    if b == BRACE_OPEN || b == BRACKET_OPEN {
        let state = if b == BRACE_OPEN {
            State::ObjFirst
        } else {
            State::ArrFirst
        };
        reveal(left);
        lemma_tight_rest(s, i + 1, state, room - 1, inside(p));
        reveal(rest_text);
        lemma_tight_plain(seq![b]);
        lemma_tight_both(separator(p), seq![b]);
        lemma_tight_both(separator(p) + seq![b], rest_copy(s, i + 1, state, room - 1, inside(p)).0);
    } else {
        lemma_tight_scalar(s, i, room, p);
    }
}

/// What is left of a container in compact JSON.
proof fn lemma_tight_rest(s: Seq<u8>, i: int, state: State, room: int, p: Place)
    requires
        left(s, i, state, room).0 is Ok,
        at_item(state),
        0 <= room,
        p.indent == 0,
        0 < p.depth,
        p.depth + room <= u32::MAX,
    ensures
        tight(rest_text(s, i, state, room, p).0),
    decreases s.len() - i, 1int,
{
    lemma_piece(s, i, state, room);
    lemma_copy_piece(s, i, state, room, p);
    lemma_tight_separator(p);
    match piece(s, i, state, room) {
        Some(a) => {
            if behind(state) == State::ArrComma {
                lemma_tight_value(s, a.at, room, p);
                lemma_copy_value(s, a.at, room, p);
                let v = value_text(s, a.at, room, p);
                lemma_tight_rest(s, a.end, State::ArrComma, room, v.1);
                lemma_tight_both(v.0, rest_text(s, a.end, State::ArrComma, room, v.1).0);
            } else {
                let q = after_key(p);
                lemma_tight_plain(separator(q));
                lemma_tight_value(s, a.at, room, q);
                lemma_copy_value(s, a.at, room, q);
                let v = value_text(s, a.at, room, q);
                let more = rest_text(s, a.end, State::ObjComma, room, v.1).0;
                lemma_tight_rest(s, a.end, State::ObjComma, room, v.1);
                lemma_tight_both(v.0, more);
                let w = seq![QUOTE] + escaped(a.name) + seq![QUOTE];
                lemma_tight_string(a.name);
                lemma_tight_plain(seq![COLON]);
                lemma_tight_both(w, seq![COLON]);
                lemma_tight_both(separator(p), w + seq![COLON]);
                assert(key_text(p, a.name) =~= separator(p) + (w + seq![COLON]));
                lemma_tight_both(key_text(p, a.name), v.0 + more);
            }
        },
        None => {
            let b = if behind(state) == State::ArrComma {
                BRACKET_CLOSE
            } else {
                BRACE_CLOSE
            };
            lemma_tight_plain(close_text(p, b));
        },
    }
}

/// A compact copy holds no white space outside of strings.
pub proof fn law_copy_compact(s: Seq<u8>, i: int, room: int)
    requires
        0 <= i,
        0 <= room <= u32::MAX,
        value(s, i, room) is Ok,
    ensures
        tight(value_copy(s, i, room, compact()).0),
{
    lemma_tight_plain(separator(compact()));
    lemma_tight_value(s, i, room, compact());
    reveal(value_text);
}

} // verus!
