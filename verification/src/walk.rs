//! Callback-driven traversal with JSON Pointer paths.

use core::str::FromStr;
use vstd::prelude::*;
use vstd::slice::slice_subrange;
use vstd::string::StringSliceAdditionalSpecFns;
use vstd::utf8::{pop_first_scalar, take_first_scalar, valid_utf8, valid_utf8_concat};

use crate::cursor::{
    coherent, drain, enter, leave, lemma_drain_look, lemma_look, lemma_step, lemma_through, look,
    open_string, past_string, past_value, read_bool, read_num, read_number, read_str, refuse, room,
    settle, span, through, unwind, Cursor, Doc, Outcome,
};
use crate::error::{Error, ErrorKind};
use crate::grammar::{
    is_digit, lemma_next_token, lemma_text, lemma_value, next_token, rest, starts_value, text,
    value, value_end, value_token, Fault, SLASH, TILDE,
};
use crate::io::{copy_to, Feed, Source};
use crate::number::{decimal, fmt_usize, lemma_ascii_utf8};
use crate::parser::{bytes_of, from_text, positions_of, Parser, Res, State, StrReader, Token};
use crate::path::{digits_value, is_index, lemma_decimal_index, unescape};
use crate::string::{from_utf8, lemma_pour, Sink};
use crate::Span;

verus! {

/// What [`Parser::walk`] should do after a callback.
#[derive(Debug, Clone, Copy, PartialEq, Eq, Structural)]
pub enum Flow {
    /// Keep going (enter objects and arrays).
    Continue,
    /// Do not enter this object or array (it is skipped, without further callbacks).
    Skip,
    /// Stop the walk; the parser stays where it is.
    Stop,
}

/// A name as a JSON Pointer reference token: `~0` for `~`, `~1` for `/`.
pub open spec fn pointer_escape(s: Seq<u8>) -> Seq<u8>
    decreases s.len(),
{
    if s.len() == 0 {
        Seq::empty()
    } else {
        pointer_escape(s.drop_last()) + pointer_byte(s.last())
    }
}

/// One byte of a JSON Pointer reference token.
pub open spec fn pointer_byte(b: u8) -> Seq<u8> {
    if b == TILDE {
        seq![TILDE, 0x30]
    } else if b == SLASH {
        seq![TILDE, 0x31]
    } else {
        seq![b]
    }
}

/// `path`, extended by the reference token `token`.
pub open spec fn child(path: Seq<u8>, token: Seq<u8>) -> Seq<u8> {
    path + seq![SLASH] + token
}

/// A call that a walk makes: with the JSON Pointer, kind and position of a value, or of the
/// end of a container.
pub struct Visit {
    pub path: Seq<u8>,
    pub token: Token,
    pub at: int,
}

/// A container that a walk is in: its path, the index of its next element, and the reference
/// token of its last key.
pub struct Level {
    pub path: Seq<u8>,
    pub n: nat,
    pub key: Seq<u8>,
}

/// A container at `path` that was just entered.
pub open spec fn fresh(path: Seq<u8>) -> Level {
    Level { path, n: 0, key: Seq::empty() }
}

/// The level, past one more element or member.
pub open spec fn bump(l: Level) -> Level {
    Level { n: l.n + 1, ..l }
}

/// The path of the value that comes next in a container.
pub open spec fn next_path(l: Level, state: State) -> Seq<u8> {
    child(
        l.path,
        if state == State::ObjValue {
            l.key
        } else {
            decimal(l.n)
        },
    )
}

pub open spec fn is_container(t: Token) -> bool {
    t == Token::BeginObject || t == Token::BeginArray
}

/// The calls for the value at `i`, whose path is `path`: one for the value, and, if it is a
/// container that is entered, those for what it holds and one for its end. The containers
/// at the positions `over` are not entered.
pub open spec fn value_visits(
    s: Seq<u8>,
    i: int,
    room: int,
    path: Seq<u8>,
    over: Set<int>,
) -> Seq<Visit>
    decreases s.len() - i, 0int,
{
    if !(0 <= i < s.len()) {
        Seq::empty()
    } else {
        match value_token(s[i]) {
            None => Seq::empty(),
            Some(t) => seq![Visit { path, token: t, at: i }] + if is_container(t)
                && !over.contains(i) && room > 0 {
                rest_visits(
                    s,
                    i + 1,
                    if t == Token::BeginObject {
                        State::ObjFirst
                    } else {
                        State::ArrFirst
                    },
                    room - 1,
                    fresh(path),
                    over,
                )
            } else {
                Seq::empty()
            },
        }
    }
}

/// The calls for the rest of the container `l`, from `i` on.
pub open spec fn rest_visits(
    s: Seq<u8>,
    i: int,
    state: State,
    room: int,
    l: Level,
    over: Set<int>,
) -> Seq<Visit>
    decreases s.len() - i, 1int,
{
    match if 0 <= i <= s.len() {
        next_token(s, i, state, false)
    } else {
        Err(Fault { kind: ErrorKind::UnexpectedEof, at: i })
    } {
        Err(_) => Seq::empty(),
        Ok(m) => {
            proof {
                lemma_next_token(s, i, state, false);
            }
            if m.token == Token::EndObject || m.token == Token::EndArray {
                seq![Visit { path: l.path, token: m.token, at: m.at }]
            } else if m.token == Token::Eof {
                Seq::empty()
            } else if m.token == Token::Key {
                match text(s, m.at + 1) {
                    Err(_) => Seq::empty(),
                    Ok((k, name)) => {
                        proof {
                            lemma_text(s, m.at + 1);
                        }
                        rest_visits(
                            s,
                            k,
                            State::ObjColon,
                            room,
                            Level { key: pointer_escape(name), ..l },
                            over,
                        )
                    },
                }
            } else {
                let v = value_visits(s, m.at, room, next_path(l, m.state), over);
                match value(s, m.at, room) {
                    Err(_) => v,
                    // A value has at least one byte, so the end always lies ahead.
                    Ok(k) => if m.at < k <= s.len() {
                        v + rest_visits(s, k, value_end(m.state), room, bump(l), over)
                    } else {
                        v
                    },
                }
            }
        },
    }
}

/// The calls for the rest of the open containers `levels`, until only `depth` are open.
pub open spec fn drain_visits(
    d: Doc,
    c: Cursor,
    depth: int,
    levels: Seq<Level>,
    over: Set<int>,
) -> Seq<Visit>
    decreases c.stack.len(),
{
    if c.stack.len() <= depth || c.stack.len() == 0 {
        Seq::empty()
    } else {
        let v = rest_visits(d.bytes, c.at, c.state, room(d, c), levels.last(), over);
        match rest(d.bytes, c.at, c.state, room(d, c)) {
            Err(_) => v,
            Ok(k) => v + drain_visits(d, leave(c, k), depth, levels.drop_last(), over),
        }
    }
}

/// The calls for what is left of the value, or of the open containers, that `c` stands in.
pub open spec fn through_visits(
    d: Doc,
    c: Cursor,
    depth: int,
    levels: Seq<Level>,
    over: Set<int>,
) -> Seq<Visit> {
    if c.stack.len() == depth {
        value_visits(d.bytes, c.at, room(d, c), Seq::empty(), over)
    } else {
        drain_visits(d, c, depth, levels, over)
    }
}

/// `levels`, with the innermost past one more element or member.
pub open spec fn bumped(levels: Seq<Level>) -> Seq<Level> {
    levels.update(levels.len() - 1, bump(levels.last()))
}

/// Skipping white space and separators leaves the same calls to be made.
pub proof fn lemma_visits_look(
    d: Doc,
    c: Cursor,
    depth: int,
    levels: Seq<Level>,
    over: Set<int>,
)
    requires
        coherent(d, c),
        !(c.state is InStr),
        0 <= depth < c.stack.len(),
        look(d, c) is Ok,
    ensures
        drain_visits(d, c, depth, levels, over) == drain_visits(
            d,
            look(d, c)->Ok_0.1,
            depth,
            levels,
            over,
        ),
{
    lemma_look(d, c);
    lemma_next_token(d.bytes, c.at, c.state, d.multi);
    let (t, c1) = look(d, c)->Ok_0;
    let l = levels.last();
    let k = rest(d.bytes, c.at, c.state, room(d, c));
    assert(k == rest(d.bytes, c1.at, c1.state, room(d, c1)));
    assert(rest_visits(d.bytes, c.at, c.state, room(d, c), l, over) == rest_visits(
        d.bytes,
        c1.at,
        c1.state,
        room(d, c1),
        l,
        over,
    ));
    if k is Ok {
        assert(leave(c, k->Ok_0) == leave(c1, k->Ok_0));
    }
}

/// The calls for a value come before those for what follows it.
pub proof fn lemma_visits_value(
    d: Doc,
    c: Cursor,
    depth: int,
    levels: Seq<Level>,
    over: Set<int>,
)
    requires
        coherent(d, c),
        0 <= depth < c.stack.len(),
        levels.len() > 0,
        look(d, c) matches Ok((t, c1)) && c1 == c && starts_value(t),
    ensures
        ({
            let v = value_visits(
                d.bytes,
                c.at,
                room(d, c),
                next_path(levels.last(), c.state),
                over,
            );
            drain_visits(d, c, depth, levels, over) == (match value(d.bytes, c.at, room(d, c)) {
                Err(_) => v,
                Ok(k) => v + drain_visits(d, past_value(c, k), depth, bumped(levels), over),
            })
        }),
{
    lemma_look(d, c);
    lemma_value(d.bytes, c.at, room(d, c));
    let l = levels.last();
    let v = value_visits(d.bytes, c.at, room(d, c), next_path(l, c.state), over);
    let r = rest(d.bytes, c.at, c.state, room(d, c));
    let rv = rest_visits(d.bytes, c.at, c.state, room(d, c), l, over);
    match value(d.bytes, c.at, room(d, c)) {
        Err(_) => {
            assert(rv == v);
        },
        Ok(k) => {
            let c1 = past_value(c, k);
            let more = rest_visits(d.bytes, c1.at, c1.state, room(d, c1), bump(l), over);
            assert(rv == v + more);
            assert(r == rest(d.bytes, c1.at, c1.state, room(d, c1)));
            assert(bumped(levels).last() == bump(l));
            if r is Ok {
                assert(leave(c, r->Ok_0) == leave(c1, r->Ok_0));
                assert(bumped(levels).drop_last() =~= levels.drop_last());
                let q = drain_visits(d, leave(c1, r->Ok_0), depth, levels.drop_last(), over);
                assert(v + more + q =~= v + (more + q));
            }
        },
    }
}

/// Entering a container leaves the calls for what it holds, and for what follows it.
pub proof fn lemma_visits_enter(
    d: Doc,
    c: Cursor,
    t: Token,
    depth: int,
    levels: Seq<Level>,
    over: Set<int>,
)
    requires
        coherent(d, c),
        0 <= depth <= c.stack.len(),
        c.stack.len() > depth ==> levels.len() > 0,
        c.stack.len() == depth ==> levels.len() == 0,
        look(d, c) == Ok::<(Token, Cursor), Fault>((t, c)),
        is_container(t),
        room(d, c) > 0,
        !over.contains(c.at),
    ensures
        ({
            let path = if c.stack.len() == depth {
                Seq::empty()
            } else {
                next_path(levels.last(), c.state)
            };
            let outer = if c.stack.len() == depth {
                levels
            } else {
                bumped(levels)
            };
            through_visits(d, c, depth, levels, over) == seq![Visit { path, token: t, at: c.at }]
                + drain_visits(
                d,
                enter(d, c, t == Token::BeginObject)->Done_1,
                depth,
                outer.push(fresh(path)),
                over,
            )
        }),
{
    lemma_look(d, c);
    let s = d.bytes;
    let c1 = enter(d, c, t == Token::BeginObject)->Done_1;
    assert(c1.stack.drop_last() =~= c.stack);
    let path = if c.stack.len() == depth {
        Seq::empty()
    } else {
        next_path(levels.last(), c.state)
    };
    let outer = if c.stack.len() == depth {
        levels
    } else {
        bumped(levels)
    };
    let all = outer.push(fresh(path));
    assert(all.last() == fresh(path));
    assert(all.drop_last() =~= outer);
    let head = seq![Visit { path, token: t, at: c.at }];
    let inner = value(s, c.at, room(d, c));
    assert(inner == rest(s, c1.at, c1.state, room(d, c1)));
    let rv = rest_visits(s, c1.at, c1.state, room(d, c1), fresh(path), over);
    assert(value_visits(s, c.at, room(d, c), path, over) == head + rv);
    if c.stack.len() > depth {
        lemma_visits_value(d, c, depth, levels, over);
    }
    if inner is Ok {
        let k = inner->Ok_0;
        assert(leave(c1, k) == past_value(c, k));
        let q = drain_visits(d, past_value(c, k), depth, outer, over);
        assert(head + rv + q =~= head + (rv + q));
        if c.stack.len() == depth {
            assert(head + rv + Seq::<Visit>::empty() =~= head + rv);
        }
    }
}

/// Passing over a value leaves the calls for what follows it.
pub proof fn lemma_visits_over(
    d: Doc,
    c: Cursor,
    t: Token,
    depth: int,
    levels: Seq<Level>,
    over: Set<int>,
)
    requires
        coherent(d, c),
        0 <= depth <= c.stack.len(),
        c.stack.len() > depth ==> levels.len() > 0,
        look(d, c) == Ok::<(Token, Cursor), Fault>((t, c)),
        starts_value(t),
        is_container(t) ==> over.contains(c.at),
    ensures
        ({
            let path = if c.stack.len() == depth {
                Seq::empty()
            } else {
                next_path(levels.last(), c.state)
            };
            let head = seq![Visit { path, token: t, at: c.at }];
            through_visits(d, c, depth, levels, over) == (match value(d.bytes, c.at, room(d, c)) {
                Err(_) => head,
                Ok(k) => head + drain_visits(
                    d,
                    past_value(c, k),
                    depth,
                    if c.stack.len() == depth {
                        levels
                    } else {
                        bumped(levels)
                    },
                    over,
                ),
            })
        }),
{
    lemma_look(d, c);
    let path = if c.stack.len() == depth {
        Seq::empty()
    } else {
        next_path(levels.last(), c.state)
    };
    let head = seq![Visit { path, token: t, at: c.at }];
    assert(head + Seq::<Visit>::empty() =~= head);
    assert(value_visits(d.bytes, c.at, room(d, c), path, over) =~= head);
    if c.stack.len() > depth {
        lemma_visits_value(d, c, depth, levels, over);
    }
}

/// The end of a container leaves the calls for what follows it.
pub proof fn lemma_visits_end(
    d: Doc,
    c: Cursor,
    t: Token,
    depth: int,
    levels: Seq<Level>,
    over: Set<int>,
)
    requires
        coherent(d, c),
        0 <= depth < c.stack.len(),
        look(d, c) == Ok::<(Token, Cursor), Fault>((t, c)),
        t == Token::EndObject || t == Token::EndArray,
    ensures
        drain_visits(d, c, depth, levels, over) == seq![
            Visit { path: levels.last().path, token: t, at: c.at },
        ] + drain_visits(d, leave(c, c.at + 1), depth, levels.drop_last(), over),
{
    lemma_look(d, c);
    assert(rest(d.bytes, c.at, c.state, room(d, c)) == Ok::<int, Fault>(c.at + 1));
}

/// A key leaves the calls for its value, and for what follows it.
pub proof fn lemma_visits_key(
    d: Doc,
    c: Cursor,
    depth: int,
    levels: Seq<Level>,
    over: Set<int>,
)
    requires
        coherent(d, c),
        0 <= depth < c.stack.len(),
        levels.len() > 0,
        look(d, c) == Ok::<(Token, Cursor), Fault>((Token::Key, c)),
        text(d.bytes, c.at + 1) is Ok,
    ensures
        ({
            let (k, name) = text(d.bytes, c.at + 1)->Ok_0;
            drain_visits(d, c, depth, levels, over) == drain_visits(
                d,
                past_string(c, true, k),
                depth,
                keyed(levels, name),
                over,
            )
        }),
{
    lemma_look(d, c);
    lemma_text(d.bytes, c.at + 1);
    let s = d.bytes;
    let (k, name) = text(s, c.at + 1)->Ok_0;
    let c1 = past_string(c, true, k);
    let more = keyed(levels, name);
    assert(more.last() == (Level { key: pointer_escape(name), ..levels.last() }));
    assert(more.drop_last() =~= levels.drop_last());
    let r = rest(s, c.at, c.state, room(d, c));
    assert(r == rest(s, c1.at, c1.state, room(d, c1)));
    assert(rest_visits(s, c.at, c.state, room(d, c), levels.last(), over) == rest_visits(
        s,
        c1.at,
        c1.state,
        room(d, c1),
        more.last(),
        over,
    ));
    if r is Ok {
        assert(leave(c, r->Ok_0) == leave(c1, r->Ok_0));
    }
}

/// `levels`, with the key `name` read in the innermost.
pub open spec fn keyed(levels: Seq<Level>, name: Seq<u8>) -> Seq<Level> {
    levels.update(levels.len() - 1, Level { key: pointer_escape(name), ..levels.last() })
}

/// Whether the paths of all that the value at `i` holds fit in `cap` bytes.
pub open spec fn value_fits(s: Seq<u8>, i: int, room: int, path: Seq<u8>, cap: nat) -> bool
    decreases s.len() - i, 0int,
{
    0 <= i < s.len() && room > 0 ==> match value_token(s[i]) {
        Some(Token::BeginObject) => rest_fits(
            s,
            i + 1,
            State::ObjFirst,
            room - 1,
            fresh(path),
            cap,
        ),
        Some(Token::BeginArray) => rest_fits(
            s,
            i + 1,
            State::ArrFirst,
            room - 1,
            fresh(path),
            cap,
        ),
        _ => true,
    }
}

/// Whether the path of an element fits in `cap` bytes, and its index in memory.
pub open spec fn element_fits(l: Level, cap: nat) -> bool {
    l.n <= usize::MAX && child(l.path, decimal(l.n)).len() <= cap
}

/// Whether the paths of all that is left in the container `l` fit in `cap` bytes.
pub open spec fn rest_fits(s: Seq<u8>, i: int, state: State, room: int, l: Level, cap: nat) -> bool
    decreases s.len() - i, 1int,
{
    match if 0 <= i <= s.len() {
        next_token(s, i, state, false)
    } else {
        Err(Fault { kind: ErrorKind::UnexpectedEof, at: i })
    } {
        Err(_) => true,
        Ok(m) => {
            proof {
                lemma_next_token(s, i, state, false);
            }
            if m.token == Token::Key {
                &&& l.path.len() + 1 <= cap
                &&& match text(s, m.at + 1) {
                    Err(_) => true,
                    Ok((k, name)) => {
                        proof {
                            lemma_text(s, m.at + 1);
                        }
                        &&& child(l.path, pointer_escape(name)).len() <= cap
                        &&& rest_fits(
                            s,
                            k,
                            State::ObjColon,
                            room,
                            Level { key: pointer_escape(name), ..l },
                            cap,
                        )
                    },
                }
            } else if starts_value(m.token) {
                &&& m.state != State::ObjValue ==> element_fits(l, cap)
                &&& value_fits(s, m.at, room, next_path(l, m.state), cap)
                &&& match value(s, m.at, room) {
                    Err(_) => true,
                    Ok(k) => m.at < k <= s.len() ==> rest_fits(
                        s,
                        k,
                        value_end(m.state),
                        room,
                        bump(l),
                        cap,
                    ),
                }
            } else {
                true
            }
        },
    }
}

/// Whether the paths of all that is left in the open containers fit in `cap` bytes.
pub open spec fn drain_fits(d: Doc, c: Cursor, depth: int, levels: Seq<Level>, cap: nat) -> bool
    decreases c.stack.len(),
{
    c.stack.len() > depth && c.stack.len() > 0 ==> {
        &&& rest_fits(d.bytes, c.at, c.state, room(d, c), levels.last(), cap)
        &&& match rest(d.bytes, c.at, c.state, room(d, c)) {
            Err(_) => true,
            Ok(k) => drain_fits(d, leave(c, k), depth, levels.drop_last(), cap),
        }
    }
}

/// Whether the paths of what is left of the value, or of the open containers, that `c`
/// stands in fit in `cap` bytes.
pub open spec fn through_fits(
    d: Doc,
    c: Cursor,
    depth: int,
    levels: Seq<Level>,
    cap: nat,
) -> bool {
    if c.stack.len() == depth {
        value_fits(d.bytes, c.at, room(d, c), Seq::empty(), cap)
    } else {
        drain_fits(d, c, depth, levels, cap)
    }
}

/// Skipping white space and separators leaves the same paths.
proof fn lemma_fits_look(d: Doc, c: Cursor, depth: int, levels: Seq<Level>, cap: nat)
    requires
        coherent(d, c),
        !(c.state is InStr),
        0 <= depth < c.stack.len(),
        look(d, c) is Ok,
        drain_fits(d, c, depth, levels, cap),
    ensures
        drain_fits(d, look(d, c)->Ok_0.1, depth, levels, cap),
{
    lemma_look(d, c);
    lemma_next_token(d.bytes, c.at, c.state, d.multi);
    let (t, c1) = look(d, c)->Ok_0;
    let k = rest(d.bytes, c.at, c.state, room(d, c));
    assert(k == rest(d.bytes, c1.at, c1.state, room(d, c1)));
    if k is Ok {
        assert(leave(c, k->Ok_0) == leave(c1, k->Ok_0));
    }
}

/// The path of an element fits, and so do the paths in it and behind it.
proof fn lemma_fits_value(d: Doc, c: Cursor, depth: int, levels: Seq<Level>, cap: nat)
    requires
        coherent(d, c),
        0 <= depth < c.stack.len(),
        levels.len() > 0,
        look(d, c) matches Ok((t, c1)) && c1 == c && starts_value(t),
        drain_fits(d, c, depth, levels, cap),
    ensures
        c.state != State::ObjValue ==> element_fits(levels.last(), cap),
        value_fits(d.bytes, c.at, room(d, c), next_path(levels.last(), c.state), cap),
        value(d.bytes, c.at, room(d, c)) matches Ok(k) ==> drain_fits(
            d,
            past_value(c, k),
            depth,
            bumped(levels),
            cap,
        ),
{
    lemma_look(d, c);
    lemma_value(d.bytes, c.at, room(d, c));
    let r = rest(d.bytes, c.at, c.state, room(d, c));
    if value(d.bytes, c.at, room(d, c)) is Ok {
        let k = value(d.bytes, c.at, room(d, c))->Ok_0;
        let c1 = past_value(c, k);
        assert(r == rest(d.bytes, c1.at, c1.state, room(d, c1)));
        assert(bumped(levels).last() == bump(levels.last()));
        assert(bumped(levels).drop_last() =~= levels.drop_last());
        if r is Ok {
            assert(leave(c, r->Ok_0) == leave(c1, r->Ok_0));
        }
    }
}

/// Paths that fit still fit when a container is entered.
proof fn lemma_fits_enter(d: Doc, c: Cursor, t: Token, depth: int, levels: Seq<Level>, cap: nat)
    requires
        coherent(d, c),
        0 <= depth <= c.stack.len(),
        c.stack.len() > depth ==> levels.len() > 0,
        c.stack.len() == depth ==> levels.len() == 0,
        look(d, c) == Ok::<(Token, Cursor), Fault>((t, c)),
        is_container(t),
        room(d, c) > 0,
        through_fits(d, c, depth, levels, cap),
    ensures
        ({
            let path = if c.stack.len() == depth {
                Seq::empty()
            } else {
                next_path(levels.last(), c.state)
            };
            let outer = if c.stack.len() == depth {
                levels
            } else {
                bumped(levels)
            };
            drain_fits(
                d,
                enter(d, c, t == Token::BeginObject)->Done_1,
                depth,
                outer.push(fresh(path)),
                cap,
            )
        }),
{
    lemma_look(d, c);
    let s = d.bytes;
    let c1 = enter(d, c, t == Token::BeginObject)->Done_1;
    assert(c1.stack.drop_last() =~= c.stack);
    let path = if c.stack.len() == depth {
        Seq::empty()
    } else {
        next_path(levels.last(), c.state)
    };
    let outer = if c.stack.len() == depth {
        levels
    } else {
        bumped(levels)
    };
    let all = outer.push(fresh(path));
    assert(all.last() == fresh(path));
    assert(all.drop_last() =~= outer);
    let inner = value(s, c.at, room(d, c));
    assert(inner == rest(s, c1.at, c1.state, room(d, c1)));
    if c.stack.len() > depth {
        lemma_fits_value(d, c, depth, levels, cap);
    }
    assert(rest_fits(s, c1.at, c1.state, room(d, c1), fresh(path), cap));
    if inner is Ok {
        assert(leave(c1, inner->Ok_0) == past_value(c, inner->Ok_0));
        assert(drain_fits(d, past_value(c, inner->Ok_0), depth, outer, cap));
    }
}

/// Paths that fit still fit when a container is left.
proof fn lemma_fits_end(d: Doc, c: Cursor, t: Token, depth: int, levels: Seq<Level>, cap: nat)
    requires
        coherent(d, c),
        0 <= depth < c.stack.len(),
        look(d, c) == Ok::<(Token, Cursor), Fault>((t, c)),
        t == Token::EndObject || t == Token::EndArray,
        drain_fits(d, c, depth, levels, cap),
    ensures
        drain_fits(d, leave(c, c.at + 1), depth, levels.drop_last(), cap),
{
    lemma_look(d, c);
    assert(rest(d.bytes, c.at, c.state, room(d, c)) == Ok::<int, Fault>(c.at + 1));
}

/// The path of a member fits, and so do the paths in it and behind it.
proof fn lemma_fits_key(d: Doc, c: Cursor, depth: int, levels: Seq<Level>, cap: nat)
    requires
        coherent(d, c),
        0 <= depth < c.stack.len(),
        levels.len() > 0,
        look(d, c) == Ok::<(Token, Cursor), Fault>((Token::Key, c)),
        drain_fits(d, c, depth, levels, cap),
    ensures
        levels.last().path.len() + 1 <= cap,
        text(d.bytes, c.at + 1) matches Ok((k, name)) ==> {
            &&& child(levels.last().path, pointer_escape(name)).len() <= cap
            &&& drain_fits(d, past_string(c, true, k), depth, keyed(levels, name), cap)
        },
{
    lemma_look(d, c);
    lemma_text(d.bytes, c.at + 1);
    let s = d.bytes;
    if text(s, c.at + 1) is Ok {
        let (k, name) = text(s, c.at + 1)->Ok_0;
        let c1 = past_string(c, true, k);
        let more = keyed(levels, name);
        assert(more.last() == (Level { key: pointer_escape(name), ..levels.last() }));
        assert(more.drop_last() =~= levels.drop_last());
        let r = rest(s, c.at, c.state, room(d, c));
        assert(r == rest(s, c1.at, c1.state, room(d, c1)));
        if r is Ok {
            assert(leave(c, r->Ok_0) == leave(c1, r->Ok_0));
        }
    }
}

/// No `/` in a reference token.
pub open spec fn no_slash(s: Seq<u8>) -> bool {
    forall|i: int| 0 <= i < s.len() ==> #[trigger] s[i] != SLASH
}

/// An escaped name holds no `/`.
pub proof fn lemma_pointer_escape(s: Seq<u8>)
    ensures
        no_slash(pointer_escape(s)),
    decreases s.len(),
{
    if s.len() > 0 {
        lemma_pointer_escape(s.drop_last());
    }
}

/// Names escaped in parts are the name escaped.
pub(crate) proof fn lemma_pointer_parts(a: Seq<u8>, b: Seq<u8>)
    ensures
        pointer_escape(a + b) == pointer_escape(a) + pointer_escape(b),
    decreases b.len(),
{
    if b.len() == 0 {
        assert(a + b =~= a);
        assert(pointer_escape(a) + pointer_escape(b) =~= pointer_escape(a));
    } else {
        lemma_pointer_parts(a, b.drop_last());
        assert((a + b).drop_last() =~= a + b.drop_last());
        assert(pointer_escape(a) + pointer_escape(b.drop_last()) + pointer_byte(b.last())
            =~= pointer_escape(a) + pointer_escape(b));
    }
}

/// A name that is escaped as a JSON Pointer reference token stands for itself.
pub proof fn law_pointer_escape(s: Seq<u8>)
    ensures
        unescape(pointer_escape(s)) == Some(s),
    decreases s.len(),
{
    if s.len() == 0 {
        assert(s =~= Seq::<u8>::empty());
    } else {
        let b = s[0];
        let more = s.skip(1);
        let p = pointer_escape(s);
        law_pointer_escape(more);
        assert(s =~= seq![b] + more);
        lemma_pointer_parts(seq![b], more);
        assert(seq![b].drop_last() =~= Seq::<u8>::empty());
        assert(pointer_escape(seq![b].drop_last()) =~= Seq::<u8>::empty());
        assert(pointer_escape(seq![b]) =~= pointer_byte(b));
        assert(p.skip(pointer_byte(b).len() as int) =~= pointer_escape(more));
        assert(p[0] == pointer_byte(b)[0]);
        if pointer_byte(b).len() == 2 {
            assert(p[1] == pointer_byte(b)[1]);
        }
    }
}

/// Bytes without `~` and `/` need no escape.
proof fn lemma_pointer_same(s: Seq<u8>)
    requires
        forall|i: int| 0 <= i < s.len() ==> #[trigger] s[i] >= 0x80,
    ensures
        pointer_escape(s) == s,
    decreases s.len(),
{
    if s.len() > 0 {
        lemma_pointer_same(s.drop_last());
        assert(pointer_escape(s) =~= s);
    }
}

/// Escaping keeps text valid.
proof fn lemma_pointer_utf8(s: Seq<u8>)
    requires
        valid_utf8(s),
    ensures
        valid_utf8(pointer_escape(s)),
    decreases s.len(),
{
    if s.len() > 0 {
        let head = take_first_scalar(s);
        let tail = pop_first_scalar(s);
        assert(s =~= head + tail);
        lemma_pointer_utf8(tail);
        lemma_pointer_parts(head, tail);
        let e = pointer_escape(head);
        assert(valid_utf8(e)) by {
            if s[0] < 0x80 {
                assert(head.len() == 1 && head.last() == s[0]);
                assert(pointer_escape(head.drop_last()) =~= Seq::<u8>::empty());
                assert(e =~= pointer_byte(s[0]));
                lemma_ascii_utf8(e);
            } else {
                lemma_pointer_same(head);
                assert(pop_first_scalar(head) =~= Seq::<u8>::empty());
                assert(valid_utf8(pop_first_scalar(head)));
            }
        }
        valid_utf8_concat(e, pointer_escape(tail));
    }
}

/// Extending a path keeps it valid text.
proof fn lemma_child_utf8(path: Seq<u8>, token: Seq<u8>)
    requires
        valid_utf8(path),
        valid_utf8(token),
    ensures
        valid_utf8(child(path, token)),
{
    lemma_ascii_utf8(seq![SLASH]);
    valid_utf8_concat(path, seq![SLASH]);
    valid_utf8_concat(path + seq![SLASH], token);
}

/// Builds the path by appending escaped key bytes.
pub(crate) struct PathSink<'b> {
    pub(crate) buf: &'b mut [u8],
    pub(crate) len: usize,
    pub(crate) overflow: bool,
    pub(crate) start: Ghost<int>,
    pub(crate) log: Ghost<Seq<u8>>,
}

impl<'b> PathSink<'b> {
    pub(crate) open(crate) spec fn content(&self) -> Seq<u8> {
        self.buf@
    }

    fn new(buf: &'b mut [u8], len: usize) -> (r: Self)
        requires
            len <= old(buf)@.len(),
        ensures
            r.wf(),
            r.got() == Seq::<u8>::empty(),
            r.space() is None,
            r.made() == (old(buf)@.subrange(0, len as int), false, old(buf)@.len() as int),
    {
        let n = buf.len();
        let r = Self {
            buf,
            len,
            overflow: false,
            start: Ghost(len as int),
            log: Ghost(Seq::empty()),
        };
        assert(r.content().subrange(len as int, len as int) =~= Seq::<u8>::empty());
        r
    }

    /// Appends one byte as it is.
    fn push(&mut self, b: u8)
        requires
            old(self).len <= old(self).content().len() <= usize::MAX,
            0 <= old(self).start@ <= old(self).len,
        ensures
            final(self).len <= final(self).content().len(),
            final(self).content().len() == old(self).content().len(),
            final(self).start == old(self).start,
            final(self).log == old(self).log,
            final(self).content().subrange(0, old(self).start@) == old(self).content().subrange(
                0,
                old(self).start@,
            ),
            final(self).overflow == (old(self).overflow || old(self).len >= old(
                self,
            ).content().len()),
            old(self).len < old(self).content().len() ==> {
                &&& final(self).len == old(self).len + 1
                &&& final(self).content().subrange(old(self).start@, old(self).len + 1) == old(
                    self,
                ).content().subrange(old(self).start@, old(self).len as int).push(b)
            },
            old(self).len >= old(self).content().len() ==> *final(self) == (PathSink {
                overflow: true,
                ..*old(self)
            }),
    {
        if self.len < self.buf.len() {
            let ghost before = self.content();
            self.buf[self.len] = b;
            self.len = self.len + 1;
            proof {
                assert(self.content() == before.update(self.len - 1, b));
                assert(self.content().subrange(0, self.start@) =~= before.subrange(
                    0,
                    self.start@,
                ));
                assert(self.content().subrange(self.start@, self.len as int) =~= before.subrange(
                    self.start@,
                    self.len - 1,
                ).push(b));
            }
        } else {
            self.overflow = true;
        }
    }

    /// Returns the buffer, which holds the path (unless it overflowed).
    fn into_buf(self) -> (r: &'b mut [u8])
        requires
            self.wf(),
        ensures
            r@.len() == self.made().2,
            self.len <= r@.len(),
            self.overflow <==> self.made().0.len() + pointer_escape(self.got()).len() > r@.len(),
            !self.overflow ==> r@.subrange(0, self.len as int) == self.made().0 + pointer_escape(
                self.got(),
            ),
    {
        assert(!self.overflow ==> self.content().subrange(0, self.len as int)
            =~= self.content().subrange(0, self.start@) + self.content().subrange(
            self.start@,
            self.len as int,
        ));
        self.buf
    }
}

impl Sink for PathSink<'_> {
    open(crate) spec fn wf(&self) -> bool {
        let e = pointer_escape(self.log@);
        &&& self.len <= self.content().len() <= usize::MAX
        &&& 0 <= self.start@ <= self.len
        &&& !self.overflow ==> self.content().subrange(self.start@, self.len as int) == e
        &&& self.overflow ==> self.start@ + e.len() > self.content().len()
    }

    open(crate) spec fn got(&self) -> Seq<u8> {
        self.log@
    }

    open(crate) spec fn space(&self) -> Option<nat> {
        None
    }

    open(crate) spec fn made(&self) -> (Seq<u8>, bool, int) {
        (self.content().subrange(0, self.start@), false, self.content().len() as int)
    }

    fn room(&self) -> (r: usize) {
        usize::MAX
    }

    fn put(&mut self, bytes: &[u8]) {
        let mut k: usize = 0;
        assert(old(self).log@ + bytes@.subrange(0, 0) =~= old(self).log@);
        while k < bytes.len()
            invariant
                k <= bytes@.len(),
                (*self).wf(),
                self.log@ == old(self).log@ + bytes@.subrange(0, k as int),
                (*self).made() == (*old(self)).made(),
                self.start == old(self).start,
            decreases bytes@.len() - k,
        {
            let b = bytes[k];
            let ghost e = pointer_escape(self.log@);
            match b {
                TILDE => {
                    self.push(TILDE);
                    self.push(0x30);
                },
                SLASH => {
                    self.push(TILDE);
                    self.push(0x31);
                },
                _ => self.push(b),
            }
            k = k + 1;
            proof {
                self.log@ = self.log@.push(b);
                assert(self.log@.drop_last() =~= old(self).log@ + bytes@.subrange(0, k - 1));
                assert(self.log@ =~= old(self).log@ + bytes@.subrange(0, k as int));
                assert(pointer_escape(self.log@) == e + pointer_byte(b));
                if !self.overflow {
                    assert(self.content().subrange(self.start@, self.len as int) =~= e
                        + pointer_byte(b));
                }
            }
        }
        assert(bytes@.subrange(0, bytes@.len() as int) =~= bytes@);
    }
}

/// The position of the last `/`, or 0 if there is none.
spec fn last_slash(p: Seq<u8>) -> int
    decreases p.len(),
{
    if p.len() == 0 {
        0
    } else if p.last() == SLASH {
        p.len() - 1
    } else {
        last_slash(p.drop_last())
    }
}

proof fn lemma_last_slash(path: Seq<u8>, token: Seq<u8>)
    requires
        no_slash(token),
    ensures
        last_slash(child(path, token)) == path.len(),
    decreases token.len(),
{
    let p = child(path, token);
    if token.len() > 0 {
        assert(p.drop_last() =~= child(path, token.drop_last()));
        lemma_last_slash(path, token.drop_last());
    } else {
        assert(p.last() == SLASH);
    }
}

fn pop_segment(path: &[u8], len: usize) -> (r: usize)
    requires
        len <= path@.len(),
    ensures
        r == last_slash(path@.subrange(0, len as int)),
        r <= len,
{
    let mut k: usize = len;
    while k > 0
        invariant
            k <= len <= path@.len(),
            last_slash(path@.subrange(0, len as int)) == last_slash(path@.subrange(0, k as int)),
        decreases k,
    {
        assert(path@.subrange(0, k as int).drop_last() =~= path@.subrange(0, k - 1));
        if path[k - 1] == SLASH {
            return k - 1;
        }
        k = k - 1;
    }
    0
}

/// Decimal digits hold no `/`, and are valid text.
proof fn lemma_decimal_token(n: nat)
    ensures
        no_slash(decimal(n)),
        valid_utf8(decimal(n)),
{
    lemma_decimal_index(n);
    lemma_ascii_utf8(decimal(n));
}

/// The number that decimal digits write, if it fits in a `usize` with one to spare.
fn read_digits(digits: &[u8], Ghost(n): Ghost<nat>) -> (r: Option<usize>)
    requires
        digits@ == decimal(n),
    ensures
        r == (if n <= usize::MAX {
            Some(n as usize)
        } else {
            None
        }),
{
    let mut acc: usize = 0;
    let mut k: usize = 0;
    proof {
        lemma_decimal_index(n);
        assert(digits@.subrange(0, 0).len() == 0);
    }
    while k < digits.len()
        invariant
            k <= digits@.len(),
            is_index(digits@),
            digits_value(digits@) == n,
            acc == digits_value(digits@.subrange(0, k as int)),
        decreases digits@.len() - k,
    {
        let b = digits[k];
        proof {
            let next = digits@.subrange(0, k + 1);
            assert(next.drop_last() =~= digits@.subrange(0, k as int));
            assert(is_digit(digits@[k as int]));
            assert(digits_value(next) == acc * 10 + (b - 0x30));
            crate::path::lemma_digits_prefix(digits@, k + 1);
        }
        acc = match acc.checked_mul(10) {
            Some(a) => match a.checked_add((b - 0x30) as usize) {
                Some(a) => a,
                None => return None,
            },
            None => return None,
        };
        k = k + 1;
    }
    assert(digits@.subrange(0, k as int) =~= digits@);
    Some(acc)
}

/// Replaces the last segment (an array index) with the next index, or appends `/0`.
fn next_index(path: &mut [u8], len: usize, first: bool, Ghost(l): Ghost<Level>) -> (r: Option<
    usize,
>)
    requires
        len <= old(path)@.len(),
        first == (l.n == 0),
        old(path)@.subrange(0, len as int) == (if l.n == 0 {
            l.path
        } else {
            child(l.path, decimal((l.n - 1) as nat))
        }),
    ensures
        final(path)@.len() == old(path)@.len(),
        match r {
            Some(end) => {
                &&& end <= final(path)@.len()
                &&& final(path)@.subrange(0, end as int) == child(l.path, decimal(l.n))
            },
            None => !element_fits(l, old(path)@.len()),
        },
{
    let ghost before = path@;
    let cap = path.len();
    let (start, idx): (usize, usize) = if first {
        (len, 0)
    } else {
        proof {
            lemma_decimal_token((l.n - 1) as nat);
            lemma_last_slash(l.path, decimal((l.n - 1) as nat));
        }
        let slash = pop_segment(path, len);
        let digits = slice_subrange(path, slash + 1, len);
        assert(digits@ =~= before.subrange(0, len as int).skip(slash + 1));
        assert(digits@ =~= decimal((l.n - 1) as nat));
        match read_digits(digits, Ghost((l.n - 1) as nat)) {
            Some(v) => if v < usize::MAX {
                (slash, v + 1)
            } else {
                return None;
            },
            None => return None,
        }
    };
    assert(before.subrange(0, start as int) =~= l.path) by {
        assert(before.subrange(0, start as int) =~= before.subrange(0, len as int).subrange(
            0,
            start as int,
        ));
    }
    let mut tmp = [0u8;20];
    let digits = fmt_usize(idx, &mut tmp);
    if cap - start < 1 || cap - start - 1 < digits.len() {
        return None;
    }
    path[start] = SLASH;
    let ghost mid = path@;
    copy_to(path, start + 1, digits);
    let end = start + 1 + digits.len();
    assert(path@.subrange(0, end as int) =~= child(l.path, decimal(l.n))) by {
        assert(mid.subrange(0, start + 1) =~= before.subrange(0, start as int) + seq![SLASH]);
    }
    Some(end)
}

/// A value (or the end of an object or array) visited by [`Parser::walk`].
///
/// For scalar values, the callback may read the value through the node. Values that are
/// not read are skipped automatically.
pub struct Node<'a, S: Source, const N: usize> {
    pub(crate) parser: &'a mut Parser<S, N>,
    pub(crate) path: &'a str,
    pub(crate) token: Token,
    pub(crate) offset: u64,
}

impl<'a, S: Source, const N: usize> Node<'a, S, N> {
    /// The parser, before the value or behind the closing bracket.
    pub open(crate) spec fn inner(&self) -> &'a mut Parser<S, N> {
        self.parser
    }

    /// See [`Node::path`].
    pub open(crate) spec fn pointer(&self) -> &'a str {
        self.path
    }

    /// See [`Node::token`].
    pub open(crate) spec fn kind(&self) -> Token {
        self.token
    }

    /// See [`Node::offset`].
    pub open(crate) spec fn position(&self) -> u64 {
        self.offset
    }

    /// Whether the node is a value that was not consumed yet.
    pub open spec fn here(&self) -> bool {
        starts_value(self.kind()) && self.inner().feed().origin + self.inner().cursor().at
            == self.position()
    }

    /// What an operation on the value does, which `o` says, if the value is still there.
    pub open spec fn guarded<T>(&self, o: Outcome<T>) -> Outcome<T> {
        if self.here() {
            o
        } else {
            refuse(ErrorKind::InvalidState, self.inner().cursor())
        }
    }

    /// JSON Pointer to this value, relative to where the walk started (`""` for the value
    /// the walk started on).
    pub fn path(&self) -> (r: &'a str)
        ensures
            r == self.pointer(),
    {
        self.path
    }

    /// Kind of value; [`Token::EndObject`] or [`Token::EndArray`] after the last member or
    /// element of a container.
    pub fn token(&self) -> (r: Token)
        ensures
            r == self.kind(),
    {
        self.token
    }

    /// Byte offset of the value's first byte (or of the closing bracket).
    pub fn offset(&self) -> (r: u64)
        ensures
            r == self.position(),
    {
        self.offset
    }

    /// Nesting depth of the value, relative to the parser's top level.
    pub fn depth(&self) -> (r: usize)
        requires
            self.inner().wf(),
        ensures
            r == self.nesting(),
    {
        match self.token {
            Token::EndObject | Token::EndArray => self.parser.depth() + 1,
            _ => self.parser.depth(),
        }
    }

    /// How many containers the value, or the container that ends, is in, counting itself if
    /// it ends.
    pub open spec fn nesting(&self) -> int {
        let n = self.inner().cursor().stack.len() as int;
        if self.kind() == Token::EndObject || self.kind() == Token::EndArray {
            n + 1
        } else {
            n
        }
    }

    fn is_here(&self) -> (r: bool)
        requires
            self.inner().wf(),
        ensures
            r == self.here(),
    {
        self.token.is_value() && self.parser.offset() == self.offset
    }

    /// Reads a string value into `buf`.
    pub fn read_str<'b>(&mut self, buf: &'b mut [u8]) -> (r: Res<&'b str, S>)
        requires
            old(self).inner().wf(),
        ensures
            *final(final(self).inner()) == *final(old(self).inner()),
            final(self).pointer() == old(self).pointer(),
            final(self).kind() == old(self).kind(),
            final(self).position() == old(self).position(),
            (*final(self).inner()).did(
                &*old(self).inner(),
                bytes_of(r),
                old(self).guarded(
                    read_str(
                        old(self).inner().doc(),
                        old(self).inner().cursor(),
                        old(buf)@.len(),
                    ),
                ),
            ),
    {
        if !self.is_here() {
            return self.parser.fail(ErrorKind::InvalidState);
        }
        self.parser.read_str(buf)
    }

    /// Reads a string value in chunks.
    pub fn str_reader<'p>(&'p mut self) -> (r: Res<StrReader<'p, S, N>, S>)
        requires
            old(self).inner().wf(),
        ensures
            *final(final(self).inner()) == *final(old(self).inner()),
            final(self).pointer() == old(self).pointer(),
            final(self).kind() == old(self).kind(),
            final(self).position() == old(self).position(),
            ({
                let want = old(self).guarded(
                    open_string(old(self).inner().doc(), old(self).inner().cursor()),
                );
                match r {
                    Ok(reader) => {
                        &&& !reader.is_over()
                        &&& (*reader.inner()).did(&*old(self).inner(), Ok(()), want)
                        &&& *final(self).inner() == *final(reader.inner())
                    },
                    Err(e) => (*final(self).inner()).did(&*old(self).inner(), Err(e), want),
                }
            }),
    {
        if !self.is_here() {
            return self.parser.fail(ErrorKind::InvalidState);
        }
        self.parser.str_reader()
    }

    /// Reads a number (see [`Parser::read_num`]).
    pub fn read_num<T: FromStr>(&mut self) -> (r: Res<T, S>)
        requires
            old(self).inner().wf(),
        ensures
            *final(final(self).inner()) == *final(old(self).inner()),
            final(self).pointer() == old(self).pointer(),
            final(self).kind() == old(self).kind(),
            final(self).position() == old(self).position(),
            exists|parsed: Option<T>|
                {
                    &&& (*final(self).inner()).did(
                        &*old(self).inner(),
                        r,
                        old(self).guarded(
                            #[trigger] read_num(
                                old(self).inner().doc(),
                                old(self).inner().cursor(),
                                parsed,
                            ),
                        ),
                    )
                    &&& old(self).here() && !(r matches Err(Error::Io(_))) ==> (read_number(
                        old(self).inner().doc(),
                        old(self).inner().cursor(),
                        64,
                    ) matches Outcome::Done(text, _) ==> from_text(text, parsed))
                },
    {
        if !self.is_here() {
            let r = self.parser.fail(ErrorKind::InvalidState);
            assert((*self.parser).did(
                &*old(self).inner(),
                r,
                old(self).guarded(
                    read_num(old(self).inner().doc(), old(self).inner().cursor(), None::<T>),
                ),
            ));
            return r;
        }
        self.parser.read_num()
    }

    /// Reads a number as JSON text.
    pub fn read_number_str<'b>(&mut self, buf: &'b mut [u8]) -> (r: Res<&'b str, S>)
        requires
            old(self).inner().wf(),
        ensures
            *final(final(self).inner()) == *final(old(self).inner()),
            final(self).pointer() == old(self).pointer(),
            final(self).kind() == old(self).kind(),
            final(self).position() == old(self).position(),
            (*final(self).inner()).did(
                &*old(self).inner(),
                bytes_of(r),
                old(self).guarded(
                    read_number(
                        old(self).inner().doc(),
                        old(self).inner().cursor(),
                        old(buf)@.len(),
                    ),
                ),
            ),
    {
        if !self.is_here() {
            return self.parser.fail(ErrorKind::InvalidState);
        }
        self.parser.read_number_str(buf)
    }

    /// Reads a boolean.
    pub fn read_bool(&mut self) -> (r: Res<bool, S>)
        requires
            old(self).inner().wf(),
        ensures
            *final(final(self).inner()) == *final(old(self).inner()),
            final(self).pointer() == old(self).pointer(),
            final(self).kind() == old(self).kind(),
            final(self).position() == old(self).position(),
            (*final(self).inner()).did(
                &*old(self).inner(),
                r,
                old(self).guarded(read_bool(old(self).inner().doc(), old(self).inner().cursor())),
            ),
    {
        if !self.is_here() {
            return self.parser.fail(ErrorKind::InvalidState);
        }
        self.parser.read_bool()
    }

    /// Skips the value and returns its span (works for objects and arrays too, which are
    /// then not entered).
    pub fn span(&mut self) -> (r: Res<Span, S>)
        requires
            old(self).inner().wf(),
        ensures
            *final(final(self).inner()) == *final(old(self).inner()),
            final(self).pointer() == old(self).pointer(),
            final(self).kind() == old(self).kind(),
            final(self).position() == old(self).position(),
            (*final(self).inner()).did(
                &*old(self).inner(),
                positions_of(r, old(self).inner().feed().origin),
                old(self).guarded(span(old(self).inner().doc(), old(self).inner().cursor())),
            ),
    {
        if !self.is_here() {
            return self.parser.fail(ErrorKind::InvalidState);
        }
        self.parser.value_span()
    }

    /// Gives full access to the parser to consume this value in any way (for example
    /// [`copy_value`](crate::copy_value)). If the value is only partially consumed, the
    /// walk skips the rest of it. Consuming more than this value confuses the walk.
    pub fn take_parser<'p>(&'p mut self) -> (r: Res<&'p mut Parser<S, N>, S>)
        requires
            old(self).inner().wf(),
        ensures
            *final(final(self).inner()) == *final(old(self).inner()),
            final(self).pointer() == old(self).pointer(),
            final(self).kind() == old(self).kind(),
            final(self).position() == old(self).position(),
            match r {
                Ok(p) => {
                    &&& old(self).here()
                    &&& *p == *old(self).inner()
                    &&& *final(self).inner() == *final(p)
                },
                Err(e) => {
                    &&& !old(self).here()
                    &&& (*final(self).inner()).did(
                        &*old(self).inner(),
                        Err(e),
                        refuse::<()>(ErrorKind::InvalidState, old(self).inner().cursor()),
                    )
                },
            },
    {
        if !self.is_here() {
            return self.parser.fail(ErrorKind::InvalidState);
        }
        Ok(&mut *self.parser)
    }
}

/// The calls for the value at the cursor.
pub open spec fn visits(d: Doc, c: Cursor, over: Set<int>) -> Seq<Visit> {
    value_visits(d.bytes, c.at, room(d, c), Seq::empty(), over)
}

/// Two choices of containers not to enter are the same in front of `at`.
spec fn agree(a: Set<int>, b: Set<int>, at: int) -> bool {
    forall|q: int| q < at ==> (#[trigger] a.contains(q) <==> b.contains(q))
}

/// A walk of the value at `c0` has made the calls `done`, and stands in front of a token.
spec fn before(
    d: Doc,
    c0: Cursor,
    c: Cursor,
    depth: int,
    levels: Seq<Level>,
    decided: Set<int>,
    done: Seq<Visit>,
) -> bool {
    forall|over: Set<int>|
        agree(over, decided, c.at) ==> #[trigger] visits(d, c0, over) == done + through_visits(
            d,
            c,
            depth,
            levels,
            over,
        )
}

/// A walk of the value at `c0` has made the calls `done`, and stands behind a token.
spec fn behind(
    d: Doc,
    c0: Cursor,
    c: Cursor,
    depth: int,
    levels: Seq<Level>,
    decided: Set<int>,
    done: Seq<Visit>,
) -> bool {
    forall|over: Set<int>|
        agree(over, decided, c.at) ==> #[trigger] visits(d, c0, over) == done + drain_visits(
            d,
            c,
            depth,
            levels,
            over,
        )
}

/// The path of the value that comes next.
spec fn path_here(levels: Seq<Level>, state: State) -> Seq<u8> {
    if levels.len() == 0 {
        Seq::empty()
    } else {
        next_path(levels.last(), state)
    }
}

/// The levels behind the value that comes next.
spec fn levels_past(levels: Seq<Level>) -> Seq<Level> {
    if levels.len() == 0 {
        levels
    } else {
        bumped(levels)
    }
}

proof fn lemma_look_on(
    d: Doc,
    c0: Cursor,
    c: Cursor,
    depth: int,
    levels: Seq<Level>,
    decided: Set<int>,
    done: Seq<Visit>,
)
    requires
        coherent(d, c),
        !(c.state is InStr),
        0 <= depth < c.stack.len(),
        look(d, c) is Ok,
        behind(d, c0, c, depth, levels, decided, done),
    ensures
        before(d, c0, look(d, c)->Ok_0.1, depth, levels, decided, done),
{
    lemma_look(d, c);
    let c1 = look(d, c)->Ok_0.1;
    assert forall|over: Set<int>| agree(over, decided, c1.at) implies #[trigger] visits(d, c0, over)
        == done + through_visits(d, c1, depth, levels, over) by {
        lemma_visits_look(d, c, depth, levels, over);
        assert(agree(over, decided, c.at));
    }
}

proof fn lemma_enter_on(
    d: Doc,
    c0: Cursor,
    c: Cursor,
    t: Token,
    depth: int,
    levels: Seq<Level>,
    decided: Set<int>,
    done: Seq<Visit>,
)
    requires
        coherent(d, c),
        0 <= depth <= c.stack.len(),
        levels.len() == c.stack.len() - depth,
        look(d, c) == Ok::<(Token, Cursor), Fault>((t, c)),
        is_container(t),
        room(d, c) > 0,
        before(d, c0, c, depth, levels, decided, done),
    ensures
        behind(
            d,
            c0,
            enter(d, c, t == Token::BeginObject)->Done_1,
            depth,
            levels_past(levels).push(fresh(path_here(levels, c.state))),
            decided.remove(c.at),
            done.push(Visit { path: path_here(levels, c.state), token: t, at: c.at }),
        ),
{
    let c1 = enter(d, c, t == Token::BeginObject)->Done_1;
    let v = Visit { path: path_here(levels, c.state), token: t, at: c.at };
    let more = levels_past(levels).push(fresh(path_here(levels, c.state)));
    assert forall|over: Set<int>| agree(over, decided.remove(c.at), c1.at) implies #[trigger] visits(
        d,
        c0,
        over,
    ) == done.push(v) + drain_visits(d, c1, depth, more, over) by {
        assert(!over.contains(c.at)) by {
            assert(over.contains(c.at) <==> decided.remove(c.at).contains(c.at));
        }
        assert(agree(over, decided, c.at)) by {
            assert forall|q: int| q < c.at implies (#[trigger] over.contains(q)
                <==> decided.contains(q)) by {
                assert(over.contains(q) <==> decided.remove(c.at).contains(q));
            }
        }
        lemma_visits_enter(d, c, t, depth, levels, over);
        let q = drain_visits(d, c1, depth, more, over);
        assert(done + (seq![v] + q) =~= done.push(v) + q);
    }
}

proof fn lemma_over_on(
    d: Doc,
    c0: Cursor,
    c: Cursor,
    t: Token,
    depth: int,
    levels: Seq<Level>,
    decided: Set<int>,
    done: Seq<Visit>,
)
    requires
        coherent(d, c),
        0 <= depth <= c.stack.len(),
        levels.len() == c.stack.len() - depth,
        look(d, c) == Ok::<(Token, Cursor), Fault>((t, c)),
        starts_value(t),
        value(d.bytes, c.at, room(d, c)) is Ok,
        before(d, c0, c, depth, levels, decided, done),
    ensures
        behind(
            d,
            c0,
            past_value(c, value(d.bytes, c.at, room(d, c))->Ok_0),
            depth,
            levels_past(levels),
            decided.insert(c.at),
            done.push(Visit { path: path_here(levels, c.state), token: t, at: c.at }),
        ),
{
    lemma_value(d.bytes, c.at, room(d, c));
    let c1 = past_value(c, value(d.bytes, c.at, room(d, c))->Ok_0);
    let v = Visit { path: path_here(levels, c.state), token: t, at: c.at };
    let more = levels_past(levels);
    assert forall|over: Set<int>| agree(over, decided.insert(c.at), c1.at) implies #[trigger] visits(
        d,
        c0,
        over,
    ) == done.push(v) + drain_visits(d, c1, depth, more, over) by {
        assert(over.contains(c.at)) by {
            assert(over.contains(c.at) <==> decided.insert(c.at).contains(c.at));
        }
        assert(agree(over, decided, c.at)) by {
            assert forall|q: int| q < c.at implies (#[trigger] over.contains(q)
                <==> decided.contains(q)) by {
                assert(over.contains(q) <==> decided.insert(c.at).contains(q));
            }
        }
        lemma_visits_over(d, c, t, depth, levels, over);
        let q = drain_visits(d, c1, depth, more, over);
        assert(done + (seq![v] + q) =~= done.push(v) + q);
    }
}

/// The call for the token at the cursor is the next one.
proof fn lemma_next_visit(
    d: Doc,
    c0: Cursor,
    c: Cursor,
    t: Token,
    depth: int,
    levels: Seq<Level>,
    decided: Set<int>,
    done: Seq<Visit>,
)
    requires
        coherent(d, c),
        0 <= depth <= c.stack.len(),
        levels.len() == c.stack.len() - depth,
        depth == c.stack.len() ==> starts_value(t),
        look(d, c) == Ok::<(Token, Cursor), Fault>((t, c)),
        starts_value(t) || t == Token::EndObject || t == Token::EndArray,
        before(d, c0, c, depth, levels, decided, done),
    ensures
        ({
            let v = Visit {
                path: if starts_value(t) {
                    path_here(levels, c.state)
                } else {
                    levels.last().path
                },
                token: t,
                at: c.at,
            };
            &&& done.len() < visits(d, c0, decided).len()
            &&& visits(d, c0, decided).subrange(0, done.len() as int + 1) == done.push(v)
        }),
{
    lemma_look(d, c);
    assert(agree(decided, decided, c.at));
    let all = visits(d, c0, decided);
    let left = through_visits(d, c, depth, levels, decided);
    assert(all == done + left);
    let v = Visit {
        path: if starts_value(t) {
            path_here(levels, c.state)
        } else {
            levels.last().path
        },
        token: t,
        at: c.at,
    };
    assert(left.len() > 0 && left[0] == v) by {
        if starts_value(t) {
            let vv = value_visits(d.bytes, c.at, room(d, c), v.path, decided);
            assert(vv.len() > 0 && vv[0] == v);
            if c.stack.len() > depth {
                lemma_visits_value(d, c, depth, levels, decided);
            }
        } else {
            lemma_visits_end(d, c, t, depth, levels, decided);
        }
    }
    assert(all.subrange(0, done.len() as int + 1) =~= done.push(v));
}

proof fn lemma_end_on(
    d: Doc,
    c0: Cursor,
    c: Cursor,
    t: Token,
    depth: int,
    levels: Seq<Level>,
    decided: Set<int>,
    done: Seq<Visit>,
)
    requires
        coherent(d, c),
        0 <= depth < c.stack.len(),
        look(d, c) == Ok::<(Token, Cursor), Fault>((t, c)),
        t == Token::EndObject || t == Token::EndArray,
        before(d, c0, c, depth, levels, decided, done),
    ensures
        behind(
            d,
            c0,
            leave(c, c.at + 1),
            depth,
            levels.drop_last(),
            decided,
            done.push(Visit { path: levels.last().path, token: t, at: c.at }),
        ),
{
    let c1 = leave(c, c.at + 1);
    let v = Visit { path: levels.last().path, token: t, at: c.at };
    assert forall|over: Set<int>| agree(over, decided, c1.at) implies #[trigger] visits(d, c0, over)
        == done.push(v) + drain_visits(d, c1, depth, levels.drop_last(), over) by {
        assert(agree(over, decided, c.at));
        lemma_visits_end(d, c, t, depth, levels, over);
        let q = drain_visits(d, c1, depth, levels.drop_last(), over);
        assert(done + (seq![v] + q) =~= done.push(v) + q);
    }
}

proof fn lemma_key_on(
    d: Doc,
    c0: Cursor,
    c: Cursor,
    depth: int,
    levels: Seq<Level>,
    decided: Set<int>,
    done: Seq<Visit>,
)
    requires
        coherent(d, c),
        0 <= depth < c.stack.len(),
        levels.len() > 0,
        look(d, c) == Ok::<(Token, Cursor), Fault>((Token::Key, c)),
        text(d.bytes, c.at + 1) is Ok,
        before(d, c0, c, depth, levels, decided, done),
    ensures
        ({
            let (k, name) = text(d.bytes, c.at + 1)->Ok_0;
            behind(
                d,
                c0,
                past_string(c, true, k),
                depth,
                keyed(levels, name),
                decided,
                done,
            )
        }),
{
    lemma_look(d, c);
    lemma_text(d.bytes, c.at + 1);
    let (k, name) = text(d.bytes, c.at + 1)->Ok_0;
    let c1 = past_string(c, true, k);
    assert forall|over: Set<int>| agree(over, decided, c1.at) implies #[trigger] visits(d, c0, over)
        == done + drain_visits(d, c1, depth, keyed(levels, name), over) by {
        assert(agree(over, decided, c.at));
        lemma_visits_key(d, c, depth, levels, over);
    }
}

/// The path of a container follows from the level around it.
spec fn link(l: Level, object: bool, path: Seq<u8>) -> bool {
    if object {
        path == child(l.path, l.key) && no_slash(l.key)
    } else {
        l.n > 0 && path == child(l.path, decimal((l.n - 1) as nat))
    }
}

/// The levels of a walk hang together.
spec fn linked(levels: Seq<Level>, kinds: Seq<bool>) -> bool {
    &&& levels.len() == kinds.len()
    &&& forall|j: int|
        0 <= j < levels.len() - 1 ==> link(#[trigger] levels[j], kinds[j], levels[j + 1].path)
    &&& forall|j: int| 0 <= j < levels.len() ==> valid_utf8((#[trigger] levels[j]).path)
}

/// What the path buffer of a walk holds.
spec fn spelled(levels: Seq<Level>, state: State, p: Seq<u8>) -> bool {
    &&& valid_utf8(p)
    &&& if levels.len() == 0 {
        p == Seq::<u8>::empty()
    } else {
        let l = levels.last();
        match state {
            State::ArrFirst => l.n == 0 && p == l.path,
            State::ArrValue | State::ArrComma => link(l, false, p),
            State::ObjColon | State::ObjValue => link(l, true, p),
            _ => p == l.path,
        }
    }
}

/// What is left of the value that a parser, inside of it, is at leads to `depth` open
/// containers.
pub open spec fn finish_value(d: Doc, c: Cursor, depth: int) -> Result<Cursor, Fault> {
    match settle(d, c) {
        Err(f) => Err(f),
        Ok(c) => drain(d, c, depth),
    }
}

/// What a callback may do to the parser: nothing behind a closing bracket; in front of a
/// value, nothing, or to consume (a part of) that value.
pub open spec fn stays(d: Doc, t: Token, before: Cursor, after: Cursor) -> bool {
    ||| after == before
    ||| starts_value(t) && after.at != before.at && finish_value(
        d,
        after,
        before.stack.len() as int,
    ) == through(d, before, before.stack.len() as int)
}

/// The node that is handed to the callback for the visit `v` of a walk in `d`: its parser stands in
/// front of the value, or behind the closing bracket.
pub open spec fn handed<S: Source, const N: usize>(
    n: Node<'_, S, N>,
    v: Visit,
    d: Doc,
    feed: Feed,
) -> bool {
    &&& n.inner().wf()
    &&& n.pointer().spec_bytes() == v.path
    &&& n.kind() == v.token
    &&& n.position() == feed.origin + v.at
    &&& n.inner().feed() == feed
    &&& n.inner().doc() == d
    &&& n.inner().cursor().at == (if starts_value(v.token) {
        v.at
    } else {
        v.at + 1
    })
}

/// Whether a container, for which the callback answered `flow` and left the parser at `after`, is
/// passed over: if that says so, or if the callback consumed anything of it. Else it is entered.
pub open spec fn spared(v: Visit, flow: Flow, after: Cursor, over: bool) -> bool {
    is_container(v.token) ==> over == (flow == Flow::Skip || after.at != v.at)
}

/// The callback `f` was called for the visit `v`, whose path fits in `cap` bytes, and answered
/// `flow`.
#[verifier::opaque]
pub open spec fn visited<S: Source, const N: usize, F: FnMut(&mut Node<'_, S, N>) -> Res<Flow, S>>(
    f: F,
    v: Visit,
    flow: Flow,
    cap: nat,
    d: Doc,
    feed: Feed,
) -> bool {
    &&& v.path.len() <= cap
    &&& exists|n: &mut Node<'_, S, N>|
        #[trigger] call_ensures(f, (n,), Ok(flow)) && handed(*n, v, d, feed)
}

/// The callback `f` was called for the visit `v`, whose path fits in `cap` bytes, and failed with
/// `e`.
#[verifier::opaque]
pub open spec fn failed<S: Source, const N: usize, F: FnMut(&mut Node<'_, S, N>) -> Res<Flow, S>>(
    f: F,
    v: Visit,
    e: Error<S::Error>,
    cap: nat,
    d: Doc,
    feed: Feed,
) -> bool {
    &&& v.path.len() <= cap
    &&& exists|n: &mut Node<'_, S, N>|
        #[trigger] call_ensures(f, (n,), Err(e)) && handed(*n, v, d, feed)
}

/// How a walk came to its end: it made all calls, or the callback stopped it, or failed.
pub enum Ended<E> {
    Whole,
    Stopped,
    Failed(E),
}

/// What ended a walk with the calls `all`, of which the first `n` were answered so that it went on.
pub open spec fn ended<S: Source, const N: usize, F: FnMut(&mut Node<'_, S, N>) -> Res<Flow, S>>(
    f: F,
    all: Seq<Visit>,
    n: int,
    end: Ended<Error<S::Error>>,
    cap: nat,
    d: Doc,
    feed: Feed,
) -> bool {
    match end {
        Ended::Whole => n == all.len(),
        Ended::Stopped => n < all.len() && visited::<S, N, F>(f, all[n], Flow::Stop, cap, d, feed),
        Ended::Failed(e) => n < all.len() && failed::<S, N, F>(f, all[n], e, cap, d, feed),
    }
}

/// The calls of a walk: `flows` are the answers that let it go on, to all calls or up to the one
/// that ended it.
pub open spec fn toured<
    S: Source,
    const N: usize,
    F: FnMut(&mut Node<'_, S, N>) -> Res<Flow, S>,
>(
    f: F,
    all: Seq<Visit>,
    flows: Seq<Flow>,
    end: Ended<Error<S::Error>>,
    cap: nat,
    d: Doc,
    feed: Feed,
) -> bool {
    &&& answered::<S, N, F>(f, all, flows, cap, d, feed)
    &&& ended::<S, N, F>(f, all, flows.len() as int, end, cap, d, feed)
}

/// The first of the calls `all` got the answers `flows`.
pub open spec fn answered<
    S: Source,
    const N: usize,
    F: FnMut(&mut Node<'_, S, N>) -> Res<Flow, S>,
>(f: F, all: Seq<Visit>, flows: Seq<Flow>, cap: nat, d: Doc, feed: Feed) -> bool {
    forall|k: int|
        #![trigger flows[k]]
        0 <= k < flows.len() ==> k < all.len() && visited::<S, N, F>(
            f,
            all[k],
            flows[k],
            cap,
            d,
            feed,
        ) && flows[k] != Flow::Stop
}

impl<S: Source, const N: usize> Parser<S, N> {
    /// Reads the key at the cursor behind the first `len` bytes of `path`, as a reference
    /// token. Gives the buffer back, with the length of the path in it.
    fn walk_key<'b>(&mut self, path: &'b mut [u8], len: usize) -> (r: Res<
        (&'b mut [u8], usize),
        S,
    >)
        requires
            old(self).wf(),
            old(self).ready(),
            look(old(self).doc(), old(self).cursor()) == Ok::<(Token, Cursor), Fault>(
                (Token::Key, old(self).cursor()),
            ),
            len <= old(path)@.len(),
        ensures
            final(self).wf(),
            ({
                let c = old(self).cursor();
                let goal = text(old(self).doc().bytes, c.at + 1);
                let head = old(path)@.subrange(0, len as int);
                match r {
                    Ok((p, n)) => {
                        &&& final(self).follows(&*old(self))
                        &&& goal matches Ok((k, name)) && {
                            &&& final(self).cursor() == past_string(c, true, k)
                            &&& valid_utf8(name)
                            &&& p@.len() == old(path)@.len()
                            &&& n <= p@.len()
                            &&& p@.subrange(0, n as int) == child(head, pointer_escape(name))
                        }
                    },
                    Err(Error::Io(_)) => !old(self).feed().reliable,
                    Err(Error::Json { kind, offset }) => {
                        &&& final(self).follows(&*old(self))
                        &&& {
                            ||| goal matches Err(f) && kind == f.kind && offset == old(
                                self,
                            ).feed().origin + f.at
                            ||| kind == ErrorKind::PathTooLong && (if len + 1 > old(path)@.len() {
                                offset == old(self).feed().origin + c.at + 1
                            } else {
                                goal matches Ok((k, name)) && child(
                                    head,
                                    pointer_escape(name),
                                ).len() > old(path)@.len() && offset == old(self).feed().origin + k
                            })
                        }
                    },
                }
            }),
    {
        let ghost s = self.doc().bytes;
        let ghost c = self.cursor();
        proof {
            lemma_look(self.doc(), c);
        }
        self.open_string(true);
        if len >= path.len() {
            return self.fail(ErrorKind::PathTooLong);
        }
        let ghost before = path@;
        path[len] = SLASH;
        proof {
            assert(self.cursor().stash =~= Seq::<u8>::empty());
            lemma_pour(s, c.at + 1, Seq::empty(), None);
            assert(path@.subrange(0, len + 1) =~= before.subrange(0, len as int) + seq![SLASH]);
        }
        let mut sink = PathSink::new(path, len + 1);
        self.decode(&mut sink)?;
        proof {
            let name = text(s, c.at + 1)->Ok_0.1;
            assert(sink.got() =~= name);
            assert(Seq::<u8>::empty() + name =~= name);
        }
        self.str_done(true);
        if sink.overflow {
            proof {
                let name = text(s, c.at + 1)->Ok_0.1;
                assert(child(before.subrange(0, len as int), pointer_escape(name)).len() == len + 1
                    + pointer_escape(name).len());
            }
            return self.fail(ErrorKind::PathTooLong);
        }
        let n = sink.len;
        let buf = sink.into_buf();
        Ok((buf, n))
    }
}

/// What a walk has done: the containers it is in, those it passed over, the calls it made,
/// and the answers it got.
struct Trip {
    levels: Seq<Level>,
    decided: Set<int>,
    done: Seq<Visit>,
    flows: Seq<Flow>,
}

/// The trip, with one more call and its answer.
spec fn called(trip: Trip, v: Visit, flow: Flow) -> Trip {
    Trip { done: trip.done.push(v), flows: trip.flows.push(flow), ..trip }
}

/// The calls of the trip were made in front of `at`, and none of them stopped it.
#[verifier::opaque]
spec fn logged<S: Source, const N: usize, F: FnMut(&mut Node<'_, S, N>) -> Res<Flow, S>>(
    f: F,
    trip: Trip,
    at: int,
    cap: nat,
    d: Doc,
    feed: Feed,
) -> bool {
    &&& trip.done.len() == trip.flows.len()
    &&& forall|k: int|
        #![trigger trip.flows[k]]
        0 <= k < trip.flows.len() ==> {
            &&& visited::<S, N, F>(f, trip.done[k], trip.flows[k], cap, d, feed)
            &&& trip.flows[k] != Flow::Stop
            &&& trip.done[k].at < at
        }
}

/// A trip through the value at `c0` stands at `c`, in front of a token, and the path buffer
/// of `cap` bytes holds `p`.
#[verifier::opaque]
spec fn underway(
    d: Doc,
    c0: Cursor,
    c: Cursor,
    depth: int,
    cap: nat,
    p: Seq<u8>,
    trip: Trip,
) -> bool {
    &&& linked(trip.levels, c.stack.skip(depth))
    &&& spelled(trip.levels, c.state, p)
    &&& before(d, c0, c, depth, trip.levels, trip.decided, trip.done)
    &&& value_fits(d.bytes, c0.at, room(d, c0), Seq::empty(), cap) ==> through_fits(
        d,
        c,
        depth,
        trip.levels,
        cap,
    )
}

/// A trip through the value at `c0` stands at `c`, behind a token.
#[verifier::opaque]
spec fn passed(
    d: Doc,
    c0: Cursor,
    c: Cursor,
    depth: int,
    cap: nat,
    p: Seq<u8>,
    trip: Trip,
) -> bool {
    &&& linked(trip.levels, c.stack.skip(depth))
    &&& c.stack.len() > depth ==> spelled(trip.levels, c.state, p)
    &&& behind(d, c0, c, depth, trip.levels, trip.decided, trip.done)
    &&& value_fits(d.bytes, c0.at, room(d, c0), Seq::empty(), cap) ==> drain_fits(
        d,
        c,
        depth,
        trip.levels,
        cap,
    )
}

proof fn lemma_trip_start(d: Doc, c0: Cursor, cap: nat) -> (trip: Trip)
    requires
        coherent(d, c0),
    ensures
        underway(d, c0, c0, c0.stack.len() as int, cap, Seq::empty(), trip),
        trip == (Trip {
            levels: Seq::empty(),
            decided: Set::empty(),
            done: Seq::empty(),
            flows: Seq::empty(),
        }),
{
    reveal(underway);
    let depth = c0.stack.len() as int;
    let trip = Trip {
        levels: Seq::empty(),
        decided: Set::empty(),
        done: Seq::empty(),
        flows: Seq::empty(),
    };
    assert forall|over: Set<int>| agree(over, trip.decided, c0.at) implies #[trigger] visits(
        d,
        c0,
        over,
    ) == trip.done + through_visits(d, c0, depth, trip.levels, over) by {
        assert(trip.done + visits(d, c0, over) =~= visits(d, c0, over));
    }
    assert(c0.stack.skip(depth) =~= Seq::<bool>::empty());
    trip
}

proof fn lemma_trip_look(d: Doc, c0: Cursor, c: Cursor, depth: int, cap: nat, p: Seq<u8>, trip: Trip)
    requires
        coherent(d, c),
        !(c.state is InStr),
        0 <= depth < c.stack.len(),
        look(d, c) is Ok,
        passed(d, c0, c, depth, cap, p, trip),
    ensures
        underway(d, c0, look(d, c)->Ok_0.1, depth, cap, p, trip),
{
    reveal(underway);
    reveal(passed);
    lemma_look(d, c);
    lemma_next_token(d.bytes, c.at, c.state, d.multi);
    let c1 = look(d, c)->Ok_0.1;
    lemma_look_on(d, c0, c, depth, trip.levels, trip.decided, trip.done);
    if drain_fits(d, c, depth, trip.levels, cap) {
        lemma_fits_look(d, c, depth, trip.levels, cap);
    }
    assert(c1.state == c.state || crate::grammar::separator(
        c.state,
        d.bytes[crate::grammar::skip_space(d.bytes, c.at)],
    ) == Some(c1.state));
}

proof fn lemma_trip_key(d: Doc, c0: Cursor, c: Cursor, depth: int, cap: nat, p: Seq<u8>, trip: Trip)
    requires
        coherent(d, c),
        0 <= depth < c.stack.len(),
        look(d, c) == Ok::<(Token, Cursor), Fault>((Token::Key, c)),
        underway(d, c0, c, depth, cap, p, trip),
    ensures
        value_fits(d.bytes, c0.at, room(d, c0), Seq::empty(), cap) ==> p.len() + 1 <= cap,
        trip.levels.len() == c.stack.len() - depth,
        p == trip.levels.last().path,
        text(d.bytes, c.at + 1) matches Ok((k, name)) ==> {
            let q = child(p, pointer_escape(name));
            &&& value_fits(d.bytes, c0.at, room(d, c0), Seq::empty(), cap) ==> q.len() <= cap
            &&& valid_utf8(name) ==> passed(
                d,
                c0,
                past_string(c, true, k),
                depth,
                cap,
                q,
                Trip { levels: keyed(trip.levels, name), ..trip },
            )
        },
{
    reveal(underway);
    reveal(passed);
    lemma_look(d, c);
    let levels = trip.levels;
    assert(levels.len() > 0);
    if drain_fits(d, c, depth, levels, cap) {
        lemma_fits_key(d, c, depth, levels, cap);
    }
    if text(d.bytes, c.at + 1) is Ok {
        let (k, name) = text(d.bytes, c.at + 1)->Ok_0;
        if valid_utf8(name) {
            lemma_key_on(d, c0, c, depth, levels, trip.decided, trip.done);
            lemma_pointer_escape(name);
            lemma_pointer_utf8(name);
            lemma_child_utf8(p, pointer_escape(name));
            let more = keyed(levels, name);
            assert(more.last().path == levels.last().path);
            assert(linked(more, c.stack.skip(depth))) by {
                let kinds = c.stack.skip(depth);
                assert forall|j: int| 0 <= j < more.len() - 1 implies link(
                    #[trigger] more[j],
                    kinds[j],
                    more[j + 1].path,
                ) by {
                    assert(link(levels[j], kinds[j], levels[j + 1].path));
                }
            }
        }
    }
}

/// The path of the value at the cursor, and how it comes from what the buffer holds.
proof fn lemma_trip_here(
    d: Doc,
    c0: Cursor,
    c: Cursor,
    depth: int,
    cap: nat,
    p: Seq<u8>,
    trip: Trip,
)
    requires
        coherent(d, c),
        0 <= depth <= c.stack.len(),
        look(d, c) matches Ok((t, c1)) && c1 == c && starts_value(t),
        underway(d, c0, c, depth, cap, p, trip),
    ensures
        valid_utf8(path_here(trip.levels, c.state)),
        trip.levels.len() == c.stack.len() - depth,
        if c.stack.len() > depth && c.stack.last() == false {
            let l = trip.levels.last();
            &&& path_here(trip.levels, c.state) == child(l.path, decimal(l.n))
            &&& (c.state == State::ArrFirst) == (l.n == 0)
            &&& p == (if l.n == 0 {
                l.path
            } else {
                child(l.path, decimal((l.n - 1) as nat))
            })
            &&& value_fits(d.bytes, c0.at, room(d, c0), Seq::empty(), cap) ==> element_fits(l, cap)
        } else {
            p == path_here(trip.levels, c.state)
        },
{
    reveal(underway);
    lemma_look(d, c);
    if c.stack.len() > depth {
        let l = trip.levels.last();
        lemma_decimal_token(l.n);
        lemma_child_utf8(l.path, decimal(l.n));
        if drain_fits(d, c, depth, trip.levels, cap) {
            lemma_fits_value(d, c, depth, trip.levels, cap);
        }
    }
}

/// What the path buffer holds after a value, once the name of a member is taken off.
spec fn trimmed(c: Cursor, depth: int, p: Seq<u8>) -> Seq<u8> {
    if c.stack.len() > depth && c.stack.last() {
        p.subrange(0, last_slash(p))
    } else {
        p
    }
}

proof fn lemma_bumped_links(levels: Seq<Level>, kinds: Seq<bool>)
    requires
        linked(levels, kinds),
        levels.len() > 0,
    ensures
        linked(bumped(levels), kinds),
{
    let more = bumped(levels);
    assert forall|j: int| 0 <= j < more.len() - 1 implies link(
        #[trigger] more[j],
        kinds[j],
        more[j + 1].path,
    ) by {
        assert(link(levels[j], kinds[j], levels[j + 1].path));
    }
}

proof fn lemma_trip_enter(
    d: Doc,
    c0: Cursor,
    c: Cursor,
    t: Token,
    depth: int,
    cap: nat,
    p: Seq<u8>,
    trip: Trip,
    flow: Flow,
)
    requires
        coherent(d, c),
        0 <= depth <= c.stack.len(),
        look(d, c) == Ok::<(Token, Cursor), Fault>((t, c)),
        is_container(t),
        room(d, c) > 0,
        underway(d, c0, c, depth, cap, p, trip),
    ensures
        ({
            let here = path_here(trip.levels, c.state);
            let next = Trip {
                levels: levels_past(trip.levels).push(fresh(here)),
                decided: trip.decided.remove(c.at),
                ..called(trip, Visit { path: here, token: t, at: c.at }, flow)
            };
            passed(d, c0, enter(d, c, t == Token::BeginObject)->Done_1, depth, cap, here, next)
        }),
{
    lemma_trip_here(d, c0, c, depth, cap, p, trip);
    reveal(underway);
    reveal(passed);
    lemma_look(d, c);
    let levels = trip.levels;
    let here = path_here(levels, c.state);
    lemma_enter_on(d, c0, c, t, depth, levels, trip.decided, trip.done);
    if through_fits(d, c, depth, levels, cap) {
        lemma_fits_enter(d, c, t, depth, levels, cap);
    }
    let c1 = enter(d, c, t == Token::BeginObject)->Done_1;
    let kinds = c.stack.skip(depth);
    assert(c1.stack.skip(depth) =~= kinds.push(t == Token::BeginObject));
    let outer = levels_past(levels);
    if levels.len() > 0 {
        lemma_bumped_links(levels, kinds);
        assert(kinds.last() == c.stack.last());
        assert(link(outer.last(), kinds.last(), here));
    }
    let more = outer.push(fresh(here));
    let all = kinds.push(t == Token::BeginObject);
    assert forall|j: int| 0 <= j < more.len() - 1 implies link(
        #[trigger] more[j],
        all[j],
        more[j + 1].path,
    ) by {
        if j < outer.len() - 1 {
            assert(link(outer[j], kinds[j], outer[j + 1].path));
        }
    }
}

proof fn lemma_trip_over(
    d: Doc,
    c0: Cursor,
    c: Cursor,
    t: Token,
    depth: int,
    cap: nat,
    p: Seq<u8>,
    trip: Trip,
    flow: Flow,
)
    requires
        coherent(d, c),
        0 <= depth <= c.stack.len(),
        look(d, c) == Ok::<(Token, Cursor), Fault>((t, c)),
        starts_value(t),
        value(d.bytes, c.at, room(d, c)) is Ok,
        underway(d, c0, c, depth, cap, p, trip),
    ensures
        ({
            let here = path_here(trip.levels, c.state);
            let c1 = past_value(c, value(d.bytes, c.at, room(d, c))->Ok_0);
            let next = Trip {
                levels: levels_past(trip.levels),
                decided: trip.decided.insert(c.at),
                ..called(trip, Visit { path: here, token: t, at: c.at }, flow)
            };
            &&& passed(d, c0, c1, depth, cap, trimmed(c1, depth, here), next)
            &&& 0 <= last_slash(here) <= here.len()
        }),
{
    lemma_trip_here(d, c0, c, depth, cap, p, trip);
    reveal(underway);
    reveal(passed);
    lemma_look(d, c);
    let levels = trip.levels;
    let here = path_here(levels, c.state);
    lemma_over_on(d, c0, c, t, depth, levels, trip.decided, trip.done);
    lemma_last_slash_bound(here);
    let c1 = past_value(c, value(d.bytes, c.at, room(d, c))->Ok_0);
    if levels.len() > 0 {
        let l = levels.last();
        lemma_bumped_links(levels, c.stack.skip(depth));
        if drain_fits(d, c, depth, levels, cap) {
            lemma_fits_value(d, c, depth, levels, cap);
        }
        if c.stack.last() {
            lemma_last_slash(l.path, l.key);
            assert(here.subrange(0, l.path.len() as int) =~= l.path);
        }
    }
}

proof fn lemma_last_slash_bound(p: Seq<u8>)
    ensures
        0 <= last_slash(p) <= p.len(),
    decreases p.len(),
{
    if p.len() > 0 && p.last() != SLASH {
        lemma_last_slash_bound(p.drop_last());
    }
}

/// What the path buffer holds at the end of a container, once the last index is taken off.
spec fn container_path(c: Cursor, t: Token, p: Seq<u8>) -> Seq<u8> {
    if t == Token::EndArray && c.state == State::ArrComma {
        p.subrange(0, last_slash(p))
    } else {
        p
    }
}

proof fn lemma_trip_end(
    d: Doc,
    c0: Cursor,
    c: Cursor,
    t: Token,
    depth: int,
    cap: nat,
    p: Seq<u8>,
    trip: Trip,
    flow: Flow,
)
    requires
        coherent(d, c),
        0 <= depth < c.stack.len(),
        look(d, c) == Ok::<(Token, Cursor), Fault>((t, c)),
        t == Token::EndObject || t == Token::EndArray,
        underway(d, c0, c, depth, cap, p, trip),
    ensures
        ({
            let here = trip.levels.last().path;
            let c1 = leave(c, c.at + 1);
            let next = Trip {
                levels: trip.levels.drop_last(),
                ..called(trip, Visit { path: here, token: t, at: c.at }, flow)
            };
            &&& container_path(c, t, p) == here
            &&& valid_utf8(here)
            &&& trip.levels.len() == c.stack.len() - depth
            &&& passed(d, c0, c1, depth, cap, trimmed(c1, depth, here), next)
            &&& 0 <= last_slash(here) <= here.len()
        }),
{
    reveal(underway);
    reveal(passed);
    lemma_look(d, c);
    let levels = trip.levels;
    let l = levels.last();
    let here = l.path;
    lemma_end_on(d, c0, c, t, depth, levels, trip.decided, trip.done);
    lemma_last_slash_bound(here);
    if c.state == State::ArrComma {
        lemma_decimal_token((l.n - 1) as nat);
        lemma_last_slash(l.path, decimal((l.n - 1) as nat));
        assert(p.subrange(0, l.path.len() as int) =~= l.path);
    }
    if drain_fits(d, c, depth, levels, cap) {
        lemma_fits_end(d, c, t, depth, levels, cap);
    }
    let c1 = leave(c, c.at + 1);
    let kinds = c.stack.skip(depth);
    assert(c1.stack.skip(depth) =~= kinds.drop_last());
    let outer = levels.drop_last();
    assert(linked(outer, kinds.drop_last())) by {
        assert forall|j: int| 0 <= j < outer.len() - 1 implies link(
            #[trigger] outer[j],
            kinds.drop_last()[j],
            outer[j + 1].path,
        ) by {
            assert(link(levels[j], kinds[j], levels[j + 1].path));
        }
    }
    if outer.len() > 0 {
        let j = outer.len() - 1;
        assert(link(levels[j], kinds[j], levels[j + 1].path));
        assert(outer.last() == levels[j]);
        assert(kinds[j] == c1.stack.last());
        if c1.stack.last() {
            lemma_last_slash(outer.last().path, outer.last().key);
            assert(here.subrange(0, outer.last().path.len() as int) =~= outer.last().path);
        }
    }
}

/// One more call is logged.
proof fn lemma_logged<S: Source, const N: usize, F: FnMut(&mut Node<'_, S, N>) -> Res<Flow, S>>(
    f: F,
    trip: Trip,
    at: int,
    cap: nat,
    d: Doc,
    feed: Feed,
    v: Visit,
    flow: Flow,
    levels: Seq<Level>,
    decided: Set<int>,
    next: int,
)
    requires
        logged::<S, N, F>(f, trip, at, cap, d, feed),
        forall|k: int|
            #![trigger trip.flows[k]]
            0 <= k < trip.flows.len() ==> trip.flows[k] != Flow::Stop && exists|
                n: &mut Node<'_, S, N>,
            |
                {
                    &&& #[trigger] call_ensures(f, (n,), Ok(trip.flows[k]))
                    &&& handed(*n, trip.done[k], d, feed)
                    &&& spared(
                        trip.done[k],
                        trip.flows[k],
                        (*final(n)).inner().cursor(),
                        trip.decided.contains(trip.done[k].at),
                    )
                },
        exists|n: &mut Node<'_, S, N>|
            {
                &&& #[trigger] call_ensures(f, (n,), Ok(flow))
                &&& handed(*n, v, d, feed)
                &&& spared(v, flow, (*final(n)).inner().cursor(), decided.contains(at))
            },
        flow != Flow::Stop,
        v.path.len() <= cap,
        v.at == at < next,
        forall|q: int| q < at ==> (#[trigger] decided.contains(q) <==> trip.decided.contains(q)),
    ensures
        ({
            let more = Trip { levels, decided, ..called(trip, v, flow) };
            &&& logged::<S, N, F>(f, more, next, cap, d, feed)
            &&& forall|k: int|
                    #![trigger more.flows[k]]
                    0 <= k < more.flows.len() ==> more.flows[k] != Flow::Stop && exists|
                        n: &mut Node<'_, S, N>,
                    |
                        {
                            &&& #[trigger] call_ensures(f, (n,), Ok(more.flows[k]))
                            &&& handed(*n, more.done[k], d, feed)
                            &&& spared(
                                more.done[k],
                                more.flows[k],
                                (*final(n)).inner().cursor(),
                                more.decided.contains(more.done[k].at),
                            )
                        }
        }),
{
    reveal(logged);
    reveal(visited);
    let more = Trip { levels, decided, ..called(trip, v, flow) };
    assert forall|k: int|
        #![trigger more.flows[k]]
        0 <= k < more.flows.len() implies visited::<S, N, F>(
        f,
        more.done[k],
        more.flows[k],
        cap,
        d,
        feed,
    ) && more.flows[k] != Flow::Stop && more.done[k].at < next by {
        if k < trip.flows.len() {
            assert(more.flows[k] == trip.flows[k]);
        }
    }
    assert forall|k: int|
        #![trigger more.flows[k]]
        0 <= k < more.flows.len() implies more.flows[k] != Flow::Stop && exists|
        n: &mut Node<'_, S, N>,
    |
        {
            &&& #[trigger] call_ensures(f, (n,), Ok(more.flows[k]))
            &&& handed(*n, more.done[k], d, feed)
            &&& spared(
                more.done[k],
                more.flows[k],
                (*final(n)).inner().cursor(),
                more.decided.contains(more.done[k].at),
            )
        } by {
        if k < trip.flows.len() {
            assert(more.flows[k] == trip.flows[k]);
            assert(more.done[k] == trip.done[k]);
            assert(decided.contains(trip.done[k].at) <==> trip.decided.contains(trip.done[k].at));
        } else {
            assert(more.flows[k] == flow);
            assert(more.done[k] == v);
        }
    }
}

/// A log stays one when the walk moves on.
proof fn lemma_logged_on<
    S: Source,
    const N: usize,
    F: FnMut(&mut Node<'_, S, N>) -> Res<Flow, S>,
>(f: F, trip: Trip, at: int, cap: nat, d: Doc, feed: Feed, levels: Seq<Level>, next: int)
    requires
        logged::<S, N, F>(f, trip, at, cap, d, feed),
        at <= next,
    ensures
        logged::<S, N, F>(f, Trip { levels, ..trip }, next, cap, d, feed),
{
    reveal(logged);
    let more = Trip { levels, ..trip };
    assert forall|k: int|
        #![trigger more.flows[k]]
        0 <= k < more.flows.len() implies visited::<S, N, F>(
        f,
        more.done[k],
        more.flows[k],
        cap,
        d,
        feed,
    ) && more.flows[k] != Flow::Stop && more.done[k].at < next by {
        assert(more.flows[k] == trip.flows[k]);
    }
}

/// A trip that the callback ends has made the first calls.
proof fn lemma_trip_stop<S: Source, const N: usize, F: FnMut(&mut Node<'_, S, N>) -> Res<Flow, S>>(
    f: F,
    d: Doc,
    c0: Cursor,
    c: Cursor,
    t: Token,
    depth: int,
    cap: nat,
    p: Seq<u8>,
    trip: Trip,
    v: Visit,
    end: Ended<Error<S::Error>>,
    feed: Feed,
)
    requires
        coherent(d, c),
        0 <= depth <= c.stack.len(),
        depth == c.stack.len() ==> starts_value(t),
        look(d, c) == Ok::<(Token, Cursor), Fault>((t, c)),
        starts_value(t) || t == Token::EndObject || t == Token::EndArray,
        underway(d, c0, c, depth, cap, p, trip),
        logged::<S, N, F>(f, trip, c.at, cap, d, feed),
        v == (Visit {
            path: if starts_value(t) {
                path_here(trip.levels, c.state)
            } else {
                trip.levels.last().path
            },
            token: t,
            at: c.at,
        }),
        match end {
            Ended::Whole => false,
            Ended::Stopped => visited::<S, N, F>(f, v, Flow::Stop, cap, d, feed),
            Ended::Failed(e) => failed::<S, N, F>(f, v, e, cap, d, feed),
        },
        forall|k: int|
            #![trigger trip.flows[k]]
            0 <= k < trip.flows.len() ==> trip.flows[k] != Flow::Stop && exists|
                n: &mut Node<'_, S, N>,
            |
                {
                    &&& #[trigger] call_ensures(f, (n,), Ok(trip.flows[k]))
                    &&& handed(*n, trip.done[k], d, feed)
                    &&& spared(
                        trip.done[k],
                        trip.flows[k],
                        (*final(n)).inner().cursor(),
                        trip.decided.contains(trip.done[k].at),
                    )
                },
    ensures
        visits(d, c0, trip.decided)[trip.flows.len() as int] == v,
        forall|k: int|
            #![trigger trip.flows[k]]
            0 <= k < trip.flows.len() ==> trip.flows[k] != Flow::Stop && exists|
                n: &mut Node<'_, S, N>,
            |
                {
                    &&& #[trigger] call_ensures(f, (n,), Ok(trip.flows[k]))
                    &&& handed(*n, visits(d, c0, trip.decided)[k], d, feed)
                    &&& spared(
                        visits(d, c0, trip.decided)[k],
                        trip.flows[k],
                        (*final(n)).inner().cursor(),
                        trip.decided.contains(visits(d, c0, trip.decided)[k].at),
                    )
                },
        toured::<S, N, F>(
            f,
            visits(d, c0, trip.decided),
            trip.flows,
            end,
            cap,
            d,
            feed,
        ),
{
    reveal(underway);
    reveal(logged);
    lemma_next_visit(d, c0, c, t, depth, trip.levels, trip.decided, trip.done);
    let all = visits(d, c0, trip.decided);
    let flows = trip.flows;
    let first = all.subrange(0, trip.done.len() as int + 1);
    assert(first[trip.done.len() as int] == all[flows.len() as int]);
    assert forall|k: int|
        #![trigger flows[k]]
        0 <= k < flows.len() implies k < all.len() && visited::<S, N, F>(
        f,
        all[k],
        flows[k],
        cap,
        d,
        feed,
    ) && flows[k] != Flow::Stop by {
        assert(first[k] == all[k]);
    }
    assert forall|k: int|
        #![trigger flows[k]]
        0 <= k < flows.len() implies flows[k] != Flow::Stop && exists|
        n: &mut Node<'_, S, N>,
    |
        {
            &&& #[trigger] call_ensures(f, (n,), Ok(flows[k]))
            &&& handed(*n, all[k], d, feed)
            &&& spared(
                all[k],
                flows[k],
                (*final(n)).inner().cursor(),
                trip.decided.contains(all[k].at),
            )
        } by {
        assert(first[k] == all[k]);
    }
}

/// A trip that comes to its end has made all calls.
proof fn lemma_trip_whole<
    S: Source,
    const N: usize,
    F: FnMut(&mut Node<'_, S, N>) -> Res<Flow, S>,
>(
    f: F,
    d: Doc,
    c0: Cursor,
    c: Cursor,
    depth: int,
    cap: nat,
    p: Seq<u8>,
    trip: Trip,
    at: int,
    feed: Feed,
)
    requires
        c.stack.len() == depth,
        passed(d, c0, c, depth, cap, p, trip),
        logged::<S, N, F>(f, trip, at, cap, d, feed),
        forall|k: int|
            #![trigger trip.flows[k]]
            0 <= k < trip.flows.len() ==> trip.flows[k] != Flow::Stop && exists|
                n: &mut Node<'_, S, N>,
            |
                {
                    &&& #[trigger] call_ensures(f, (n,), Ok(trip.flows[k]))
                    &&& handed(*n, trip.done[k], d, feed)
                    &&& spared(
                        trip.done[k],
                        trip.flows[k],
                        (*final(n)).inner().cursor(),
                        trip.decided.contains(trip.done[k].at),
                    )
                },
    ensures
        forall|k: int|
            #![trigger trip.flows[k]]
            0 <= k < trip.flows.len() ==> trip.flows[k] != Flow::Stop && exists|
                n: &mut Node<'_, S, N>,
            |
                {
                    &&& #[trigger] call_ensures(f, (n,), Ok(trip.flows[k]))
                    &&& handed(*n, visits(d, c0, trip.decided)[k], d, feed)
                    &&& spared(
                        visits(d, c0, trip.decided)[k],
                        trip.flows[k],
                        (*final(n)).inner().cursor(),
                        trip.decided.contains(visits(d, c0, trip.decided)[k].at),
                    )
                },
        toured::<S, N, F>(
            f,
            visits(d, c0, trip.decided),
            trip.flows,
            Ended::Whole,
            cap,
            d,
            feed,
        ),
{
    reveal(passed);
    reveal(logged);
    assert(agree(trip.decided, trip.decided, c.at));
    assert(trip.done + Seq::<Visit>::empty() =~= trip.done);
    assert(visits(d, c0, trip.decided) == trip.done);
}

/// A walk of the value at `c0`, of whose calls `made` were made, stands in front of a token at `c`,
/// in the containers `levels`, and the next path does not fit in `cap` bytes. That is found at
/// `offset`: behind the opening quote of a key if there is no room for a `/`, behind the key if there
/// is none for the name, and in front of an element.
pub open spec fn stuck(
    d: Doc,
    c0: Cursor,
    over: Set<int>,
    made: nat,
    c: Cursor,
    levels: Seq<Level>,
    cap: nat,
    origin: int,
    offset: int,
) -> bool {
    let at = offset - origin;
    let depth = c0.stack.len() as int;
    let all = visits(d, c0, over);
    let l = levels.last();
    &&& made <= all.len()
    &&& all.skip(made as int) == through_visits(d, c, depth, levels, over)
    &&& levels.len() == c.stack.len() - depth > 0
    &&& look(d, c) matches Ok((t, x)) && x == c && if t == Token::Key {
        if l.path.len() >= cap {
            at == c.at + 1
        } else {
            text(d.bytes, c.at + 1) matches Ok((k, name)) && child(
                l.path,
                pointer_escape(name),
            ).len() > cap && at == k
        }
    } else {
        starts_value(t) && c.stack.last() == false && !element_fits(l, cap) && at == c.at
    }
}

/// A walk of the value at `c` comes, after the answers that it got, to a path that does not fit.
pub open spec fn no_room<S: Source, const N: usize, F: FnMut(&mut Node<'_, S, N>) -> Res<Flow, S>>(
    f: F,
    d: Doc,
    c: Cursor,
    cap: nat,
    feed: Feed,
    offset: int,
) -> bool {
    exists|over: Set<int>, flows: Seq<Flow>, c1: Cursor, levels: Seq<Level>|
        {
            &&& #[trigger] answered::<S, N, F>(f, visits(d, c, over), flows, cap, d, feed)
            &&& #[trigger] stuck(
                d,
                c,
                over,
                flows.len(),
                c1,
                levels,
                cap,
                feed.origin,
                offset,
            )
        }
}

/// The error `e` ends a walk of the value at `c`: the callback gave it, or reading failed, or it is
/// the fault that `goal` tells of, or a path does not fit.
pub open spec fn broke<S: Source, const N: usize, F: FnMut(&mut Node<'_, S, N>) -> Res<Flow, S>>(
    f: F,
    e: Error<S::Error>,
    d: Doc,
    c: Cursor,
    goal: Result<Cursor, Fault>,
    cap: nat,
    feed: Feed,
) -> bool {
    ||| exists|over: Set<int>, flows: Seq<Flow>| #[trigger]
        toured::<S, N, F>(f, visits(d, c, over), flows, Ended::Failed(e), cap, d, feed)
    ||| match e {
        Error::Io(_) => !feed.reliable,
        Error::Json { kind, offset } => {
            ||| goal matches Err(x) && kind == x.kind && offset == feed.origin + x.at
            ||| {
                &&& kind == ErrorKind::PathTooLong
                &&& !value_fits(d.bytes, c.at, room(d, c), Seq::empty(), cap)
                &&& no_room::<S, N, F>(f, d, c, cap, feed, offset as int)
            }
        },
    }
}

/// What a walk from `c` on, with room for paths of `cap` bytes, gave, and where it left the parser,
/// but for the calls that it made.
pub open spec fn walked<S: Source, const N: usize, F: FnMut(&mut Node<'_, S, N>) -> Res<Flow, S>>(
    f: F,
    d: Doc,
    c: Cursor,
    feed: Feed,
    cap: nat,
    r: Result<bool, Error<S::Error>>,
    after: Cursor,
) -> bool {
    match look(d, c) {
        Err(x) => r matches Err(e) && match e {
            Error::Io(_) => !feed.reliable,
            Error::Json { kind, offset } => kind == x.kind && offset == feed.origin + x.at,
        },
        Ok((t, c1)) => if !starts_value(t) {
            r matches Err(e) && match e {
                Error::Io(_) => !feed.reliable,
                Error::Json { kind, offset } => kind == ErrorKind::UnexpectedToken(t) && offset
                    == feed.origin + c1.at && after == c1,
            }
        } else {
            match r {
                Ok(whole) => whole ==> through(d, c1, c1.stack.len() as int) == Ok::<Cursor, Fault>(
                    after,
                ),
                Err(e) => broke::<S, N, F>(
                    f,
                    e,
                    d,
                    c1,
                    through(d, c1, c1.stack.len() as int),
                    cap,
                    feed,
                ),
            }
        },
    }
}

/// Where the next token is met.
pub open spec fn met(d: Doc, c: Cursor) -> Cursor {
    look(d, c)->Ok_0.1
}

/// A trip whose next path does not fit breaks off there.
proof fn lemma_trip_stuck<
    S: Source,
    const N: usize,
    F: FnMut(&mut Node<'_, S, N>) -> Res<Flow, S>,
>(
    f: F,
    d: Doc,
    c0: Cursor,
    c: Cursor,
    t: Token,
    cap: nat,
    p: Seq<u8>,
    trip: Trip,
    feed: Feed,
    offset: u64,
    goal: Result<Cursor, Fault>,
)
    requires
        underway(d, c0, c, c0.stack.len() as int, cap, p, trip),
        logged::<S, N, F>(f, trip, c.at, cap, d, feed),
        !value_fits(d.bytes, c0.at, room(d, c0), Seq::empty(), cap),
        look(d, c) == Ok::<(Token, Cursor), Fault>((t, c)),
        trip.levels.len() == c.stack.len() - c0.stack.len() > 0,
        ({
            let l = trip.levels.last();
            let at = offset - feed.origin;
            if t == Token::Key {
                if l.path.len() >= cap {
                    at == c.at + 1
                } else {
                    text(d.bytes, c.at + 1) matches Ok((k, name)) && child(
                        l.path,
                        pointer_escape(name),
                    ).len() > cap && at == k
                }
            } else {
                starts_value(t) && c.stack.last() == false && !element_fits(l, cap) && at == c.at
            }
        }),
    ensures
        broke::<S, N, F>(
            f,
            Error::Json { kind: ErrorKind::PathTooLong, offset },
            d,
            c0,
            goal,
            cap,
            feed,
        ),
{
    reveal(underway);
    reveal(logged);
    let all = visits(d, c0, trip.decided);
    let flows = trip.flows;
    let more = through_visits(d, c, c0.stack.len() as int, trip.levels, trip.decided);
    assert(agree(trip.decided, trip.decided, c.at));
    assert(all == trip.done + more);
    assert(all.skip(flows.len() as int) =~= more);
    assert forall|k: int|
        #![trigger flows[k]]
        0 <= k < flows.len() implies k < all.len() && visited::<S, N, F>(
        f,
        all[k],
        flows[k],
        cap,
        d,
        feed,
    ) && flows[k] != Flow::Stop by {
        assert(all[k] == trip.done[k]);
    }
    assert(answered::<S, N, F>(f, visits(d, c0, trip.decided), flows, cap, d, feed));
    assert(stuck(
        d,
        c0,
        trip.decided,
        flows.len(),
        c,
        trip.levels,
        cap,
        feed.origin,
        offset as int,
    ));
    assert(no_room::<S, N, F>(f, d, c0, cap, feed, offset as int));
}

/// What became of a token.
enum Went {
    /// The callback stopped the walk.
    Stopped,
    /// A container was entered.
    Inside,
    /// A value is complete.
    Past,
}

impl<S: Source, const N: usize> Parser<S, N> {
    /// Calls `f` for a node, and gives `f` back with its answer.
    fn call<F>(
        &mut self,
        f: F,
        path: &str,
        token: Token,
        offset: u64,
        Ghost(v): Ghost<Visit>,
        Ghost(cap): Ghost<nat>,
    ) -> (r: (F, Res<Flow, S>)) where F: FnMut(&mut Node<'_, S, N>) -> Res<Flow, S>
        requires
            old(self).wf(),
            forall|n: &mut Node<'_, S, N>| (*n).inner().wf() ==> #[trigger] call_requires(f, (n,)),
            forall|n: &mut Node<'_, S, N>, x: Res<Flow, S>| #[trigger]
                call_ensures(f, (n,), x) && (*n).inner().wf() ==> {
                    &&& *final((*final(n)).inner()) == *final((*n).inner())
                    &&& (*final(n)).inner().wf()
                    &&& x is Ok ==> {
                        &&& (*final(n)).inner().follows(&*(*n).inner())
                        &&& stays(
                            (*n).inner().doc(),
                            (*n).kind(),
                            (*n).inner().cursor(),
                            (*final(n)).inner().cursor(),
                        )
                    }
                },
            path.spec_bytes() == v.path,
            v.path.len() <= cap,
            token == v.token,
            offset == old(self).feed().origin + v.at,
            old(self).cursor().at == (if starts_value(token) {
                v.at
            } else {
                v.at + 1
            }),
        ensures
            r.0 == f,
            final(self).wf(),
            match r.1 {
                Ok(flow) => {
                    &&& final(self).follows(&*old(self))
                    &&& stays(old(self).doc(), token, old(self).cursor(), final(self).cursor())
                    &&& visited::<S, N, F>(f, v, flow, cap, old(self).doc(), old(self).feed())
                    &&& exists|n: &mut Node<'_, S, N>|
                        {
                            &&& #[trigger] call_ensures(f, (n,), Ok(flow))
                            &&& handed(*n, v, old(self).doc(), old(self).feed())
                            &&& (*final(n)).inner().cursor() == final(self).cursor()
                        }
                },
                Err(e) => failed::<S, N, F>(f, v, e, cap, old(self).doc(), old(self).feed()),
            },
    {
        proof {
            reveal(visited);
            reveal(failed);
        }
        let mut g = f;
        let mut node = Node { parser: &mut *self, path, token, offset };
        let x = g(&mut node);
        (g, x)
    }

    /// Visits the end of a container.
    fn walk_end<F>(
        &mut self,
        f: F,
        path: &mut [u8],
        len: usize,
        t: Token,
        Ghost(c0): Ghost<Cursor>,
        Ghost(depth): Ghost<int>,
        Ghost(trip): Ghost<Trip>,
    ) -> (r: (F, usize, Res<Went, S>, Ghost<Trip>)) where
        F: FnMut(&mut Node<'_, S, N>) -> Res<Flow, S>,

        requires
            old(self).wf(),
            old(self).ready(),
            forall|n: &mut Node<'_, S, N>| (*n).inner().wf() ==> #[trigger] call_requires(f, (n,)),
            forall|n: &mut Node<'_, S, N>, x: Res<Flow, S>| #[trigger]
                call_ensures(f, (n,), x) && (*n).inner().wf() ==> {
                    &&& *final((*final(n)).inner()) == *final((*n).inner())
                    &&& (*final(n)).inner().wf()
                    &&& x is Ok ==> {
                        &&& (*final(n)).inner().follows(&*(*n).inner())
                        &&& stays(
                            (*n).inner().doc(),
                            (*n).kind(),
                            (*n).inner().cursor(),
                            (*final(n)).inner().cursor(),
                        )
                    }
                },
            look(old(self).doc(), old(self).cursor()) == Ok::<(Token, Cursor), Fault>(
                (t, old(self).cursor()),
            ),
            t == Token::EndObject || t == Token::EndArray,
            0 <= depth < old(self).cursor().stack.len(),
            len <= old(path)@.len(),
            underway(
                old(self).doc(),
                c0,
                old(self).cursor(),
                depth,
                old(path)@.len(),
                old(path)@.subrange(0, len as int),
                trip,
            ),
            logged::<S, N, F>(
                f,
                trip,
                old(self).cursor().at,
                old(path)@.len(),
                old(self).doc(),
                old(self).feed(),
            ),
            forall|k: int|
                #![trigger trip.flows[k]]
                0 <= k < trip.flows.len() ==> trip.flows[k] != Flow::Stop && exists|
                    n: &mut Node<'_, S, N>,
                |
                    {
                        &&& #[trigger] call_ensures(f, (n,), Ok(trip.flows[k]))
                        &&& handed(*n, trip.done[k], old(self).doc(), old(self).feed())
                        &&& spared(
                            trip.done[k],
                            trip.flows[k],
                            (*final(n)).inner().cursor(),
                            trip.decided.contains(trip.done[k].at),
                        )
                    },
        ensures
            r.0 == f,
            final(path)@.len() == old(path)@.len(),
            r.1 <= final(path)@.len(),
            final(self).wf(),
            ({
                let d = old(self).doc();
                let feed = old(self).feed();
                let cap = old(path)@.len();
                match r.2 {
                    Ok(Went::Stopped) => {
                        &&& final(self).follows(&*old(self))
                        &&& toured::<S, N, F>(
                            f,
                            visits(d, c0, r.3@.decided),
                            r.3@.flows,
                            Ended::Stopped,
                            cap,
                            d,
                            feed,
                        )
                        &&& exists|n: &mut Node<'_, S, N>|
                            {
                                &&& #[trigger] call_ensures(f, (n,), Ok(Flow::Stop))
                                &&& handed(
                                    *n,
                                    visits(d, c0, r.3@.decided)[r.3@.flows.len() as int],
                                    d,
                                    feed,
                                )
                                &&& (*final(n)).inner().cursor() == final(self).cursor()
                            }
                        &&& forall|k: int|
                                #![trigger r.3@.flows[k]]
                                0 <= k < r.3@.flows.len() ==> r.3@.flows[k] != Flow::Stop && exists|
                                    n: &mut Node<'_, S, N>,
                                |
                                    {
                                        &&& #[trigger] call_ensures(f, (n,), Ok(r.3@.flows[k]))
                                        &&& handed(*n, visits(d, c0, r.3@.decided)[k], d, feed)
                                        &&& spared(
                                            visits(d, c0, r.3@.decided)[k],
                                            r.3@.flows[k],
                                            (*final(n)).inner().cursor(),
                                            r.3@.decided.contains(visits(d, c0, r.3@.decided)[k].at),
                                        )
                                    }
                    },
                    Ok(Went::Inside) => false,
                    Ok(Went::Past) => {
                        let c = final(self).cursor();
                        &&& final(self).follows(&*old(self))
                        &&& c == leave(old(self).cursor(), old(self).cursor().at + 1)
                        &&& passed(
                            d,
                            c0,
                            c,
                            depth,
                            old(path)@.len(),
                            trimmed(c, depth, final(path)@.subrange(0, r.1 as int)),
                            r.3@,
                        )
                        &&& logged::<S, N, F>(f, r.3@, c.at, cap, d, feed)
                        &&& forall|k: int|
                                #![trigger r.3@.flows[k]]
                                0 <= k < r.3@.flows.len() ==> r.3@.flows[k] != Flow::Stop && exists|
                                    n: &mut Node<'_, S, N>,
                                |
                                    {
                                        &&& #[trigger] call_ensures(f, (n,), Ok(r.3@.flows[k]))
                                        &&& handed(*n, r.3@.done[k], d, feed)
                                        &&& spared(
                                            r.3@.done[k],
                                            r.3@.flows[k],
                                            (*final(n)).inner().cursor(),
                                            r.3@.decided.contains(r.3@.done[k].at),
                                        )
                                    }
                    },
                    Err(e) => toured::<S, N, F>(
                        f,
                        visits(d, c0, trip.decided),
                        trip.flows,
                        Ended::Failed(e),
                        cap,
                        d,
                        feed,
                    ),
                }
            }),
    {
        let ghost d = self.doc();
        let ghost feed = self.feed();
        let ghost c = self.cursor();
        let ghost cap = path@.len();
        let ghost p = path@.subrange(0, len as int);
        let mut n = len;
        proof {
            lemma_look(d, c);
            lemma_trip_end(d, c0, c, t, depth, cap, p, trip, Flow::Continue);
            lemma_trip_end(d, c0, c, t, depth, cap, p, trip, Flow::Skip);
        }
        if t == Token::EndArray && self.state == State::ArrComma {
            n = pop_segment(path, len);
            assert(path@.subrange(0, n as int) =~= p.subrange(0, n as int));
        }
        let ghost v = Visit { path: trip.levels.last().path, token: t, at: c.at };
        let offset = self.offset();
        self.leave();
        let ghost c1 = self.cursor();
        let text = match from_utf8(slice_subrange(path, 0, n)) {
            Some(s) => s,
            None => "",
        };
        let (g, x) = self.call(f, text, t, offset, Ghost(v), Ghost(cap));
        let flow = match x {
            Ok(flow) => flow,
            Err(e) => {
                proof {
                    let end = Ended::Failed(e);
                    lemma_trip_stop::<S, N, F>(f, d, c0, c, t, depth, cap, p, trip, v, end, feed);
                }
                return (g, n, Err(e), Ghost(trip));
            },
        };
        if flow == Flow::Stop {
            proof {
                let end = Ended::Stopped;
                lemma_trip_stop::<S, N, F>(f, d, c0, c, t, depth, cap, p, trip, v, end, feed);
            }
            return (g, n, Ok(Went::Stopped), Ghost(trip));
        }
        let ghost levels = trip.levels.drop_last();
        let ghost next = Trip { levels, ..called(trip, v, flow) };
        proof {
            lemma_logged::<S, N, F>(
                f,
                trip,
                c.at,
                cap,
                d,
                feed,
                v,
                flow,
                levels,
                trip.decided,
                c1.at,
            );
        }
        (g, n, Ok(Went::Past), Ghost(next))
    }

    /// Visits a value, and enters or skips it.
    #[verifier::rlimit(40)]
    fn walk_value<F>(
        &mut self,
        f: F,
        path: &mut [u8],
        len: usize,
        t: Token,
        base: usize,
        Ghost(c0): Ghost<Cursor>,
        Ghost(trip): Ghost<Trip>,
    ) -> (r: (F, usize, Res<Went, S>, Ghost<Trip>)) where
        F: FnMut(&mut Node<'_, S, N>) -> Res<Flow, S>,

        requires
            old(self).wf(),
            old(self).ready(),
            forall|n: &mut Node<'_, S, N>| (*n).inner().wf() ==> #[trigger] call_requires(f, (n,)),
            forall|n: &mut Node<'_, S, N>, x: Res<Flow, S>| #[trigger]
                call_ensures(f, (n,), x) && (*n).inner().wf() ==> {
                    &&& *final((*final(n)).inner()) == *final((*n).inner())
                    &&& (*final(n)).inner().wf()
                    &&& x is Ok ==> {
                        &&& (*final(n)).inner().follows(&*(*n).inner())
                        &&& stays(
                            (*n).inner().doc(),
                            (*n).kind(),
                            (*n).inner().cursor(),
                            (*final(n)).inner().cursor(),
                        )
                    }
                },
            look(old(self).doc(), old(self).cursor()) == Ok::<(Token, Cursor), Fault>(
                (t, old(self).cursor()),
            ),
            starts_value(t),
            base == c0.stack.len(),
            base <= old(self).cursor().stack.len(),
            len <= old(path)@.len(),
            underway(
                old(self).doc(),
                c0,
                old(self).cursor(),
                base as int,
                old(path)@.len(),
                old(path)@.subrange(0, len as int),
                trip,
            ),
            logged::<S, N, F>(
                f,
                trip,
                old(self).cursor().at,
                old(path)@.len(),
                old(self).doc(),
                old(self).feed(),
            ),
            forall|k: int|
                #![trigger trip.flows[k]]
                0 <= k < trip.flows.len() ==> trip.flows[k] != Flow::Stop && exists|
                    n: &mut Node<'_, S, N>,
                |
                    {
                        &&& #[trigger] call_ensures(f, (n,), Ok(trip.flows[k]))
                        &&& handed(*n, trip.done[k], old(self).doc(), old(self).feed())
                        &&& spared(
                            trip.done[k],
                            trip.flows[k],
                            (*final(n)).inner().cursor(),
                            trip.decided.contains(trip.done[k].at),
                        )
                    },
        ensures
            r.0 == f,
            final(path)@.len() == old(path)@.len(),
            r.1 <= final(path)@.len(),
            final(self).wf(),
            ({
                let d = old(self).doc();
                let feed = old(self).feed();
                let c = old(self).cursor();
                let c1 = final(self).cursor();
                let p = final(path)@.subrange(0, r.1 as int);
                let cap = old(path)@.len();
                match r.2 {
                    Ok(Went::Stopped) => {
                        &&& final(self).follows(&*old(self))
                        &&& toured::<S, N, F>(
                            f,
                            visits(d, c0, r.3@.decided),
                            r.3@.flows,
                            Ended::Stopped,
                            cap,
                            d,
                            feed,
                        )
                        &&& exists|n: &mut Node<'_, S, N>|
                            {
                                &&& #[trigger] call_ensures(f, (n,), Ok(Flow::Stop))
                                &&& handed(
                                    *n,
                                    visits(d, c0, r.3@.decided)[r.3@.flows.len() as int],
                                    d,
                                    feed,
                                )
                                &&& (*final(n)).inner().cursor() == final(self).cursor()
                            }
                        &&& forall|k: int|
                                #![trigger r.3@.flows[k]]
                                0 <= k < r.3@.flows.len() ==> r.3@.flows[k] != Flow::Stop && exists|
                                    n: &mut Node<'_, S, N>,
                                |
                                    {
                                        &&& #[trigger] call_ensures(f, (n,), Ok(r.3@.flows[k]))
                                        &&& handed(*n, visits(d, c0, r.3@.decided)[k], d, feed)
                                        &&& spared(
                                            visits(d, c0, r.3@.decided)[k],
                                            r.3@.flows[k],
                                            (*final(n)).inner().cursor(),
                                            r.3@.decided.contains(visits(d, c0, r.3@.decided)[k].at),
                                        )
                                    }
                    },
                    Ok(Went::Inside) => {
                        &&& final(self).follows(&*old(self))
                        &&& is_container(t)
                        &&& enter(d, c, t == Token::BeginObject) == Outcome::Done((), c1)
                        &&& passed(d, c0, c1, base as int, cap, p, r.3@)
                        &&& logged::<S, N, F>(f, r.3@, c1.at, cap, d, feed)
                        &&& forall|k: int|
                                #![trigger r.3@.flows[k]]
                                0 <= k < r.3@.flows.len() ==> r.3@.flows[k] != Flow::Stop && exists|
                                    n: &mut Node<'_, S, N>,
                                |
                                    {
                                        &&& #[trigger] call_ensures(f, (n,), Ok(r.3@.flows[k]))
                                        &&& handed(*n, r.3@.done[k], d, feed)
                                        &&& spared(
                                            r.3@.done[k],
                                            r.3@.flows[k],
                                            (*final(n)).inner().cursor(),
                                            r.3@.decided.contains(r.3@.done[k].at),
                                        )
                                    }
                    },
                    Ok(Went::Past) => {
                        &&& final(self).follows(&*old(self))
                        &&& value(d.bytes, c.at, room(d, c)) matches Ok(k) && c1 == past_value(c, k)
                        &&& passed(d, c0, c1, base as int, cap, trimmed(c1, base as int, p), r.3@)
                        &&& logged::<S, N, F>(f, r.3@, c1.at, cap, d, feed)
                        &&& forall|k: int|
                                #![trigger r.3@.flows[k]]
                                0 <= k < r.3@.flows.len() ==> r.3@.flows[k] != Flow::Stop && exists|
                                    n: &mut Node<'_, S, N>,
                                |
                                    {
                                        &&& #[trigger] call_ensures(f, (n,), Ok(r.3@.flows[k]))
                                        &&& handed(*n, r.3@.done[k], d, feed)
                                        &&& spared(
                                            r.3@.done[k],
                                            r.3@.flows[k],
                                            (*final(n)).inner().cursor(),
                                            r.3@.decided.contains(r.3@.done[k].at),
                                        )
                                    }
                    },
                    Err(e) => broke::<S, N, F>(f, e, d, c0, through(d, c, base as int), cap, feed),
                }
            }),
    {
        let ghost d = self.doc();
        let ghost feed = self.feed();
        let ghost c = self.cursor();
        let ghost cap = path@.len();
        let ghost p = path@.subrange(0, len as int);
        let ghost depth = base as int;
        let mut n = len;
        proof {
            lemma_look(d, c);
            lemma_trip_here(d, c0, c, depth, cap, p, trip);
        }
        if self.stack.depth() > base && self.stack.top() == Some(false) {
            let first = self.state == State::ArrFirst;
            match next_index(path, len, first, Ghost(trip.levels.last())) {
                Some(k) => {
                    n = k;
                },
                None => {
                    let offset = self.offset();
                    proof {
                        lemma_trip_stuck::<S, N, F>(
                            f,
                            d,
                            c0,
                            c,
                            t,
                            cap,
                            p,
                            trip,
                            feed,
                            offset,
                            through(d, c, depth),
                        );
                    }
                    return (f, n, self.fail(ErrorKind::PathTooLong), Ghost(trip));
                },
            }
        }
        let ghost here = path_here(trip.levels, c.state);
        let ghost v = Visit { path: here, token: t, at: c.at };
        let open = self.stack.depth();
        let offset = self.offset();
        let text = match from_utf8(slice_subrange(path, 0, n)) {
            Some(s) => s,
            None => "",
        };
        let (g, x) = self.call(f, text, t, offset, Ghost(v), Ghost(cap));
        let flow = match x {
            Ok(flow) => flow,
            Err(e) => {
                proof {
                    let end = Ended::Failed(e);
                    lemma_trip_stop::<S, N, F>(f, d, c0, c, t, depth, cap, p, trip, v, end, feed);
                }
                return (g, n, Err(e), Ghost(trip));
            },
        };
        if flow == Flow::Stop {
            proof {
                let end = Ended::Stopped;
                lemma_trip_stop::<S, N, F>(f, d, c0, c, t, depth, cap, p, trip, v, end, feed);
            }
            return (g, n, Ok(Went::Stopped), Ghost(trip));
        }
        let untouched = self.offset() == offset;
        if untouched && flow == Flow::Continue && (t == Token::BeginObject || t
            == Token::BeginArray) {
            proof {
                lemma_step(d, c, t, depth);
            }
            let e = if t == Token::BeginObject {
                self.begin_object()
            } else {
                self.begin_array()
            };
            match e {
                Ok(_) => {},
                Err(e) => return (g, n, Err(e), Ghost(trip)),
            }
            let ghost levels = levels_past(trip.levels).push(fresh(here));
            let ghost decided = trip.decided.remove(c.at);
            let ghost next = Trip { levels, decided, ..called(trip, v, flow) };
            proof {
                lemma_trip_enter(d, c0, c, t, depth, cap, p, trip, flow);
                lemma_logged::<S, N, F>(
                    f,
                    trip,
                    c.at,
                    cap,
                    d,
                    feed,
                    v,
                    flow,
                    levels,
                    decided,
                    self.cursor().at,
                );
            }
            return (g, n, Ok(Went::Inside), Ghost(next));
        }
        proof {
            lemma_through(d, c, depth);
            lemma_through(d, c, c.stack.len() as int);
        }
        if untouched {
            match self.skip_value() {
                Ok(_) => {},
                Err(e) => return (g, n, Err(e), Ghost(trip)),
            }
        } else {
            match self.finish_str() {
                Ok(_) => {},
                Err(e) => return (g, n, Err(e), Ghost(trip)),
            }
            match self.unwind(open) {
                Ok(_) => {},
                Err(e) => return (g, n, Err(e), Ghost(trip)),
            }
        }
        let ghost levels = levels_past(trip.levels);
        let ghost decided = trip.decided.insert(c.at);
        let ghost next = Trip { levels, decided, ..called(trip, v, flow) };
        proof {
            lemma_trip_over(d, c0, c, t, depth, cap, p, trip, flow);
            lemma_logged::<S, N, F>(
                f,
                trip,
                c.at,
                cap,
                d,
                feed,
                v,
                flow,
                levels,
                decided,
                self.cursor().at,
            );
        }
        (g, n, Ok(Went::Past), Ghost(next))
    }

    /// Handles the token at the cursor.
    #[verifier::rlimit(40)]
    fn walk_token<'b, F>(
        &mut self,
        f: F,
        path: &'b mut [u8],
        len: usize,
        t: Token,
        base: usize,
        Ghost(c0): Ghost<Cursor>,
        Ghost(trip): Ghost<Trip>,
    ) -> (r: (F, Res<(Went, &'b mut [u8], usize), S>, Ghost<Trip>)) where
        F: FnMut(&mut Node<'_, S, N>) -> Res<Flow, S>,

        requires
            old(self).wf(),
            t != Token::Eof ==> old(self).ready(),
            forall|n: &mut Node<'_, S, N>| (*n).inner().wf() ==> #[trigger] call_requires(f, (n,)),
            forall|n: &mut Node<'_, S, N>, x: Res<Flow, S>| #[trigger]
                call_ensures(f, (n,), x) && (*n).inner().wf() ==> {
                    &&& *final((*final(n)).inner()) == *final((*n).inner())
                    &&& (*final(n)).inner().wf()
                    &&& x is Ok ==> {
                        &&& (*final(n)).inner().follows(&*(*n).inner())
                        &&& stays(
                            (*n).inner().doc(),
                            (*n).kind(),
                            (*n).inner().cursor(),
                            (*final(n)).inner().cursor(),
                        )
                    }
                },
            look(old(self).doc(), old(self).cursor()) == Ok::<(Token, Cursor), Fault>(
                (t, old(self).cursor()),
            ),
            base == c0.stack.len(),
            base <= old(self).cursor().stack.len(),
            base == old(self).cursor().stack.len() ==> starts_value(t),
            len <= old(path)@.len(),
            underway(
                old(self).doc(),
                c0,
                old(self).cursor(),
                base as int,
                old(path)@.len(),
                old(path)@.subrange(0, len as int),
                trip,
            ),
            logged::<S, N, F>(
                f,
                trip,
                old(self).cursor().at,
                old(path)@.len(),
                old(self).doc(),
                old(self).feed(),
            ),
            forall|k: int|
                #![trigger trip.flows[k]]
                0 <= k < trip.flows.len() ==> trip.flows[k] != Flow::Stop && exists|
                    n: &mut Node<'_, S, N>,
                |
                    {
                        &&& #[trigger] call_ensures(f, (n,), Ok(trip.flows[k]))
                        &&& handed(*n, trip.done[k], old(self).doc(), old(self).feed())
                        &&& spared(
                            trip.done[k],
                            trip.flows[k],
                            (*final(n)).inner().cursor(),
                            trip.decided.contains(trip.done[k].at),
                        )
                    },
        ensures
            r.0 == f,
            final(self).wf(),
            ({
                let d = old(self).doc();
                let feed = old(self).feed();
                let c = old(self).cursor();
                let c1 = final(self).cursor();
                let cap = old(path)@.len();
                match r.1 {
                    Ok((Went::Stopped, _, _)) => {
                        &&& final(self).follows(&*old(self))
                        &&& toured::<S, N, F>(
                            f,
                            visits(d, c0, r.2@.decided),
                            r.2@.flows,
                            Ended::Stopped,
                            cap,
                            d,
                            feed,
                        )
                        &&& exists|n: &mut Node<'_, S, N>|
                            {
                                &&& #[trigger] call_ensures(f, (n,), Ok(Flow::Stop))
                                &&& handed(
                                    *n,
                                    visits(d, c0, r.2@.decided)[r.2@.flows.len() as int],
                                    d,
                                    feed,
                                )
                                &&& (*final(n)).inner().cursor() == final(self).cursor()
                            }
                        &&& forall|k: int|
                                #![trigger r.2@.flows[k]]
                                0 <= k < r.2@.flows.len() ==> r.2@.flows[k] != Flow::Stop && exists|
                                    n: &mut Node<'_, S, N>,
                                |
                                    {
                                        &&& #[trigger] call_ensures(f, (n,), Ok(r.2@.flows[k]))
                                        &&& handed(*n, visits(d, c0, r.2@.decided)[k], d, feed)
                                        &&& spared(
                                            visits(d, c0, r.2@.decided)[k],
                                            r.2@.flows[k],
                                            (*final(n)).inner().cursor(),
                                            r.2@.decided.contains(visits(d, c0, r.2@.decided)[k].at),
                                        )
                                    }
                    },
                    Ok((_, p, n)) => {
                        &&& final(self).follows(&*old(self))
                        &&& p@.len() == cap
                        &&& n <= cap
                        &&& c.at < c1.at
                        &&& !(c1.state is InStr)
                        &&& c1.stack.len() >= base
                        &&& through(d, c, base as int) == drain(d, c1, base as int)
                        &&& passed(d, c0, c1, base as int, cap, p@.subrange(0, n as int), r.2@)
                        &&& logged::<S, N, F>(f, r.2@, c1.at, cap, d, feed)
                        &&& forall|k: int|
                                #![trigger r.2@.flows[k]]
                                0 <= k < r.2@.flows.len() ==> r.2@.flows[k] != Flow::Stop && exists|
                                    n: &mut Node<'_, S, N>,
                                |
                                    {
                                        &&& #[trigger] call_ensures(f, (n,), Ok(r.2@.flows[k]))
                                        &&& handed(*n, r.2@.done[k], d, feed)
                                        &&& spared(
                                            r.2@.done[k],
                                            r.2@.flows[k],
                                            (*final(n)).inner().cursor(),
                                            r.2@.decided.contains(r.2@.done[k].at),
                                        )
                                    }
                    },
                    Err(e) => broke::<S, N, F>(f, e, d, c0, through(d, c, base as int), cap, feed),
                }
            }),
    {
        let ghost d = self.doc();
        let ghost feed = self.feed();
        let ghost c = self.cursor();
        let ghost cap = path@.len();
        let ghost depth = base as int;
        let ghost p = path@.subrange(0, len as int);
        proof {
            lemma_look(d, c);
            lemma_step(d, c, t, depth);
        }
        match t {
            Token::Key => {
                proof {
                    lemma_trip_key(d, c0, c, depth, cap, p, trip);
                }
                let (buf, n) = match self.walk_key(path, len) {
                    Ok(x) => x,
                    Err(e) => {
                        proof {
                            let goal = through(d, c, depth);
                            match e {
                                Error::Json { kind, offset } => {
                                    if !broke::<S, N, F>(f, e, d, c0, goal, cap, feed) {
                                        lemma_trip_stuck::<S, N, F>(
                                            f,
                                            d,
                                            c0,
                                            c,
                                            t,
                                            cap,
                                            p,
                                            trip,
                                            feed,
                                            offset,
                                            goal,
                                        );
                                    }
                                },
                                _ => {},
                            }
                        }
                        return (f, Err(e), Ghost(trip));
                    },
                };
                let ghost levels = keyed(trip.levels, text(d.bytes, c.at + 1)->Ok_0.1);
                let ghost next = Trip { levels, ..trip };
                proof {
                    lemma_logged_on::<S, N, F>(f, trip, c.at, cap, d, feed, levels, self.cursor().at);
                }
                (f, Ok((Went::Inside, buf, n)), Ghost(next))
            },
            Token::EndObject | Token::EndArray => {
                let (g, n, x, Ghost(next)) = self.walk_end(
                    f,
                    path,
                    len,
                    t,
                    Ghost(c0),
                    Ghost(depth),
                    Ghost(trip),
                );
                match x {
                    Ok(went) => {
                        let k = match went {
                            Went::Past => self.trim(path, n, base),
                            _ => n,
                        };
                        (g, Ok((went, path, k)), Ghost(next))
                    },
                    Err(e) => (g, Err(e), Ghost(trip)),
                }
            },
            Token::Eof => (f, self.fail(ErrorKind::UnexpectedToken(t)), Ghost(trip)),
            _ => {
                proof {
                    lemma_through(d, c, depth);
                }
                let (g, n, x, Ghost(next)) = self.walk_value(
                    f,
                    path,
                    len,
                    t,
                    base,
                    Ghost(c0),
                    Ghost(trip),
                );
                match x {
                    Ok(went) => {
                        let k = match went {
                            Went::Past => self.trim(path, n, base),
                            _ => n,
                        };
                        (g, Ok((went, path, k)), Ghost(next))
                    },
                    Err(e) => (g, Err(e), Ghost(trip)),
                }
            },
        }
    }

    /// Takes the name of a member off the path behind its value.
    fn trim(&self, path: &[u8], len: usize, base: usize) -> (r: usize)
        requires
            self.wf(),
            len <= path@.len(),
        ensures
            r <= path@.len(),
            path@.subrange(0, r as int) == trimmed(
                self.cursor(),
                base as int,
                path@.subrange(0, len as int),
            ),
    {
        let ghost p = path@.subrange(0, len as int);
        if self.stack.depth() > base && self.stack.top() == Some(true) {
            let n = pop_segment(path, len);
            assert(path@.subrange(0, n as int) =~= p.subrange(0, n as int));
            n
        } else {
            len
        }
    }

    /// Walks the next value, calling `f` for every value in it (depth first, in document
    /// order) and at the end of every object and array.
    ///
    /// `path_buf` receives the JSON Pointer of the current value, available as
    /// [`Node::path`]; it must be large enough for the longest path in the document
    /// (otherwise [`ErrorKind::PathTooLong`]). Returns `Ok(false)` if the callback stopped
    /// the walk.
    #[verifier::rlimit(40)]
    pub fn walk<F>(&mut self, path_buf: &mut [u8], f: F) -> (r: Res<bool, S>) where
        F: FnMut(&mut Node<'_, S, N>) -> Res<Flow, S>,

        requires
            old(self).wf(),
            forall|n: &mut Node<'_, S, N>| (*n).inner().wf() ==> #[trigger] call_requires(f, (n,)),
            forall|n: &mut Node<'_, S, N>, x: Res<Flow, S>| #[trigger]
                call_ensures(f, (n,), x) && (*n).inner().wf() ==> {
                    &&& *final((*final(n)).inner()) == *final((*n).inner())
                    &&& (*final(n)).inner().wf()
                    &&& x is Ok ==> {
                        &&& (*final(n)).inner().follows(&*(*n).inner())
                        &&& stays(
                            (*n).inner().doc(),
                            (*n).kind(),
                            (*n).inner().cursor(),
                            (*final(n)).inner().cursor(),
                        )
                    }
                },
        ensures
            final(self).wf(),
            walked::<S, N, F>(
                f,
                old(self).doc(),
                old(self).cursor(),
                old(self).feed(),
                old(path_buf)@.len(),
                r,
                final(self).cursor(),
            ),
            r is Ok ==> final(self).follows(&*old(self)),
            r matches Ok(whole) ==> exists|over: Set<int>, flows: Seq<Flow>|
                {
                    let all = visits(
                        old(self).doc(),
                        met(old(self).doc(), old(self).cursor()),
                        over,
                    );
                    let end = if whole {
                        Ended::Whole
                    } else {
                        Ended::Stopped
                    };
                    &&& #[trigger] answered::<S, N, F>(
                        f,
                        visits(
                            old(self).doc(),
                            met(old(self).doc(), old(self).cursor()),
                            over,
                        ),
                        flows,
                        old(path_buf)@.len(),
                        old(self).doc(),
                        old(self).feed(),
                    )
                    &&& ended::<S, N, F>(
                        f,
                        all,
                        flows.len() as int,
                        end,
                        old(path_buf)@.len(),
                        old(self).doc(),
                        old(self).feed(),
                    )
                    &&& forall|k: int|
                            #![trigger flows[k]]
                            0 <= k < flows.len() ==> flows[k] != Flow::Stop && exists|
                                n: &mut Node<'_, S, N>,
                            |
                                {
                                    &&& #[trigger] call_ensures(f, (n,), Ok(flows[k]))
                                    &&& handed(*n, all[k], old(self).doc(), old(self).feed())
                                    &&& spared(
                                        all[k],
                                        flows[k],
                                        (*final(n)).inner().cursor(),
                                        over.contains(all[k].at),
                                    )
                                }
                    &&& !whole ==> exists|n: &mut Node<'_, S, N>|
                        {
                            &&& #[trigger] call_ensures(f, (n,), Ok(Flow::Stop))
                            &&& handed(
                                *n,
                                all[flows.len() as int],
                                old(self).doc(),
                                old(self).feed(),
                            )
                            &&& (*final(n)).inner().cursor() == final(self).cursor()
                        }
                },
    {
        let mut g = f;
        let base = self.stack.depth();
        let mut len: usize = 0;
        let ghost d = self.doc();
        let ghost depth = base as int;
        let ghost feed = self.feed();
        let ghost cap = path_buf@.len();
        proof {
            lemma_look(d, self.cursor());
        }
        let mut t = self.peek()?;
        if !t.is_value() {
            return self.fail(ErrorKind::UnexpectedToken(t));
        }
        let ghost c0 = self.cursor();
        let ghost goal = through(d, c0, depth);
        let ghost mut trip = lemma_trip_start(d, c0, cap);
        let mut path: &mut [u8] = path_buf;
        proof {
            reveal(logged);
            assert(path@.subrange(0, 0) =~= Seq::<u8>::empty());
        }
        loop
            invariant
                g == f,
                self.wf(),
                self.follows(&*old(self)),
                d == old(self).doc(),
                feed == old(self).feed(),
                look(d, old(self).cursor()) matches Ok((t0, c)) && c == c0 && starts_value(t0),
                goal == through(d, c0, depth),
                base == c0.stack.len(),
                depth == base,
                cap == old(path_buf)@.len(),
                forall|n: &mut Node<'_, S, N>| (*n).inner().wf() ==> #[trigger] call_requires(g, (n,)),
                forall|n: &mut Node<'_, S, N>, x: Res<Flow, S>| #[trigger]
                    call_ensures(g, (n,), x) && (*n).inner().wf() ==> {
                        &&& *final((*final(n)).inner()) == *final((*n).inner())
                        &&& (*final(n)).inner().wf()
                        &&& x is Ok ==> {
                            &&& (*final(n)).inner().follows(&*(*n).inner())
                            &&& stays(
                                (*n).inner().doc(),
                                (*n).kind(),
                                (*n).inner().cursor(),
                                (*final(n)).inner().cursor(),
                            )
                        }
                    },
                t != Token::Eof ==> self.ready(),
                look(d, self.cursor()) == Ok::<(Token, Cursor), Fault>((t, self.cursor())),
                base <= self.cursor().stack.len(),
                base == self.cursor().stack.len() ==> starts_value(t),
                through(d, self.cursor(), depth) == goal,
                len <= path@.len() == cap,
                underway(d, c0, self.cursor(), depth, cap, path@.subrange(0, len as int), trip),
                logged::<S, N, F>(f, trip, self.cursor().at, cap, d, feed),
                forall|k: int|
                    #![trigger trip.flows[k]]
                    0 <= k < trip.flows.len() ==> trip.flows[k] != Flow::Stop && exists|
                        n: &mut Node<'_, S, N>,
                    |
                        {
                            &&& #[trigger] call_ensures(f, (n,), Ok(trip.flows[k]))
                            &&& handed(*n, trip.done[k], d, feed)
                            &&& spared(
                                trip.done[k],
                                trip.flows[k],
                                (*final(n)).inner().cursor(),
                                trip.decided.contains(trip.done[k].at),
                            )
                        },
            decreases d.bytes.len() - self.cursor().at,
        {
            let (h, x, Ghost(next)) = self.walk_token(
                g,
                path,
                len,
                t,
                base,
                Ghost(c0),
                Ghost(trip),
            );
            g = h;
            let (went, buf, n) = match x {
                Ok(y) => y,
                Err(e) => return Err(e),
            };
            path = buf;
            len = n;
            proof {
                trip = next;
            }
            let ghost c2 = self.cursor();
            match went {
                Went::Stopped => {
                    proof {
                        assert(met(d, old(self).cursor()) == c0);
                        assert(answered::<S, N, F>(
                            f,
                            visits(d, met(d, old(self).cursor()), trip.decided),
                            trip.flows,
                            cap,
                            d,
                            feed,
                        ));
                    }
                    return Ok(false);
                },
                _ => {
                    if self.stack.depth() == base {
                        proof {
                            lemma_trip_whole::<S, N, F>(
                                f,
                                d,
                                c0,
                                c2,
                                depth,
                                cap,
                                path@.subrange(0, len as int),
                                trip,
                                c2.at,
                                feed,
                            );
                            assert(met(d, old(self).cursor()) == c0);
                            assert(answered::<S, N, F>(
                                f,
                                visits(d, met(d, old(self).cursor()), trip.decided),
                                trip.flows,
                                cap,
                                d,
                                feed,
                            ));
                        }
                        return Ok(true);
                    }
                },
            }
            proof {
                lemma_look(d, c2);
                lemma_drain_look(d, c2, depth);
                if look(d, c2) is Ok {
                    lemma_trip_look(d, c0, c2, depth, cap, path@.subrange(0, len as int), trip);
                    lemma_logged_on::<S, N, F>(
                        f,
                        trip,
                        c2.at,
                        cap,
                        d,
                        feed,
                        trip.levels,
                        look(d, c2)->Ok_0.1.at,
                    );
                    assert(Trip { levels: trip.levels, ..trip } == trip);
                }
            }
            t = self.peek()?;
        }
    }
}

} // verus!
