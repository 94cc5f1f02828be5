//! What becomes of a container when an item is added to its text, or taken out of it.

use vstd::prelude::*;
use vstd::utf8::valid_utf8;

use crate::edit::comma;
use crate::error::ErrorKind;
use crate::grammar::{
    is_space, lemma_next_token, lemma_skip_space, lemma_text, lemma_value, next_token, rest,
    skip_space, starts_value, text, value, value_end, value_token, Fault, Met, BRACE_CLOSE,
    BRACKET_CLOSE, COLON, COMMA, QUOTE,
};
use crate::parser::{State, Token};
use crate::tree::{
    ends, items, lemma_join_key, lemma_join_value, lemma_other_token, lemma_rest_key,
    lemma_rest_value, lemma_same_rest, lemma_same_space, lemma_same_space_end, lemma_same_text,
    lemma_same_token, lemma_same_value, place, same, tree, Item,
};
use crate::writer::escaped;
use crate::written::lemma_written_text;

verus! {

/// `s`, with the bytes from `a` to `b` replaced by `v`.
#[verifier::opaque]
pub open spec fn spliced(s: Seq<u8>, a: int, b: int, v: Seq<u8>) -> Seq<u8> {
    s.subrange(0, a) + v + s.skip(b)
}

/// `v` stands in `t` at `a`.
pub open spec fn stands(t: Seq<u8>, a: int, v: Seq<u8>) -> bool {
    0 <= a && a + v.len() <= t.len() && t.subrange(a, a + v.len()) == v
}

/// Whether `v` is a JSON value, nested up to `limit` levels deep.
pub open spec fn is_value(v: Seq<u8>, limit: int) -> bool {
    value(v, 0, limit) == Ok::<int, Fault>(v.len() as int)
}

/// A JSON value that stands in another text, behind which no number could go on.
pub(crate) proof fn lemma_embedded(v: Seq<u8>, t: Seq<u8>, a: int, room: int)
    requires
        is_value(v, room),
        stands(t, a, v),
        ends(t, a + v.len()),
    ensures
        value(t, a, room) == Ok::<int, Fault>(a + v.len()),
        tree(t, a, room) == tree(v, 0, room),
        v.len() > 0,
        t[a] == v[0],
        value_token(t[a]) is Some,
{
    lemma_value(v, 0, room);
    assert(same(v, t, a, 0, v.len() as int)) by {
        assert forall|x: int| 0 <= x < v.len() implies #[trigger] v[x] == t[x + a] by {
            assert(t.subrange(a, a + v.len())[x] == t[a + x]);
        }
    }
    assert(v[0] == t[0 + a]);
    lemma_same_value(v, t, a, 0, room);
}

/// Where the end of the innermost open container is expected: behind its last item.
pub open spec fn tail(s: Seq<u8>, i: int, state: State, room: int) -> (int, State)
    decreases s.len() - i,
{
    match if 0 <= i <= s.len() {
        next_token(s, i, state, false)
    } else {
        Err(Fault { kind: ErrorKind::UnexpectedEof, at: i })
    } {
        Err(f) => (i, state),
        Ok(m) => {
            proof {
                lemma_next_token(s, i, state, false);
                if m.at < s.len() {
                    lemma_text(s, m.at + 1);
                    lemma_value(s, m.at, room);
                }
            }
            if m.token == Token::Key {
                match text(s, m.at + 1) {
                    Err(f) => (i, state),
                    Ok((k, _)) => tail(s, k, State::ObjColon, room),
                }
            } else if starts_value(m.token) {
                match value(s, m.at, room) {
                    Err(f) => (i, state),
                    Ok(k) => tail(s, k, value_end(m.state), room),
                }
            } else {
                (i, state)
            }
        },
    }
}

/// The bytes before, in and behind a splice.
pub(crate) proof fn lemma_spliced(s: Seq<u8>, a: int, b: int, v: Seq<u8>)
    requires
        0 <= a <= b <= s.len(),
    ensures
        ({
            let t = spliced(s, a, b, v);
            &&& t.len() == s.len() - (b - a) + v.len()
            &&& stands(t, a, v)
            &&& same(s, t, 0, 0, a)
            &&& same(s, t, a + v.len() - b, b, s.len() as int)
            &&& forall|x: int| 0 <= x < v.len() ==> #[trigger] v[x] == t[x + a]
            &&& b < s.len() ==> t[a + v.len()] == s[b]
        }),
{
    reveal(spliced);
    let t = spliced(s, a, b, v);
    assert(t.subrange(a, a + v.len()) =~= v);
    assert forall|x: int| b <= x < s.len() implies #[trigger] s[x] == t[x + (a + v.len() - b)] by {
        assert(s.skip(b)[x - b] == s[x]);
    }
    if b < s.len() {
        assert(s[b] == t[b + (a + v.len() - b)]);
    }
}

/// The end of an array, met directly.
proof fn lemma_ends_array(t: Seq<u8>, i: int, room: int, name: Seq<u8>)
    requires
        0 <= i < t.len(),
        t[i] == BRACKET_CLOSE,
    ensures
        rest(t, i, State::ArrComma, room) == Ok::<int, Fault>(i + 1),
        items(t, i, State::ArrComma, room, name) == Seq::<Item>::empty(),
{
    assert(skip_space(t, i) == i);
}

/// The end of an object, met directly.
proof fn lemma_ends_object(t: Seq<u8>, i: int, room: int, name: Seq<u8>)
    requires
        0 <= i < t.len(),
        t[i] == BRACE_CLOSE,
    ensures
        rest(t, i, State::ObjComma, room) == Ok::<int, Fault>(i + 1),
        items(t, i, State::ObjComma, room, name) == Seq::<Item>::empty(),
{
    assert(skip_space(t, i) == i);
}

/// White space up to `z`, where the end of the container is met.
pub(crate) proof fn lemma_end_place(s: Seq<u8>, j: int, state: State)
    requires
        0 <= j <= s.len(),
        next_token(s, j, state, false) is Ok,
        next_token(s, j, state, false)->Ok_0.token == Token::EndArray || next_token(
            s,
            j,
            state,
            false,
        )->Ok_0.token == Token::EndObject,
    ensures
        ({
            let m = next_token(s, j, state, false)->Ok_0;
            &&& skip_space(s, j) == m.at
            &&& j <= m.at < s.len()
            &&& m.token == Token::EndArray ==> s[m.at] == BRACKET_CLOSE && (state == State::ArrFirst
                || state == State::ArrComma)
            &&& m.token == Token::EndObject ==> s[m.at] == BRACE_CLOSE && (state == State::ObjFirst
                || state == State::ObjComma)
        }),
{
    lemma_next_token(s, j, state, false);
    lemma_skip_space(s, j);
    if skip_space(s, j) < s.len() {
        lemma_skip_space(s, skip_space(s, j) + 1);
    }
}

/// A value is added at the end of an array.
pub(crate) proof fn lemma_add_element(s: Seq<u8>, j: int, state: State, room: int, v: Seq<u8>)
    requires
        0 <= j <= s.len(),
        next_token(s, j, state, false) is Ok,
        next_token(s, j, state, false)->Ok_0.token == Token::EndArray,
        is_value(v, room),
    ensures
        ({
            let z = next_token(s, j, state, false)->Ok_0.at;
            let ins = comma(state == State::ArrComma) + v;
            let t = spliced(s, z, z, ins);
            &&& rest(t, j, state, room) == Ok::<int, Fault>(z + 1 + ins.len())
            &&& items(t, j, state, room, Seq::empty()) == seq![
                Item { name: Seq::empty(), value: tree(v, 0, room) },
            ]
            &&& place(t, j, state, room, 0) == z + ins.len() - v.len()
        }),
{
    let z = next_token(s, j, state, false)->Ok_0.at;
    let lead = state == State::ArrComma;
    let ins = comma(lead) + v;
    let t = spliced(s, z, z, ins);
    let q = z + comma(lead).len();
    lemma_end_place(s, j, state);
    lemma_spliced(s, z, z, ins);
    assert(t.subrange(q, q + v.len()) =~= ins.skip(comma(lead).len() as int));
    assert(ins.skip(comma(lead).len() as int) =~= v);
    lemma_embedded(v, t, q, room);
    assert(skip_space(t, q) == q);
    if lead {
        assert(ins[0] == t[0 + z]);
    }
    lemma_same_space_end(s, t, 0, j, z);
    let tok = value_token(t[q])->Some_0;
    assert(next_token(t, j, state, false) == Ok::<Met, Fault>(
        Met {
            token: tok,
            at: q,
            state: if lead {
                State::ArrValue
            } else {
                State::ArrFirst
            },
        },
    ));
    lemma_ends_array(t, q + v.len(), room, Seq::empty());
    assert(items(t, j, state, room, Seq::empty()) =~= seq![
        Item { name: Seq::empty(), value: tree(v, 0, room) },
    ]);
}

/// The text of a new member, in front of its value.
pub open spec fn key_front(lead: bool, name: Seq<u8>) -> Seq<u8> {
    comma(lead) + seq![QUOTE] + escaped(name) + seq![QUOTE, COLON]
}

/// A key and a value that stand in an object are read as a member.
#[verifier::rlimit(40)]
proof fn lemma_read_member(
    t: Seq<u8>,
    j: int,
    state: State,
    room: int,
    q: int,
    name: Seq<u8>,
    v: Seq<u8>,
)
    requires
        next_token(t, j, state, false) matches Ok(m) && m.token == Token::Key && m.at == q,
        0 <= j <= q,
        is_value(v, room),
        valid_utf8(name),
        stands(t, q + 1, escaped(name) + seq![QUOTE, COLON] + v),
        ends(t, q + 3 + escaped(name).len() + v.len()),
    ensures
        ({
            let k = q + 3 + escaped(name).len() + v.len();
            &&& rest(t, j, state, room) == rest(t, k, State::ObjComma, room)
            &&& items(t, j, state, room, Seq::empty()) == seq![
                Item { name, value: tree(v, 0, room) },
            ] + items(t, k, State::ObjComma, room, Seq::empty())
            &&& place(t, j, state, room, 0) == k - v.len()
        }),
{
    let esc = escaped(name);
    let all = esc + seq![QUOTE, COLON] + v;
    let n = esc.len() as int;
    let sub = t.subrange(q + 1, q + 1 + all.len());
    assert(sub.subrange(0, n) =~= esc);
    assert(t.subrange(q + 1, q + 1 + n) =~= sub.subrange(0, n));
    assert(sub[n] == QUOTE && sub[n + 1] == COLON);
    assert(t[q + 1 + n] == sub[n] && t[q + 2 + n] == sub[n + 1]);
    lemma_written_text(t, q + 1, name);
    let k = q + 2 + n;
    assert(sub.skip(n + 2) =~= v);
    assert(t.subrange(k + 1, k + 1 + v.len()) =~= sub.skip(n + 2));
    lemma_embedded(v, t, k + 1, room);
    assert(skip_space(t, k) == k);
    assert(skip_space(t, k + 1) == k + 1);
    assert(next_token(t, k, State::ObjColon, false) == Ok::<Met, Fault>(
        Met { token: value_token(t[k + 1])->Some_0, at: k + 1, state: State::ObjValue },
    ));
    assert(rest(t, j, state, room) == rest(t, k, State::ObjColon, room));
    assert(items(t, j, state, room, Seq::empty()) == items(t, k, State::ObjColon, room, name));
    assert(place(t, j, state, room, 0) == place(t, k, State::ObjColon, room, 0));
}

/// A member is added at the end of an object.
pub(crate) proof fn lemma_add_member(
    s: Seq<u8>,
    j: int,
    state: State,
    room: int,
    name: Seq<u8>,
    v: Seq<u8>,
)
    requires
        0 <= j <= s.len(),
        next_token(s, j, state, false) is Ok,
        next_token(s, j, state, false)->Ok_0.token == Token::EndObject,
        is_value(v, room),
        valid_utf8(name),
    ensures
        ({
            let z = next_token(s, j, state, false)->Ok_0.at;
            let ins = key_front(state == State::ObjComma, name) + v;
            let t = spliced(s, z, z, ins);
            &&& rest(t, j, state, room) == Ok::<int, Fault>(z + 1 + ins.len())
            &&& items(t, j, state, room, Seq::empty()) == seq![
                Item { name, value: tree(v, 0, room) },
            ]
            &&& place(t, j, state, room, 0) == z + ins.len() - v.len()
        }),
{
    let z = next_token(s, j, state, false)->Ok_0.at;
    let lead = state == State::ObjComma;
    let ins = key_front(lead, name) + v;
    let t = spliced(s, z, z, ins);
    let c = comma(lead).len() as int;
    let q = z + c;
    lemma_end_place(s, j, state);
    lemma_spliced(s, z, z, ins);
    assert(ins[c] == QUOTE && ins[c] == t[c + z]);
    assert(skip_space(t, q) == q);
    if lead {
        assert(ins[0] == t[0 + z]);
    }
    lemma_same_space_end(s, t, 0, j, z);
    assert(next_token(t, j, state, false) == Ok::<Met, Fault>(
        Met {
            token: Token::Key,
            at: q,
            state: if lead {
                State::ObjKey
            } else {
                State::ObjFirst
            },
        },
    ));
    let all = escaped(name) + seq![QUOTE, COLON] + v;
    assert(ins.skip(c + 1) =~= all);
    assert(t.subrange(q + 1, q + 1 + all.len()) =~= ins.skip(c + 1));
    let k = q + 3 + escaped(name).len() + v.len();
    assert(k == z + ins.len());
    lemma_read_member(t, j, state, room, q, name, v);
    lemma_ends_object(t, k, room, Seq::empty());
    let item = Item { name, value: tree(v, 0, room) };
    assert(seq![item] + Seq::<Item>::empty() =~= seq![item]);
}

/// Where an item may follow.
pub open spec fn at_item(state: State) -> bool {
    state == State::ArrFirst || state == State::ArrComma || state == State::ObjFirst || state
        == State::ObjComma
}

/// What is expected behind an item.
pub open spec fn behind(state: State) -> State {
    if state == State::ArrFirst || state == State::ArrComma {
        State::ArrComma
    } else {
        State::ObjComma
    }
}

/// An item of a container: where it starts (with its key, if it has one), where its value starts
/// and ends, and its name.
pub struct Piece {
    pub front: int,
    pub at: int,
    pub end: int,
    pub name: Seq<u8>,
}

/// The next item of a container, if one follows.
#[verifier::opaque]
pub open spec fn piece(s: Seq<u8>, i: int, state: State, room: int) -> Option<Piece> {
    match next_token(s, i, state, false) {
        Err(_) => None,
        Ok(m) => if m.token == Token::Key {
            match text(s, m.at + 1) {
                Err(_) => None,
                Ok((k, name)) => match next_token(s, k, State::ObjColon, false) {
                    Err(_) => None,
                    Ok(v) => match value(s, v.at, room) {
                        Err(_) => None,
                        Ok(end) => Some(Piece { front: m.at, at: v.at, end, name }),
                    },
                },
            }
        } else if starts_value(m.token) {
            match value(s, m.at, room) {
                Err(_) => None,
                Ok(end) => Some(Piece { front: m.at, at: m.at, end, name: Seq::empty() }),
            }
        } else {
            None
        },
    }
}

/// What is left of a container: where it ends, and its items.
#[verifier::opaque]
pub open spec fn left(s: Seq<u8>, i: int, state: State, room: int) -> (
    Result<int, Fault>,
    Seq<Item>,
) {
    (rest(s, i, state, room), items(s, i, state, room, Seq::empty()))
}

/// `item`, in front of what else is left.
pub open spec fn in_front(item: Item, l: (Result<int, Fault>, Seq<Item>)) -> (
    Result<int, Fault>,
    Seq<Item>,
) {
    (l.0, seq![item] + l.1)
}

/// An item as it is read.
#[verifier::opaque]
pub open spec fn read_item(s: Seq<u8>, p: Piece, room: int) -> Item {
    Item { name: p.name, value: tree(s, p.at, room) }
}

/// The token at the end of a container.
pub open spec fn end_token(state: State) -> Token {
    if behind(state) == State::ArrComma {
        Token::EndArray
    } else {
        Token::EndObject
    }
}

/// A container is its next item and what follows it.
#[verifier::rlimit(40)]
pub(crate) proof fn lemma_piece(s: Seq<u8>, i: int, state: State, room: int)
    requires
        left(s, i, state, room).0 is Ok,
        at_item(state),
    ensures
        match piece(s, i, state, room) {
            Some(p) => {
                &&& 0 <= i <= p.front <= p.at < p.end < left(s, i, state, room).0->Ok_0 <= s.len()
                &&& i < p.front || state == State::ArrFirst || state == State::ObjFirst
                &&& behind(state) == State::ArrComma ==> p.front == p.at && p.name == Seq::<
                    u8,
                >::empty()
                &&& ends(s, p.end)
                &&& left(s, i, state, room) == in_front(
                    read_item(s, p, room),
                    left(s, p.end, behind(state), room),
                )
                &&& place(s, i, state, room, 0) == p.at
                &&& forall|x: nat|
                    #![trigger place(s, i, state, room, x)]
                    x > 0 ==> place(s, i, state, room, x) == place(
                        s,
                        p.end,
                        behind(state),
                        room,
                        (x - 1) as nat,
                    )
                &&& tail(s, i, state, room) == tail(s, p.end, behind(state), room)
            },
            None => {
                &&& left(s, i, state, room).1 == Seq::<Item>::empty()
                &&& tail(s, i, state, room) == (i, state)
                &&& 0 <= i < left(s, i, state, room).0->Ok_0 <= s.len()
                &&& next_token(s, i, state, false) matches Ok(m) && m.at + 1 == left(
                    s,
                    i,
                    state,
                    room,
                ).0->Ok_0 && m.token == end_token(state)
            },
        },
{
    reveal(left);
    reveal(piece);
    reveal(read_item);
    let m = next_token(s, i, state, false)->Ok_0;
    lemma_next_token(s, i, state, false);
    lemma_skip_space(s, i);
    if m.token == Token::Key {
        let (at, k, n) = lemma_rest_key(s, i, state, room, Seq::empty());
        let m2 = next_token(s, k, State::ObjColon, false)->Ok_0;
        lemma_next_token(s, k, State::ObjColon, false);
        assert(starts_value(m2.token));
        let (at2, k2, next) = lemma_rest_value(s, k, State::ObjColon, room, n);
        assert(forall|x: nat|
            #![trigger place(s, i, state, room, x)]
            place(s, i, state, room, x) == place(s, k, State::ObjColon, room, x));
        assert(tail(s, i, state, room) == tail(s, k, State::ObjColon, room));
        assert(tail(s, k, State::ObjColon, room) == tail(s, k2, next, room));
    } else if starts_value(m.token) {
        let (at, k, next) = lemma_rest_value(s, i, state, room, Seq::empty());
        assert(tail(s, i, state, room) == tail(s, k, next, room));
    }
}

/// An item is the same where the same bytes stand.
pub(crate) proof fn lemma_same_piece(s: Seq<u8>, t: Seq<u8>, i: int, state: State, room: int)
    requires
        left(s, i, state, room).0 is Ok,
        at_item(state),
        piece(s, i, state, room) is Some,
        same(s, t, 0, i, piece(s, i, state, room)->Some_0.end),
        ends(t, piece(s, i, state, room)->Some_0.end),
    ensures
        piece(t, i, state, room) == piece(s, i, state, room),
        ({
            let p = piece(s, i, state, room)->Some_0;
            left(t, i, state, room) == in_front(
                read_item(s, p, room),
                left(t, p.end, behind(state), room),
            )
        }),
{
    lemma_piece(s, i, state, room);
    reveal(left);
    reveal(piece);
    reveal(read_item);
    let p = piece(s, i, state, room)->Some_0;
    let m = next_token(s, i, state, false)->Ok_0;
    lemma_next_token(s, i, state, false);
    lemma_same_token(s, t, 0, i, state);
    if m.token == Token::Key {
        let (k, n) = text(s, m.at + 1)->Ok_0;
        lemma_text(s, m.at + 1);
        lemma_next_token(s, k, State::ObjColon, false);
        lemma_same_text(s, t, 0, m.at + 1);
        lemma_same_token(s, t, 0, k, State::ObjColon);
        lemma_same_value(s, t, 0, p.at, room);
        lemma_join_key(t, i, state, room, Seq::empty(), k, n);
        lemma_join_value(t, k, State::ObjColon, room, n, p.end);
    } else {
        lemma_same_value(s, t, 0, p.at, room);
        lemma_join_value(t, i, state, room, Seq::empty(), p.end);
    }
}

/// The closing bracket of a container follows its tail.
pub(crate) proof fn lemma_tail(s: Seq<u8>, i: int, state: State, room: int)
    requires
        left(s, i, state, room).0 is Ok,
        at_item(state),
    ensures
        ({
            let (j, sj) = tail(s, i, state, room);
            let e = left(s, i, state, room).0->Ok_0;
            &&& 0 <= i <= j < e <= s.len()
            &&& next_token(s, j, sj, false) matches Ok(m) && m.at == e - 1 && m.token == end_token(
                state,
            )
            &&& sj == (if left(s, i, state, room).1.len() == 0 {
                state
            } else {
                behind(state)
            })
        }),
    decreases s.len() - i,
{
    lemma_piece(s, i, state, room);
    match piece(s, i, state, room) {
        Some(p) => {
            lemma_tail(s, p.end, behind(state), room);
        },
        None => {
            lemma_next_token(s, i, state, false);
        },
    }
}

/// A container with something else from its tail on keeps its items.
#[verifier::rlimit(40)]
pub(crate) proof fn lemma_extend(s: Seq<u8>, t: Seq<u8>, i: int, state: State, room: int)
    requires
        left(s, i, state, room).0 is Ok,
        at_item(state),
        same(s, t, 0, i, left(s, i, state, room).0->Ok_0 - 1),
        left(s, i, state, room).1.len() > 0 ==> ends(t, left(s, i, state, room).0->Ok_0 - 1),
    ensures
        ({
            let (j, sj) = tail(s, i, state, room);
            left(t, i, state, room) == (
                left(t, j, sj, room).0,
                left(s, i, state, room).1 + left(t, j, sj, room).1,
            )
        }),
        ({
            let (j, sj) = tail(s, i, state, room);
            left(t, j, sj, room).0 is Ok ==> place(
                t,
                i,
                state,
                room,
                left(s, i, state, room).1.len(),
            ) == place(t, j, sj, room, 0)
        }),
    decreases s.len() - i,
{
    let (j, sj) = tail(s, i, state, room);
    let new = left(t, j, sj, room).1;
    let e = left(s, i, state, room).0->Ok_0;
    lemma_piece(s, i, state, room);
    match piece(s, i, state, room) {
        Some(p) => {
            if p.end < e - 1 {
                assert(s[p.end] == t[p.end + 0]);
            }
            lemma_same_piece(s, t, i, state, room);
            lemma_extend(s, t, p.end, behind(state), room);
            let more = left(s, p.end, behind(state), room).1;
            let item = read_item(s, p, room);
            assert(seq![item] + (more + new) =~= seq![item] + more + new);
            if left(t, j, sj, room).0 is Ok {
                lemma_piece(t, i, state, room);
            }
        },
        None => {
            assert(Seq::<Item>::empty() + new =~= new);
        },
    }
}

/// What `insert` does to a sequence, at the front and behind.
proof fn lemma_insert_item(item: Item, more: Seq<Item>, n: int, new: Item)
    requires
        0 <= n <= more.len(),
    ensures
        (seq![item] + more).insert(0, new) == seq![new] + (seq![item] + more),
        (seq![item] + more).insert(n + 1, new) == seq![item] + more.insert(n, new),
{
    assert((seq![item] + more).insert(0, new) =~= seq![new] + (seq![item] + more));
    assert((seq![item] + more).insert(n + 1, new) =~= seq![item] + more.insert(n, new));
}

/// A new element, in front of a comma and an element that was met at its place.
proof fn lemma_insert_new(s: Seq<u8>, t: Seq<u8>, i: int, state: State, room: int, v: Seq<u8>)
    requires
        left(s, i, state, room).0 is Ok,
        state == State::ArrFirst || state == State::ArrComma,
        piece(s, i, state, room) is Some,
        is_value(v, room),
        same(s, t, 0, i, piece(s, i, state, room)->Some_0.at),
        stands(t, piece(s, i, state, room)->Some_0.at, v),
        ends(t, piece(s, i, state, room)->Some_0.at + v.len()),
    ensures
        ({
            let a = piece(s, i, state, room)->Some_0.at;
            piece(t, i, state, room) == Some(
                Piece { front: a, at: a, end: a + v.len(), name: Seq::empty() },
            )
        }),
        left(t, i, state, room) == in_front(
            Item { name: Seq::empty(), value: tree(v, 0, room) },
            left(t, piece(s, i, state, room)->Some_0.at + v.len(), State::ArrComma, room),
        ),
{
    lemma_piece(s, i, state, room);
    reveal(piece);
    reveal(left);
    let a = piece(s, i, state, room)->Some_0.at;
    let m = next_token(s, i, state, false)->Ok_0;
    lemma_next_token(s, i, state, false);
    lemma_embedded(v, t, a, room);
    lemma_other_token(s, t, i, state);
    lemma_join_value(t, i, state, room, Seq::empty(), a + v.len());
}

/// An element behind a comma that now precedes it.
proof fn lemma_insert_old(s: Seq<u8>, t: Seq<u8>, d: int, i: int, state: State, room: int)
    requires
        left(s, i, state, room).0 is Ok,
        state == State::ArrFirst || state == State::ArrComma,
        piece(s, i, state, room) is Some,
        same(s, t, d, piece(s, i, state, room)->Some_0.at, s.len() as int),
        0 < piece(s, i, state, room)->Some_0.at + d,
        t[piece(s, i, state, room)->Some_0.at + d - 1] == COMMA,
    ensures
        left(t, piece(s, i, state, room)->Some_0.at + d - 1, State::ArrComma, room) == (
            Ok::<int, Fault>(left(s, i, state, room).0->Ok_0 + d),
            left(s, i, state, room).1,
        ),
        ({
            let p = piece(s, i, state, room)->Some_0;
            piece(t, p.at + d - 1, State::ArrComma, room) == Some(
                Piece { front: p.at + d, at: p.at + d, end: p.end + d, name: Seq::empty() },
            )
        }),
{
    lemma_piece(s, i, state, room);
    reveal(piece);
    reveal(left);
    reveal(read_item);
    let p = piece(s, i, state, room)->Some_0;
    let m = next_token(s, i, state, false)->Ok_0;
    let k = p.at + d - 1;
    lemma_next_token(s, i, state, false);
    lemma_skip_space(s, i);
    assert(s[p.at] == t[p.at + d]);
    assert(s[p.end] == t[p.end + d]);
    assert(skip_space(t, k) == k);
    assert(skip_space(t, k + 1) == k + 1);
    assert(next_token(t, k, State::ArrComma, false) == Ok::<Met, Fault>(
        Met { token: m.token, at: k + 1, state: State::ArrValue },
    ));
    lemma_same_value(s, t, d, p.at, room);
    lemma_join_value(t, k, State::ArrComma, room, Seq::empty(), p.end + d);
    lemma_same_rest(s, t, d, p.end, State::ArrComma, room, Seq::empty());
}

/// A value is put in front of the next element.
#[verifier::rlimit(40)]
proof fn lemma_insert_first(s: Seq<u8>, i: int, state: State, room: int, v: Seq<u8>)
    requires
        left(s, i, state, room).0 is Ok,
        state == State::ArrFirst || state == State::ArrComma,
        piece(s, i, state, room) is Some,
        is_value(v, room),
    ensures
        ({
            let a = piece(s, i, state, room)->Some_0.at;
            let t = spliced(s, a, a, v + seq![COMMA]);
            &&& place(t, i, state, room, 0) == a
            &&& forall|prev: Option<int>| #[trigger]
                cut_at(t, i, state, room, 0, prev) == (a, a + v.len() + 1)
            &&& left(t, i, state, room) == (
                Ok::<int, Fault>(left(s, i, state, room).0->Ok_0 + v.len() + 1),
                seq![Item { name: Seq::empty(), value: tree(v, 0, room) }] + left(
                    s,
                    i,
                    state,
                    room,
                ).1,
            )
        }),
{
    let a = piece(s, i, state, room)->Some_0.at;
    let ins = v + seq![COMMA];
    let t = spliced(s, a, a, ins);
    lemma_piece(s, i, state, room);
    lemma_spliced(s, a, a, ins);
    assert(ins.subrange(0, v.len() as int) =~= v);
    assert(t.subrange(a, a + v.len()) =~= ins.subrange(0, v.len() as int));
    assert(ins[v.len() as int] == t[v.len() as int + a]);
    lemma_insert_new(s, t, i, state, room, v);
    lemma_insert_old(s, t, v.len() as int + 1, i, state, room);
    lemma_piece(t, i, state, room);
}

/// A value is put in front of the element number `n`.
#[verifier::rlimit(40)]
pub(crate) proof fn lemma_insert(s: Seq<u8>, i: int, state: State, room: int, n: nat, v: Seq<u8>)
    requires
        left(s, i, state, room).0 is Ok,
        state == State::ArrFirst || state == State::ArrComma,
        n < left(s, i, state, room).1.len(),
        is_value(v, room),
    ensures
        ({
            let a = place(s, i, state, room, n);
            let t = spliced(s, a, a, v + seq![COMMA]);
            &&& i <= a < left(s, i, state, room).0->Ok_0
            &&& place(t, i, state, room, n) == a
            &&& forall|prev: Option<int>| #[trigger]
                cut_at(t, i, state, room, n, prev) == (a, a + v.len() + 1)
            &&& left(t, i, state, room) == (
                Ok::<int, Fault>(left(s, i, state, room).0->Ok_0 + v.len() + 1),
                left(s, i, state, room).1.insert(
                    n as int,
                    Item { name: Seq::empty(), value: tree(v, 0, room) },
                ),
            )
        }),
    decreases n,
{
    let a = place(s, i, state, room, n);
    let ins = v + seq![COMMA];
    let t = spliced(s, a, a, ins);
    let new = Item { name: Seq::empty(), value: tree(v, 0, room) };
    lemma_piece(s, i, state, room);
    let p = piece(s, i, state, room)->Some_0;
    let item = read_item(s, p, room);
    let more = left(s, p.end, State::ArrComma, room).1;
    assert((seq![item] + more).len() == more.len() + 1);
    if n == 0 {
        lemma_insert_first(s, i, state, room, v);
        lemma_insert_item(item, more, 0, new);
    } else {
        lemma_insert(s, p.end, State::ArrComma, room, (n - 1) as nat, v);
        lemma_piece(s, p.end, State::ArrComma, room);
        lemma_spliced(s, a, a, ins);
        lemma_place_beyond(s, p.end, State::ArrComma, room, (n - 1) as nat);
        assert(s[p.end] == t[p.end + 0]);
        lemma_same_piece(s, t, i, state, room);
        lemma_piece(t, i, state, room);
        lemma_insert_item(item, more, n - 1, new);
        assert forall|prev: Option<int>| #[trigger]
            cut_at(t, i, state, room, n, prev) == (a, a + v.len() + 1) by {
            assert(cut_at(t, i, state, room, n, prev) == cut_at(
                t,
                p.end,
                State::ArrComma,
                room,
                (n - 1) as nat,
                Some(p.end),
            ));
        }
    }
}

/// Behind an item, a comma comes before the next one.
proof fn lemma_place_beyond(s: Seq<u8>, i: int, state: State, room: int, n: nat)
    requires
        left(s, i, state, room).0 is Ok,
        state == State::ArrComma || state == State::ObjComma,
        n < left(s, i, state, room).1.len(),
    ensures
        i < place(s, i, state, room, n) < left(s, i, state, room).0->Ok_0,
    decreases n,
{
    lemma_piece(s, i, state, room);
    if n > 0 {
        let p = piece(s, i, state, room)->Some_0;
        let more = left(s, p.end, state, room).1;
        assert((seq![read_item(s, p, room)] + more).len() == more.len() + 1);
        lemma_place_beyond(s, p.end, state, room, (n - 1) as nat);
    }
}

/// The bytes to take out with the item number `n`: up to what follows it, or else from the end of
/// what precedes it (`prev`).
pub open spec fn cut_at(
    s: Seq<u8>,
    i: int,
    state: State,
    room: int,
    n: nat,
    prev: Option<int>,
) -> (int, int)
    decreases n,
{
    match piece(s, i, state, room) {
        None => (0, 0),
        Some(p) => if n == 0 {
            match piece(s, p.end, behind(state), room) {
                Some(q) => (p.front, q.front),
                None => (
                    match prev {
                        Some(x) => x,
                        None => p.front,
                    },
                    p.end,
                ),
            }
        } else {
            cut_at(s, p.end, behind(state), room, (n - 1) as nat, Some(p.end))
        },
    }
}

/// White space up to `k`.
pub(crate) proof fn lemma_skip_run(t: Seq<u8>, i: int, k: int)
    requires
        0 <= i <= k <= t.len(),
        forall|x: int| i <= x < k ==> is_space(#[trigger] t[x]),
    ensures
        skip_space(t, i) == skip_space(t, k),
    decreases k - i,
{
    if i < k {
        lemma_skip_run(t, i + 1, k);
    }
}

/// The token that an item starts with.
proof fn lemma_front(s: Seq<u8>, i: int, state: State, room: int)
    requires
        left(s, i, state, room).0 is Ok,
        at_item(state),
        piece(s, i, state, room) is Some,
    ensures
        ({
            let p = piece(s, i, state, room)->Some_0;
            let m = next_token(s, i, state, false)->Ok_0;
            &&& rest(s, i, state, room) is Ok
            &&& next_token(s, i, state, false) is Ok
            &&& m.at == p.front
            &&& behind(state) == State::ObjComma ==> m.token == Token::Key && s[p.front] == QUOTE
            &&& behind(state) == State::ArrComma ==> starts_value(m.token) && value_token(
                s[p.front],
            ) == Some(m.token) && value(s, p.at, room) == Ok::<int, Fault>(p.end) && (m.state
                == State::ArrFirst || m.state == State::ArrValue)
        }),
{
    lemma_piece(s, i, state, room);
    reveal(piece);
    reveal(left);
    lemma_next_token(s, i, state, false);
    lemma_skip_space(s, i);
    let j = skip_space(s, i);
    if j < s.len() {
        lemma_skip_space(s, j + 1);
    }
}

/// A member takes the place of the one before it.
#[verifier::rlimit(40)]
proof fn lemma_cut_next_member(s: Seq<u8>, t: Seq<u8>, i: int, state: State, room: int)
    requires
        left(s, i, state, room).0 is Ok,
        at_item(state),
        behind(state) == State::ObjComma,
        piece(s, i, state, room) is Some,
        ({
            let p = piece(s, i, state, room)->Some_0;
            let q = piece(s, p.end, behind(state), room)->Some_0;
            &&& piece(s, p.end, behind(state), room) is Some
            &&& same(s, t, 0, i, p.front)
            &&& same(s, t, p.front - q.front, q.front, s.len() as int)
        }),
    ensures
        ({
            let p = piece(s, i, state, room)->Some_0;
            let q = piece(s, p.end, behind(state), room)->Some_0;
            left(t, i, state, room) == (
                Ok::<int, Fault>(left(s, i, state, room).0->Ok_0 - (q.front - p.front)),
                left(s, p.end, behind(state), room).1,
            )
        }),
{
    let p = piece(s, i, state, room)->Some_0;
    let q = piece(s, p.end, behind(state), room)->Some_0;
    let d = p.front - q.front;
    lemma_piece(s, i, state, room);
    lemma_piece(s, p.end, behind(state), room);
    lemma_front(s, i, state, room);
    lemma_front(s, p.end, behind(state), room);
    assert(s[q.front] == t[q.front + d]);
    let (at, k, n) = lemma_rest_key(s, p.end, behind(state), room, Seq::empty());
    assert(same(s, t, 0, i, p.front + 1));
    lemma_same_token(s, t, 0, i, state);
    lemma_same_text(s, t, d, at + 1);
    lemma_join_key(t, i, state, room, Seq::empty(), k + d, n);
    lemma_same_rest(s, t, d, k, State::ObjColon, room, n);
    reveal(left);
}

/// An element takes the place of the one before it.
proof fn lemma_cut_next_element(s: Seq<u8>, t: Seq<u8>, i: int, state: State, room: int)
    requires
        left(s, i, state, room).0 is Ok,
        at_item(state),
        behind(state) == State::ArrComma,
        piece(s, i, state, room) is Some,
        ({
            let p = piece(s, i, state, room)->Some_0;
            let q = piece(s, p.end, behind(state), room)->Some_0;
            &&& piece(s, p.end, behind(state), room) is Some
            &&& same(s, t, 0, i, p.front)
            &&& same(s, t, p.front - q.front, q.front, s.len() as int)
        }),
    ensures
        ({
            let p = piece(s, i, state, room)->Some_0;
            let q = piece(s, p.end, behind(state), room)->Some_0;
            left(t, i, state, room) == (
                Ok::<int, Fault>(left(s, i, state, room).0->Ok_0 - (q.front - p.front)),
                left(s, p.end, behind(state), room).1,
            )
        }),
{
    let p = piece(s, i, state, room)->Some_0;
    let q = piece(s, p.end, behind(state), room)->Some_0;
    let d = p.front - q.front;
    lemma_piece(s, i, state, room);
    lemma_piece(s, p.end, behind(state), room);
    lemma_front(s, i, state, room);
    lemma_front(s, p.end, behind(state), room);
    assert(s[q.front] == t[q.front + d]);
    assert(s[q.end] == t[q.end + d]);
    lemma_other_token(s, t, i, state);
    lemma_same_value(s, t, d, q.at, room);
    lemma_join_value(t, i, state, room, Seq::empty(), q.end + d);
    let (at, k, next) = lemma_rest_value(s, p.end, behind(state), room, Seq::empty());
    lemma_same_rest(s, t, d, q.end, State::ArrComma, room, Seq::empty());
    reveal(left);
}

/// The only item of a container is taken out.
#[verifier::rlimit(40)]
proof fn lemma_cut_only(s: Seq<u8>, t: Seq<u8>, i: int, state: State, room: int)
    requires
        left(s, i, state, room).0 is Ok,
        state == State::ArrFirst || state == State::ObjFirst,
        piece(s, i, state, room) is Some,
        ({
            let p = piece(s, i, state, room)->Some_0;
            &&& piece(s, p.end, behind(state), room) is None
            &&& same(s, t, 0, i, p.front)
            &&& same(s, t, p.front - p.end, p.end, s.len() as int)
        }),
    ensures
        ({
            let p = piece(s, i, state, room)->Some_0;
            left(t, i, state, room) == (
                Ok::<int, Fault>(left(s, i, state, room).0->Ok_0 - (p.end - p.front)),
                Seq::<Item>::empty(),
            )
        }),
{
    let p = piece(s, i, state, room)->Some_0;
    let d = p.front - p.end;
    lemma_piece(s, i, state, room);
    lemma_piece(s, p.end, behind(state), room);
    reveal(piece);
    reveal(left);
    let m = next_token(s, p.end, behind(state), false)->Ok_0;
    lemma_next_token(s, i, state, false);
    lemma_skip_space(s, i);
    lemma_end_place(s, p.end, behind(state));
    lemma_skip_space(s, p.end);
    assert forall|x: int| i <= x < p.front implies is_space(#[trigger] t[x]) by {
        assert(s[x] == t[x + 0]);
    }
    lemma_skip_run(t, i, p.front);
    lemma_same_space(s, t, d, p.end, s.len() as int);
    assert(s[m.at] == t[m.at + d]);
    assert(skip_space(t, i) == m.at + d);
    assert(next_token(t, i, state, false) == Ok::<Met, Fault>(
        Met { token: m.token, at: m.at + d, state },
    ));
}

/// The last item of a container is taken out, with the comma in front of it.
proof fn lemma_cut_last(s: Seq<u8>, t: Seq<u8>, i: int, state: State, room: int)
    requires
        left(s, i, state, room).0 is Ok,
        state == State::ArrComma || state == State::ObjComma,
        piece(s, i, state, room) is Some,
        ({
            let p = piece(s, i, state, room)->Some_0;
            &&& piece(s, p.end, state, room) is None
            &&& same(s, t, i - p.end, p.end, s.len() as int)
        }),
    ensures
        ({
            let p = piece(s, i, state, room)->Some_0;
            left(t, i, state, room) == (
                Ok::<int, Fault>(left(s, i, state, room).0->Ok_0 - (p.end - i)),
                Seq::<Item>::empty(),
            )
        }),
{
    let p = piece(s, i, state, room)->Some_0;
    lemma_piece(s, i, state, room);
    lemma_piece(s, p.end, state, room);
    reveal(left);
    lemma_same_rest(s, t, i - p.end, p.end, state, room, Seq::empty());
}

/// What `remove` does to a sequence, at the front and behind.
proof fn lemma_remove_item(item: Item, more: Seq<Item>, n: int)
    requires
        0 <= n,
    ensures
        (seq![item] + more).remove(0) == more,
        n < more.len() ==> (seq![item] + more).remove(n + 1) == seq![item] + more.remove(n),
{
    assert((seq![item] + more).remove(0) =~= more);
    if n < more.len() {
        assert((seq![item] + more).remove(n + 1) =~= seq![item] + more.remove(n));
    }
}

/// The next item is taken out.
proof fn lemma_cut_here(s: Seq<u8>, i: int, state: State, room: int, prev: Option<int>)
    requires
        left(s, i, state, room).0 is Ok,
        at_item(state),
        piece(s, i, state, room) is Some,
        prev == (if state == behind(state) {
            Some(i)
        } else {
            None
        }),
    ensures
        ({
            let (lo, hi) = cut_at(s, i, state, room, 0, prev);
            let t = spliced(s, lo, hi, Seq::empty());
            let p = piece(s, i, state, room)->Some_0;
            &&& i <= lo <= hi < left(s, i, state, room).0->Ok_0
            &&& lo == i && state == behind(state) ==> ends(s, hi)
            &&& left(t, i, state, room) == (
                Ok::<int, Fault>(left(s, i, state, room).0->Ok_0 - (hi - lo)),
                left(s, p.end, behind(state), room).1,
            )
        }),
{
    let (lo, hi) = cut_at(s, i, state, room, 0, prev);
    let t = spliced(s, lo, hi, Seq::empty());
    let p = piece(s, i, state, room)->Some_0;
    lemma_piece(s, i, state, room);
    lemma_piece(s, p.end, behind(state), room);
    lemma_spliced(s, lo, hi, Seq::empty());
    if piece(s, p.end, behind(state), room) is Some {
        if behind(state) == State::ArrComma {
            lemma_cut_next_element(s, t, i, state, room);
        } else {
            lemma_cut_next_member(s, t, i, state, room);
        }
    } else if state == behind(state) {
        lemma_cut_last(s, t, i, state, room);
    } else {
        lemma_cut_only(s, t, i, state, room);
    }
}

/// The item number `n` is taken out.
#[verifier::rlimit(40)]
pub(crate) proof fn lemma_cut(
    s: Seq<u8>,
    i: int,
    state: State,
    room: int,
    n: nat,
    prev: Option<int>,
)
    requires
        left(s, i, state, room).0 is Ok,
        at_item(state),
        n < left(s, i, state, room).1.len(),
        prev == (if state == behind(state) {
            Some(i)
        } else {
            None
        }),
    ensures
        ({
            let (lo, hi) = cut_at(s, i, state, room, n, prev);
            let t = spliced(s, lo, hi, Seq::empty());
            &&& i <= lo <= hi < left(s, i, state, room).0->Ok_0
            &&& lo == i && state == behind(state) ==> ends(s, hi)
            &&& left(t, i, state, room) == (
                Ok::<int, Fault>(left(s, i, state, room).0->Ok_0 - (hi - lo)),
                left(s, i, state, room).1.remove(n as int),
            )
        }),
    decreases n,
{
    let (lo, hi) = cut_at(s, i, state, room, n, prev);
    let t = spliced(s, lo, hi, Seq::empty());
    lemma_piece(s, i, state, room);
    let p = piece(s, i, state, room)->Some_0;
    let item = read_item(s, p, room);
    let more = left(s, p.end, behind(state), room).1;
    assert((seq![item] + more).len() == more.len() + 1);
    if n == 0 {
        lemma_cut_here(s, i, state, room, prev);
        lemma_remove_item(item, more, 0);
    } else {
        lemma_cut(s, p.end, behind(state), room, (n - 1) as nat, Some(p.end));
        lemma_piece(s, p.end, behind(state), room);
        lemma_spliced(s, lo, hi, Seq::empty());
        if lo > p.end {
            assert(s[p.end] == t[p.end + 0]);
        }
        lemma_same_piece(s, t, i, state, room);
        lemma_remove_item(item, more, n - 1);
    }
}

} // verus!
