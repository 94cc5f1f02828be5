//! What reading and editing mean: laws that relate the parser, the writer and the editor to
//! the tree of values that a document stands for.

use vstd::prelude::*;

use crate::cursor::{
    coherent, descend, enter, find, lemma_look, look, member, nth, past_string, past_value, room,
    seek, span, Cursor, Doc, Outcome,
};
use crate::edit::{at_value, change, edited, spot, Op};
use crate::grammar::{
    lemma_next_token, lemma_skip_space, lemma_text, lemma_value, next_token, rest, skip_space,
    starts_value, text, value, value_token, Fault, BRACE_OPEN,
};
use crate::parser::{start, State, Token};
use crate::path::{step_index, step_name, Step};
use crate::splice::{is_value, lemma_embedded, lemma_spliced, spliced, stands};
use crate::tree::{
    ends, items, lemma_place, lemma_rest_key, lemma_rest_value, lemma_same_space_end,
    lemma_swap_item, place, swapped, tree, with_value, Item, Json,
};
use crate::util::is_document;
use crate::writer::{encoding, ToJson};

verus! {

/// The first item with a name.
pub open spec fn first_named(its: Seq<Item>, name: Option<Seq<u8>>) -> Option<nat>
    decreases its.len(),
{
    if its.len() == 0 {
        None
    } else if name == Some(its[0].name) {
        Some(0)
    } else {
        match first_named(its.skip(1), name) {
            Some(n) => Some(n + 1),
            None => None,
        }
    }
}

pub(crate) proof fn lemma_first_named(its: Seq<Item>, name: Option<Seq<u8>>)
    ensures
        match first_named(its, name) {
            Some(n) => n < its.len() && name == Some(its[n as int].name),
            None => true,
        },
    decreases its.len(),
{
    if its.len() > 0 && name != Some(its[0].name) {
        lemma_first_named(its.skip(1), name);
    }
}

/// The items of a container.
pub open spec fn children(t: Json) -> Seq<Item> {
    match t {
        Json::Array(its) => its,
        Json::Object(its) => its,
        _ => Seq::empty(),
    }
}

/// A container like `t`, with other items.
pub open spec fn with_children(t: Json, its: Seq<Item>) -> Json {
    match t {
        Json::Array(_) => Json::Array(its),
        Json::Object(_) => Json::Object(its),
        _ => t,
    }
}

/// The item of `t` that a step designates: the first member with that name, or the element
/// with that number.
pub open spec fn child_at(t: Json, step: Step) -> Option<nat> {
    match t {
        Json::Object(its) => first_named(its, step_name(step)),
        Json::Array(its) => match step_index(step) {
            Some(n) => if n < its.len() {
                Some(n)
            } else {
                None
            },
            None => None,
        },
        _ => None,
    }
}

/// The value at `path` in `t`.
pub open spec fn get(t: Json, path: Seq<Step>) -> Option<Json>
    decreases path.len(),
{
    if path.len() == 0 {
        Some(t)
    } else {
        match child_at(t, path[0]) {
            Some(n) => get(children(t)[n as int].value, path.skip(1)),
            None => None,
        }
    }
}

/// `t`, with another value at `path`.
pub open spec fn put(t: Json, path: Seq<Step>, new: Json) -> Json
    decreases path.len(),
{
    if path.len() == 0 {
        new
    } else {
        match child_at(t, path[0]) {
            Some(n) => with_children(
                t,
                with_value(
                    children(t),
                    n as int,
                    put(children(t)[n as int].value, path.skip(1), new),
                ),
            ),
            None => t,
        }
    }
}

/// Where a member may follow, a key or the end of the object is met.
pub(crate) proof fn lemma_meets_key(d: Doc, c: Cursor)
    requires
        coherent(d, c),
        c.state == State::ObjFirst || c.state == State::ObjComma,
        rest(d.bytes, c.at, c.state, room(d, c)) is Ok,
    ensures
        ({
            let m = next_token(d.bytes, c.at, c.state, false)->Ok_0;
            &&& next_token(d.bytes, c.at, c.state, false) is Ok
            &&& m.token == Token::Key || m.token == Token::EndObject
            &&& look(d, c) == Ok::<(Token, Cursor), Fault>(
                (m.token, Cursor { at: m.at, state: m.state, ..c }),
            )
            &&& member(d, c) == look(d, c)
        }),
{
}

/// Behind a key, a value is met.
pub(crate) proof fn lemma_meets_value(d: Doc, c: Cursor)
    requires
        coherent(d, c),
        c.state == State::ObjColon,
        rest(d.bytes, c.at, c.state, room(d, c)) is Ok,
    ensures
        ({
            let m = next_token(d.bytes, c.at, c.state, false)->Ok_0;
            &&& next_token(d.bytes, c.at, c.state, false) is Ok
            &&& starts_value(m.token)
            &&& m.state == State::ObjValue
            &&& look(d, c) == Ok::<(Token, Cursor), Fault>(
                (m.token, Cursor { at: m.at, state: State::ObjValue, ..c }),
            )
            &&& value(d.bytes, m.at, room(d, c)) matches Ok(k) ==> member(d, c) == look(
                d,
                past_value(c, k),
            )
        }),
{
    lemma_next_token(d.bytes, c.at, c.state, false);
}

/// Searching goes on behind a member with another name.
proof fn lemma_find_on(d: Doc, c: Cursor, step: Step, k: int, name: Seq<u8>, k3: int)
    requires
        coherent(d, c),
        c.state == State::ObjFirst || c.state == State::ObjComma,
        rest(d.bytes, c.at, c.state, room(d, c)) is Ok,
        ({
            let m = next_token(d.bytes, c.at, c.state, false)->Ok_0;
            &&& m.token == Token::Key
            &&& text(d.bytes, m.at + 1) == Ok::<(int, Seq<u8>), Fault>((k, name))
        }),
        c.at < k < k3 <= d.bytes.len(),
        step_name(step) != Some(name),
        rest(d.bytes, k, State::ObjColon, room(d, c)) is Ok,
        value(
            d.bytes,
            next_token(d.bytes, k, State::ObjColon, false)->Ok_0.at,
            room(d, c),
        ) == Ok::<int, Fault>(k3),
        rest(d.bytes, k3, State::ObjComma, room(d, c)) is Ok,
    ensures
        find(d, c, step) == find(d, past_value(c, k3), step),
{
    let c2 = Cursor { at: k, state: State::ObjColon, ..c };
    let c5 = past_value(c, k3);
    lemma_meets_key(d, c);
    assert(past_string(c, true, k) =~= c2);
    lemma_meets_value(d, c2);
    assert(c5 == Cursor { at: k3, state: State::ObjComma, ..c });
    lemma_meets_key(d, c5);
    assert(past_value(c2, k3) == c5);
    assert(member(d, c2) == member(d, c5));
    assert(find(d, c, step) == find(d, c2, step));
    lemma_next_token(d.bytes, k3, State::ObjComma, false);
    let m5 = next_token(d.bytes, k3, State::ObjComma, false)->Ok_0;
    if m5.token == Token::Key {
        lemma_text(d.bytes, m5.at + 1);
    }
    assert(find(d, c2, step) == find(d, c5, step));
}

/// Searching an object finds the first member with the name.
pub(crate) proof fn lemma_find_tree(d: Doc, c: Cursor, step: Step)
    requires
        coherent(d, c),
        c.state == State::ObjFirst || c.state == State::ObjComma,
        rest(d.bytes, c.at, c.state, room(d, c)) is Ok,
    ensures
        ({
            let its = items(d.bytes, c.at, c.state, room(d, c), Seq::empty());
            match first_named(its, step_name(step)) {
                Some(n) => find(d, c, step) == Outcome::Done(
                    true,
                    Cursor {
                        at: place(d.bytes, c.at, c.state, room(d, c), n),
                        state: State::ObjValue,
                        ..c
                    },
                ),
                None => find(d, c, step) matches Outcome::Done(false, c1) && {
                    &&& c1.stack == c.stack
                    &&& c1.at + 1 == rest(d.bytes, c.at, c.state, room(d, c))->Ok_0
                    &&& look(d, c1) == Ok::<(Token, Cursor), Fault>((Token::EndObject, c1))
                },
            }
        }),
    decreases d.bytes.len() - c.at,
{
    let s = d.bytes;
    let r = room(d, c);
    let its = items(s, c.at, c.state, r, Seq::empty());
    let found = first_named(its, step_name(step));
    lemma_meets_key(d, c);
    let m = next_token(s, c.at, c.state, false)->Ok_0;
    if m.token == Token::Key {
        let (at, k, name) = lemma_rest_key(s, c.at, c.state, r, Seq::empty());
        let c2 = Cursor { at: k, state: State::ObjColon, ..c };
        lemma_meets_value(d, c2);
        let (at3, k3, next) = lemma_rest_value(s, k, State::ObjColon, r, name);
        if step_name(step) == Some(name) {
            assert(past_string(c, true, k) =~= c2);
            assert(its[0].name == name);
            assert(found == Some(0nat));
            assert(place(s, c.at, c.state, r, 0) == at3);
        } else {
            let c5 = past_value(c, k3);
            assert(c5 == Cursor { at: k3, state: State::ObjComma, ..c });
            lemma_find_on(d, c, step, k, name, k3);
            lemma_find_tree(d, c5, step);
            let left = items(s, k3, next, r, Seq::empty());
            assert(its.skip(1) =~= left);
            if found is Some {
                let n = first_named(left, step_name(step))->Some_0;
                assert(place(s, c.at, c.state, r, n + 1) == place(s, k, State::ObjColon, r, n + 1));
            }
        }
    }
}

/// Where an element may follow, a value or the end of the array is met.
pub(crate) proof fn lemma_meets_element(d: Doc, c: Cursor)
    requires
        coherent(d, c),
        c.state == State::ArrFirst || c.state == State::ArrComma,
        rest(d.bytes, c.at, c.state, room(d, c)) is Ok,
    ensures
        ({
            let m = next_token(d.bytes, c.at, c.state, false)->Ok_0;
            &&& next_token(d.bytes, c.at, c.state, false) is Ok
            &&& m.token == Token::EndArray || (starts_value(m.token) && m.state == (if c.state
                == State::ArrFirst {
                State::ArrFirst
            } else {
                State::ArrValue
            }))
            &&& look(d, c) == Ok::<(Token, Cursor), Fault>(
                (m.token, Cursor { at: m.at, state: m.state, ..c }),
            )
        }),
{
}

/// Counting elements finds the one with the number.
proof fn lemma_nth_tree(d: Doc, c: Cursor, n: nat)
    requires
        coherent(d, c),
        c.state == State::ArrFirst || c.state == State::ArrComma,
        rest(d.bytes, c.at, c.state, room(d, c)) is Ok,
    ensures
        if n < items(d.bytes, c.at, c.state, room(d, c), Seq::empty()).len() {
            nth(d, c, n) == Outcome::Done(
                true,
                Cursor {
                    at: place(d.bytes, c.at, c.state, room(d, c), n),
                    state: if c.state == State::ArrFirst && n == 0 {
                        State::ArrFirst
                    } else {
                        State::ArrValue
                    },
                    ..c
                },
            )
        } else {
            nth(d, c, n) matches Outcome::Done(false, _)
        },
    decreases n,
{
    let s = d.bytes;
    let r = room(d, c);
    lemma_meets_element(d, c);
    let m = next_token(s, c.at, c.state, false)->Ok_0;
    if starts_value(m.token) {
        let (at, k, next) = lemma_rest_value(s, c.at, c.state, r, Seq::empty());
        if n > 0 {
            let c5 = past_value(c, k);
            assert(c5 == Cursor { at: k, state: State::ArrComma, ..c });
            lemma_nth_tree(d, c5, (n - 1) as nat);
            assert(nth(d, c, n) == nth(d, c5, (n - 1) as nat));
            assert(place(s, c.at, c.state, r, n) == place(s, k, next, r, (n - 1) as nat));
        }
    }
}

/// What is expected inside a container that starts with `b`.
pub open spec fn inside(b: u8) -> State {
    if b == BRACE_OPEN {
        State::ObjFirst
    } else {
        State::ArrFirst
    }
}

/// The cursor at the item number `n` of the container at `c`.
#[verifier::opaque]
pub open spec fn child_cursor(d: Doc, c: Cursor, n: nat) -> Cursor {
    let b = d.bytes[c.at];
    Cursor {
        at: place(d.bytes, c.at + 1, inside(b), room(d, c) - 1, n),
        state: if b == BRACE_OPEN {
            State::ObjValue
        } else if n == 0 {
            State::ArrFirst
        } else {
            State::ArrValue
        },
        stack: c.stack.push(b == BRACE_OPEN),
        stash: c.stash,
    }
}

/// A cursor at a whole value.
#[verifier::opaque]
pub open spec fn at_whole(d: Doc, c: Cursor) -> bool {
    at_value(d, c) && value(d.bytes, c.at, room(d, c)) is Ok
}

/// The value at a cursor.
#[verifier::opaque]
pub open spec fn tree_at(d: Doc, c: Cursor) -> Json {
    tree(d.bytes, c.at, room(d, c))
}

/// Where the value at a cursor ends.
#[verifier::opaque]
pub open spec fn end_at(d: Doc, c: Cursor) -> Result<int, Fault> {
    value(d.bytes, c.at, room(d, c))
}

/// Descending finds the item that the step designates.
pub(crate) proof fn lemma_descend_tree(d: Doc, c: Cursor, step: Step)
    requires
        at_whole(d, c),
    ensures
        match child_at(tree_at(d, c), step) {
            Some(n) => {
                &&& n < children(tree_at(d, c)).len()
                &&& descend(d, c, step) == Outcome::Done(true, child_cursor(d, c, n))
            },
            None => descend(d, c, step) matches Outcome::Done(false, _),
        },
{
    reveal(tree_at);
    reveal(end_at);
    reveal(child_cursor);
    reveal(at_whole);
    let s = d.bytes;
    lemma_look(d, c);
    let t = look(d, c)->Ok_0.0;
    assert(value_token(s[c.at]) == Some(t));
    if t == Token::BeginObject {
        let c1 = enter(d, c, true)->Done_1;
        assert(c1.stack.drop_last() =~= c.stack);
        lemma_find_tree(d, c1, step);
        lemma_first_named(children(tree_at(d, c)), step_name(step));
    } else if t == Token::BeginArray {
        if step_index(step) is Some {
            let c1 = enter(d, c, false)->Done_1;
            assert(c1.stack.drop_last() =~= c.stack);
            lemma_nth_tree(d, c1, step_index(step)->Some_0);
        }
    }
}

/// A container holds whole values.
pub(crate) proof fn lemma_child(d: Doc, c: Cursor, n: nat)
    requires
        at_whole(d, c),
        n < children(tree_at(d, c)).len(),
    ensures
        ({
            let c1 = child_cursor(d, c, n);
            &&& at_whole(d, c1)
            &&& room(d, c1) == room(d, c) - 1
            &&& tree_at(d, c1) == children(tree_at(d, c))[n as int].value
            &&& c.at < c1.at
            &&& end_at(d, c1)->Ok_0 < end_at(d, c)->Ok_0
            &&& ends(d.bytes, end_at(d, c1)->Ok_0)
        }),
{
    reveal(tree_at);
    reveal(end_at);
    reveal(child_cursor);
    reveal(at_whole);
    let s = d.bytes;
    lemma_look(d, c);
    assert(value_token(s[c.at]) == Some(look(d, c)->Ok_0.0));
    let c1 = child_cursor(d, c, n);
    lemma_place(s, c.at + 1, inside(s[c.at]), room(d, c) - 1, Seq::empty(), n);
    lemma_at_value(d, c1);
}

/// Where a value may stand and a byte starts one, a value is met.
pub(crate) proof fn lemma_at_value(d: Doc, c: Cursor)
    requires
        coherent(d, c),
        c.at < d.bytes.len(),
        c.state == State::TopValue || c.state == State::ObjValue || c.state == State::ArrFirst
            || c.state == State::ArrValue,
        value_token(d.bytes[c.at]) is Some,
    ensures
        at_value(d, c),
        look(d, c) == Ok::<(Token, Cursor), Fault>((value_token(d.bytes[c.at])->Some_0, c)),
{
    assert(skip_space(d.bytes, c.at) == c.at);
    assert(Cursor { at: c.at, state: c.state, ..c } == c);
}

/// The value at `path`, and where it stands.
pub(crate) proof fn lemma_seek_tree(d: Doc, c: Cursor, path: Seq<Step>)
    requires
        at_whole(d, c),
    ensures
        match get(tree_at(d, c), path) {
            Some(t) => seek(d, c, path) matches Outcome::Done(true, c1) && {
                &&& at_whole(d, c1)
                &&& tree_at(d, c1) == t
                &&& room(d, c1) == room(d, c) - path.len()
                &&& c.at <= c1.at
                &&& end_at(d, c1)->Ok_0 <= end_at(d, c)->Ok_0
                &&& path.len() > 0 ==> ends(d.bytes, end_at(d, c1)->Ok_0)
            },
            None => seek(d, c, path) matches Outcome::Done(false, _),
        },
    decreases path.len(),
{
    if path.len() > 0 {
        lemma_descend_tree(d, c, path[0]);
        match child_at(tree_at(d, c), path[0]) {
            Some(n) => {
                lemma_child(d, c, n);
                lemma_seek_tree(d, child_cursor(d, c, n), path.skip(1));
                if path.len() == 1 {
                    reveal(at_whole);
                }
            },
            None => {},
        }
    } else {
        reveal(at_whole);
    }
}

/// Which item has a name does not depend on the values.
pub(crate) proof fn lemma_names(a: Seq<Item>, b: Seq<Item>, name: Option<Seq<u8>>)
    requires
        a.len() == b.len(),
        forall|i: int| 0 <= i < a.len() ==> #[trigger] a[i].name == b[i].name,
    ensures
        first_named(a, name) == first_named(b, name),
    decreases a.len(),
{
    if a.len() > 0 {
        assert forall|i: int| 0 <= i < a.skip(1).len() implies #[trigger] a.skip(1)[i].name
            == b.skip(1)[i].name by {
            assert(a.skip(1)[i] == a[i + 1]);
        }
        lemma_names(a.skip(1), b.skip(1), name);
        assert(a[0].name == b[0].name);
    }
}

/// What is expected where a value is met.
pub(crate) proof fn lemma_value_state(d: Doc, c: Cursor)
    requires
        at_value(d, c),
    ensures
        c.state == State::TopValue || c.state == State::ObjValue || c.state == State::ArrFirst
            || c.state == State::ArrValue,
        value_token(d.bytes[c.at]) == Some(look(d, c)->Ok_0.0),
        c.at < d.bytes.len(),
{
    lemma_look(d, c);
    lemma_skip_space(d.bytes, c.at);
}

/// Bytes that were replaced, with others around them.
pub(crate) proof fn lemma_swapped_around(
    s: Seq<u8>,
    t: Seq<u8>,
    a: int,
    b: int,
    x: int,
    from: int,
    to: int,
)
    requires
        swapped(s, t, a, b, x),
        0 <= from <= a,
        b <= to <= s.len(),
    ensures
        swapped(s, t, from, to, to + x - b),
{
    reveal(swapped);
}

/// Where one item of a container has another value, the others stay as they are.
pub(crate) proof fn lemma_swap_child(d: Doc, e: Doc, c: Cursor, n: nat, b: int, x: int)
    requires
        at_whole(d, c),
        n < children(tree_at(d, c)).len(),
        end_at(d, child_cursor(d, c, n)) == Ok::<int, Fault>(b),
        swapped(d.bytes, e.bytes, child_cursor(d, c, n).at, b, x),
        end_at(e, child_cursor(d, c, n)) == Ok::<int, Fault>(x),
        e.limit == d.limit,
    ensures
        at_whole(e, c),
        end_at(e, c) == Ok::<int, Fault>(end_at(d, c)->Ok_0 + x - b),
        tree_at(e, c) == with_children(
            tree_at(d, c),
            with_value(
                children(tree_at(d, c)),
                n as int,
                tree_at(e, child_cursor(d, c, n)),
            ),
        ),
        child_cursor(e, c, n) == child_cursor(d, c, n),
{
    reveal(tree_at);
    reveal(end_at);
    reveal(child_cursor);
    reveal(at_whole);
    reveal(swapped);
    lemma_value_state(d, c);
    lemma_child(d, c, n);
    let byte = d.bytes[c.at];
    assert(byte == e.bytes[c.at + 0]);
    lemma_swap_item(
        d.bytes,
        e.bytes,
        c.at + 1,
        inside(byte),
        room(d, c) - 1,
        Seq::empty(),
        n,
        b,
        x,
    );
    lemma_at_value(e, c);
}

/// A whole value, where it ends.
pub(crate) proof fn lemma_whole(d: Doc, c: Cursor)
    requires
        at_whole(d, c),
    ensures
        coherent(d, c),
        c.state == State::TopValue || c.state == State::ObjValue || c.state == State::ArrFirst
            || c.state == State::ArrValue,
        end_at(d, c) matches Ok(k) && 0 <= c.at < k <= d.bytes.len(),
{
    reveal(at_whole);
    reveal(end_at);
    lemma_value_state(d, c);
    lemma_value(d.bytes, c.at, room(d, c));
}

/// Where a whole value stands.
pub(crate) proof fn lemma_at_whole(d: Doc, c: Cursor)
    requires
        coherent(d, c),
        c.state == State::TopValue || c.state == State::ObjValue || c.state == State::ArrFirst
            || c.state == State::ArrValue,
        end_at(d, c) is Ok,
    ensures
        at_whole(d, c),
{
    reveal(at_whole);
    reveal(end_at);
    lemma_value(d.bytes, c.at, room(d, c));
    lemma_at_value(d, c);
}

/// `path` leads from the value at `c` to that at `c1`.
#[verifier::opaque]
pub(crate) open(crate) spec fn leads(d: Doc, c: Cursor, path: Seq<Step>, c1: Cursor) -> bool {
    seek(d, c, path) == Outcome::Done(true, c1)
}

pub(crate) proof fn lemma_leads_here(d: Doc, c: Cursor, path: Seq<Step>)
    requires
        at_whole(d, c),
        path.len() == 0,
    ensures
        forall|c1: Cursor| #[trigger] leads(d, c, path, c1) <==> c1 == c,
{
    reveal(at_whole);
    reveal(leads);
}

pub(crate) proof fn lemma_leads_on(d: Doc, c: Cursor, path: Seq<Step>)
    requires
        at_whole(d, c),
        path.len() > 0,
    ensures
        match child_at(tree_at(d, c), path[0]) {
            Some(n) => {
                &&& n < children(tree_at(d, c)).len()
                &&& forall|c1: Cursor| #[trigger]
                    leads(d, c, path, c1) <==> leads(d, child_cursor(d, c, n), path.skip(1), c1)
            },
            None => forall|c1: Cursor| !#[trigger] leads(d, c, path, c1),
        },
{
    reveal(leads);
    lemma_descend_tree(d, c, path[0]);
}

pub(crate) proof fn lemma_leads_tree(d: Doc, c: Cursor, path: Seq<Step>, c1: Cursor)
    requires
        at_whole(d, c),
        leads(d, c, path, c1),
    ensures
        at_whole(d, c1),
        get(tree_at(d, c), path) == Some(tree_at(d, c1)),
        room(d, c1) == room(d, c) - path.len(),
        c.at <= c1.at,
        end_at(d, c1)->Ok_0 <= end_at(d, c)->Ok_0,
{
    reveal(leads);
    lemma_seek_tree(d, c, path);
}

/// A path leads on to an item of where it led without its last step.
pub(crate) proof fn lemma_leads_last(d: Doc, c: Cursor, path: Seq<Step>, c1: Cursor, n: nat)
    requires
        at_whole(d, c),
        path.len() > 0,
        leads(d, c, path.drop_last(), c1),
        child_at(tree_at(d, c1), path.last()) == Some(n),
    ensures
        leads(d, c, path, child_cursor(d, c1, n)),
        n < children(tree_at(d, c1)).len(),
    decreases path.len(),
{
    let init = path.drop_last();
    lemma_leads_on(d, c, path);
    if init.len() == 0 {
        lemma_leads_here(d, c, init);
        lemma_child(d, c, n);
        lemma_leads_here(d, child_cursor(d, c, n), path.skip(1));
    } else {
        assert(init[0] == path[0]);
        lemma_leads_on(d, c, init);
        let m = child_at(tree_at(d, c), path[0])->Some_0;
        lemma_child(d, c, m);
        assert(path.skip(1).drop_last() =~= init.skip(1));
        lemma_leads_last(d, child_cursor(d, c, m), path.skip(1), c1, n);
    }
}

/// Where another value stands at `path`, the rest of the document means the same as before, and
/// the path leads to the new value.
#[verifier::rlimit(40)]
proof fn lemma_swap_path(d: Doc, e: Doc, c: Cursor, path: Seq<Step>, c1: Cursor, b: int, x: int)
    requires
        at_whole(d, c),
        leads(d, c, path, c1),
        end_at(d, c1) == Ok::<int, Fault>(b),
        swapped(d.bytes, e.bytes, c1.at, b, x),
        end_at(e, c1) == Ok::<int, Fault>(x),
        e.limit == d.limit,
    ensures
        at_whole(e, c),
        end_at(e, c) == Ok::<int, Fault>(end_at(d, c)->Ok_0 + x - b),
        tree_at(e, c) == put(tree_at(d, c), path, tree_at(e, c1)),
        leads(e, c, path, c1),
    decreases path.len(),
{
    lemma_leads_tree(d, c, path, c1);
    lemma_whole(d, c);
    lemma_whole(d, c1);
    if path.len() == 0 {
        lemma_leads_here(d, c, path);
        assert(coherent(e, c)) by {
            reveal(end_at);
            reveal(swapped);
            lemma_value(e.bytes, c.at, room(e, c));
        }
        lemma_at_whole(e, c);
        lemma_leads_here(e, c, path);
    } else {
        lemma_leads_on(d, c, path);
        let n = child_at(tree_at(d, c), path[0])->Some_0;
        let c2 = child_cursor(d, c, n);
        lemma_child(d, c, n);
        lemma_leads_tree(d, c2, path.skip(1), c1);
        lemma_swap_path(d, e, c2, path.skip(1), c1, b, x);
        lemma_whole(d, c2);
        let b2 = end_at(d, c2)->Ok_0;
        lemma_swapped_around(d.bytes, e.bytes, c1.at, b, x, c2.at, b2);
        lemma_swap_child(d, e, c, n, b2, b2 + x - b);
        let its = children(tree_at(d, c));
        lemma_names(its, children(tree_at(e, c)), step_name(path[0]));
        assert(child_at(tree_at(e, c), path[0]) == Some(n));
        lemma_leads_on(e, c, path);
    }
}

/// The cursor at the value of a document.
pub open spec fn root(s: Seq<u8>) -> Cursor {
    start(skip_space(s, 0))
}

/// A document as the parser reads it: one value, nested up to `limit` levels deep.
pub open spec fn doc(s: Seq<u8>, limit: int) -> Doc {
    Doc { bytes: s, limit, multi: false }
}

/// What a document means.
#[verifier::opaque]
pub open spec fn meaning(s: Seq<u8>, limit: int) -> Json {
    tree(s, skip_space(s, 0), limit)
}

/// A document starts with its value.
pub(crate) proof fn lemma_root(s: Seq<u8>, limit: int, path: Seq<Step>)
    requires
        is_document(s, 0, limit),
        0 <= limit,
    ensures
        at_whole(doc(s, limit), root(s)),
        end_at(doc(s, limit), root(s)) matches Ok(k) && skip_space(s, k) == s.len() && ends(s, k),
        tree_at(doc(s, limit), root(s)) == meaning(s, limit),
        seek(doc(s, limit), start(0), path) == seek(doc(s, limit), root(s), path),
{
    let d = doc(s, limit);
    let c = root(s);
    reveal(is_document);
    reveal(meaning);
    lemma_skip_space(s, 0);
    lemma_value(s, c.at, limit);
    reveal(end_at);
    reveal(tree_at);
    lemma_at_whole(d, c);
    lemma_skip_space(s, end_at(d, c)->Ok_0);
    lemma_at_value(d, c);
    assert(look(d, start(0)) == look(d, c));
}

/// Where another value stands at `path`, the document is still one, and means the same but for
/// that value, to which the path leads.
pub(crate) proof fn lemma_swap_doc(
    s: Seq<u8>,
    t: Seq<u8>,
    limit: int,
    path: Seq<Step>,
    c1: Cursor,
    b: int,
    x: int,
)
    requires
        is_document(s, 0, limit),
        0 <= limit,
        leads(doc(s, limit), root(s), path, c1),
        end_at(doc(s, limit), c1) == Ok::<int, Fault>(b),
        swapped(s, t, c1.at, b, x),
        end_at(doc(t, limit), c1) == Ok::<int, Fault>(x),
    ensures
        is_document(t, 0, limit),
        root(t) == root(s),
        meaning(t, limit) == put(meaning(s, limit), path, tree_at(doc(t, limit), c1)),
        leads(doc(t, limit), root(t), path, c1),
{
    let d = doc(s, limit);
    let e = doc(t, limit);
    let c = root(s);
    lemma_root(s, limit, path);
    lemma_leads_tree(d, c, path, c1);
    lemma_whole(d, c);
    lemma_whole(d, c1);
    lemma_swap_path(d, e, c, path, c1, b, x);
    lemma_whole(e, c);
    let k = end_at(d, c)->Ok_0;
    assert(skip_space(t, 0) == c.at && skip_space(t, k + x - b) == t.len()) by {
        reveal(swapped);
        reveal(at_whole);
        lemma_value_state(e, c);
        lemma_skip_space(s, 0);
        lemma_same_space_end(s, t, 0, 0, c.at);
        lemma_same_space_end(s, t, x - b, k, s.len() as int);
    }
    assert(is_document(t, 0, limit)) by {
        reveal(is_document);
        reveal(end_at);
    }
    assert(tree_at(e, c) == meaning(t, limit)) by {
        reveal(meaning);
        reveal(tree_at);
    }
}

/// Seeking finds the value at the path: it stops right before it, if there is one, and its span
/// is that of the value.
pub proof fn law_seek(s: Seq<u8>, limit: int, path: Seq<Step>)
    requires
        is_document(s, 0, limit),
        0 <= limit,
    ensures
        match get(meaning(s, limit), path) {
            Some(t) => seek(doc(s, limit), start(0), path) matches Outcome::Done(true, c) && {
                &&& span(doc(s, limit), c) matches Outcome::Done((a, b), _) && a == c.at && value(
                    s,
                    a,
                    limit - path.len(),
                ) == Ok::<int, Fault>(b) && tree(s, a, limit - path.len()) == t
            },
            None => seek(doc(s, limit), start(0), path) matches Outcome::Done(false, _),
        },
{
    let d = doc(s, limit);
    lemma_root(s, limit, path);
    lemma_seek_tree(d, root(s), path);
    if get(meaning(s, limit), path) is Some {
        reveal(at_whole);
        reveal(tree_at);
        lemma_look(d, seek(d, start(0), path)->Done_1);
    }
}

/// A splice replaces bytes.
pub(crate) proof fn lemma_spliced_swap(s: Seq<u8>, a: int, b: int, v: Seq<u8>)
    requires
        0 <= a <= b <= s.len(),
    ensures
        swapped(s, spliced(s, a, b, v), a, b, a + v.len()),
        ends(s, b) ==> ends(spliced(s, a, b, v), a + v.len()),
        stands(spliced(s, a, b, v), a, v),
{
    reveal(swapped);
    lemma_spliced(s, a, b, v);
}

/// The bytes that replacing the value at a path replaces.
pub(crate) proof fn lemma_replace_span(s: Seq<u8>, limit: int, path: Seq<Step>)
    requires
        is_document(s, 0, limit),
        0 <= limit,
    ensures
        match change(doc(s, limit), start(0), Op::Replace, path) {
            Outcome::Done(Some(ch), _) => {
                let c = seek(doc(s, limit), start(0), path)->Done_1;
                &&& get(meaning(s, limit), path) is Some
                &&& leads(doc(s, limit), root(s), path, c)
                &&& room(doc(s, limit), c) == limit - path.len()
                &&& end_at(doc(s, limit), c) == Ok::<int, Fault>(ch.end)
                &&& ends(s, ch.end)
                &&& 0 <= c.at == ch.start <= ch.end <= s.len()
                &&& ch.shape is Value
            },
            Outcome::Done(None, _) => get(meaning(s, limit), path) is None,
            _ => false,
        },
{
    let d = doc(s, limit);
    reveal(spot);
    lemma_root(s, limit, path);
    lemma_seek_tree(d, root(s), path);
    if get(meaning(s, limit), path) is Some {
        let c1 = seek(d, start(0), path)->Done_1;
        lemma_whole(d, c1);
        let b = end_at(d, c1)->Ok_0;
        assert(span(d, c1)->Done_0 == (c1.at, b) && span(d, c1) is Done) by {
            reveal(at_whole);
            reveal(end_at);
        }
        assert(leads(d, root(s), path, c1)) by {
            reveal(leads);
        }
        if path.len() == 0 {
            lemma_leads_here(d, root(s), path);
        }
    }
}

/// Replacing the value at a path by the text of another.
pub(crate) proof fn lemma_replace(s: Seq<u8>, limit: int, path: Seq<Step>, v: Seq<u8>)
    requires
        is_document(s, 0, limit),
        0 <= limit,
        is_value(v, limit - path.len()),
    ensures
        match change(doc(s, limit), start(0), Op::Replace, path) {
            Outcome::Done(Some(ch), _) => {
                let t = spliced(s, ch.start, ch.end, v);
                let c = seek(doc(s, limit), start(0), path)->Done_1;
                &&& get(meaning(s, limit), path) is Some
                &&& is_document(t, 0, limit)
                &&& meaning(t, limit) == put(
                    meaning(s, limit),
                    path,
                    tree(v, 0, limit - path.len()),
                )
                &&& leads(doc(t, limit), root(t), path, c)
                &&& c.at == ch.start
                &&& end_at(doc(t, limit), c) == Ok::<int, Fault>(ch.start + v.len())
                &&& ch.shape is Value
            },
            Outcome::Done(None, _) => get(meaning(s, limit), path) is None,
            _ => false,
        },
{
    lemma_replace_span(s, limit, path);
    match change(doc(s, limit), start(0), Op::Replace, path) {
        Outcome::Done(Some(ch), _) => {
            let r = limit - path.len();
            let c = seek(doc(s, limit), start(0), path)->Done_1;
            let t = spliced(s, ch.start, ch.end, v);
            let e = doc(t, limit);
            lemma_spliced_swap(s, ch.start, ch.end, v);
            lemma_embedded(v, t, ch.start, r);
            assert(end_at(e, c) == Ok::<int, Fault>(ch.start + v.len())) by {
                reveal(end_at);
            }
            assert(tree_at(e, c) == tree(v, 0, r)) by {
                reveal(tree_at);
            }
            lemma_swap_doc(s, t, limit, path, c, ch.end, ch.start + v.len());
        },
        _ => {},
    }
}

/// Replacing the value at a path: the edit applies exactly where the path leads to a value. The
/// document is then still one, means the same as before but for that value, and the path leads to
/// the new value, whose span is that of the new content.
pub proof fn law_replace<V: ToJson + ?Sized>(s: Seq<u8>, limit: int, path: Seq<Step>, new: &V)
    requires
        is_document(s, 0, limit),
        0 <= limit,
        is_value(encoding(new), limit - path.len()),
    ensures
        match change(doc(s, limit), start(0), Op::Replace, path) {
            Outcome::Done(Some(ch), _) => {
                let t = edited(s, ch, new);
                &&& get(meaning(s, limit), path) is Some
                &&& is_document(t, 0, limit)
                &&& meaning(t, limit) == put(
                    meaning(s, limit),
                    path,
                    tree(encoding(new), 0, limit - path.len()),
                )
                &&& seek(doc(t, limit), start(0), path) matches Outcome::Done(true, c) && span(
                    doc(t, limit),
                    c,
                ) matches Outcome::Done(x, _) && x == (ch.start, ch.start + encoding(new).len())
            },
            Outcome::Done(None, _) => get(meaning(s, limit), path) is None,
            _ => false,
        },
{
    lemma_replace(s, limit, path, encoding(new));
    match change(doc(s, limit), start(0), Op::Replace, path) {
        Outcome::Done(Some(ch), _) => {
            let c = seek(doc(s, limit), start(0), path)->Done_1;
            let t = spliced(s, ch.start, ch.end, encoding(new));
            let e = doc(t, limit);
            lemma_root(t, limit, path);
            lemma_leads_tree(e, root(t), path, c);
            assert(seek(e, start(0), path) == Outcome::Done(true, c)) by {
                reveal(leads);
            }
            assert(span(e, c) is Done && span(e, c)->Done_0 == (
                ch.start,
                ch.start + encoding(new).len(),
            )) by {
                reveal(at_whole);
                reveal(end_at);
            }
            assert(t == edited(s, ch, new)) by {
                reveal(spliced);
            }
        },
        _ => {},
    }
}

} // verus!
