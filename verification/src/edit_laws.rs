//! What adding and removing values mean: laws that relate [`plan`](crate::edit::plan) and
//! [`plan_remove`](crate::edit::plan_remove) to the tree of values that a document stands for.

use vstd::prelude::*;
use vstd::utf8::valid_utf8;

use crate::cursor::{
    coherent, enter, lemma_look, look, past_string, past_value, room, seek, skip, span, Cursor, Doc,
    Outcome,
};
use crate::edit::{
    at_value, change, child_spot, comma, content, cut_element, cut_item, cut_member, edited,
    element_spot, end_spot, lemma_new_name_utf8, member_spot, new_name, one_less, pointer_name,
    removal, spot, step_valid, try_member, value_spot, Change, Op, Shape, Spot,
};
use crate::grammar::{
    is_digit, next_token, rest, starts_value, text, value, Fault, BRACE_OPEN, COMMA, MINUS,
};
use crate::laws::{
    at_whole, child_at, child_cursor, children, doc, end_at, first_named, get, inside, leads,
    lemma_first_named, lemma_leads_last, lemma_leads_tree, lemma_meets_element, lemma_meets_key,
    lemma_meets_value, lemma_replace, lemma_root, lemma_seek_tree, lemma_spliced_swap,
    lemma_swap_doc, lemma_swapped_around, lemma_value_state, lemma_whole, meaning, put, root,
    tree_at, with_children,
};
use crate::number::decimal;
use crate::parser::{start, State, Token};
use crate::path::{lemma_decimal_index, step_index, step_is_end, step_name, unescape, Step};
use crate::splice::{
    at_item, behind, cut_at, end_token, is_value, key_front, left, lemma_add_element,
    lemma_add_member, lemma_cut, lemma_extend, lemma_insert, lemma_piece, lemma_spliced, lemma_tail,
    piece, read_item, spliced, tail, Piece,
};
use crate::tree::{lemma_rest_key, place, tree, with_value, Item, Json};
use crate::util::is_document;
use crate::writer::{after_key, compact, encoding, ToJson};
use crate::written::encodes;

verus! {

/// What is left of the container that a cursor is in.
pub open spec fn left_at(d: Doc, c: Cursor) -> (Result<int, Fault>, Seq<Item>) {
    left(d.bytes, c.at, c.state, room(d, c))
}

/// The next item of the container that a cursor is in.
pub open spec fn piece_at(d: Doc, c: Cursor) -> Option<Piece> {
    piece(d.bytes, c.at, c.state, room(d, c))
}

/// The cursor behind an item.
pub open spec fn past_piece(c: Cursor, p: Piece) -> Cursor {
    Cursor { at: p.end, state: behind(c.state), ..c }
}

/// A cursor where an item of a whole container may follow.
pub open spec fn between(d: Doc, c: Cursor) -> bool {
    &&& coherent(d, c)
    &&& at_item(c.state)
    &&& left_at(d, c).0 is Ok
}

/// The end of a container is met behind its last item.
pub(crate) proof fn lemma_meets_end(d: Doc, c: Cursor)
    requires
        between(d, c),
        piece_at(d, c) is None,
    ensures
        look(d, c) matches Ok((t, c1)) && t == end_token(c.state) && c1.at + 1 == left_at(
            d,
            c,
        ).0->Ok_0,
{
    lemma_piece(d.bytes, c.at, c.state, room(d, c));
}

/// An element is met, and skipping it leads behind it.
pub(crate) proof fn lemma_meets_item(d: Doc, c: Cursor)
    requires
        between(d, c),
        behind(c.state) == State::ArrComma,
        piece_at(d, c) is Some,
    ensures
        ({
            let p = piece_at(d, c)->Some_0;
            let c1 = Cursor {
                at: p.at,
                state: if c.state == State::ArrFirst {
                    State::ArrFirst
                } else {
                    State::ArrValue
                },
                ..c
            };
            &&& look(d, c) matches Ok((t, x)) && starts_value(t) && x == c1
            &&& at_value(d, c1)
            &&& skip(d, c1) == Outcome::Done((), past_piece(c, p))
            &&& span(d, c1) == Outcome::Done((p.at, p.end), past_piece(c, p))
            &&& between(d, past_piece(c, p))
        }),
{
    let p = piece_at(d, c)->Some_0;
    lemma_piece(d.bytes, c.at, c.state, room(d, c));
    lemma_look(d, c);
    assert(value(d.bytes, p.at, room(d, c)) == Ok::<int, Fault>(p.end) && rest(
        d.bytes,
        c.at,
        c.state,
        room(d, c),
    ) is Ok) by {
        reveal(left);
        reveal(piece);
    }
    lemma_meets_element(d, c);
    assert(next_token(d.bytes, c.at, c.state, false)->Ok_0.at == p.at) by {
        reveal(piece);
    }
    assert(starts_value(next_token(d.bytes, c.at, c.state, false)->Ok_0.token)) by {
        reveal(piece);
    }
}

/// Pushing goes in front of the end of the array.
pub(crate) proof fn lemma_end_spot_tree(d: Doc, c: Cursor, any: bool)
    requires
        between(d, c),
        behind(c.state) == State::ArrComma,
    ensures
        end_spot(d, c, any) matches Outcome::Done(Some(sp), _) && sp == (Spot {
            at: left_at(d, c).0->Ok_0 - 1,
            replace: false,
            shape: Shape::Element { lead: any || left_at(d, c).1.len() > 0, trail: false },
        }),
    decreases d.bytes.len() - c.at,
{
    lemma_piece(d.bytes, c.at, c.state, room(d, c));
    match piece_at(d, c) {
        Some(p) => {
            lemma_meets_item(d, c);
            lemma_end_spot_tree(d, past_piece(c, p), true);
            assert(left_at(d, c).1.len() > 0);
        },
        None => {
            lemma_meets_end(d, c);
        },
    }
}

/// Where an element number goes.
pub(crate) proof fn lemma_element_spot_tree(d: Doc, c: Cursor, n: Option<nat>, any: bool, insert: bool)
    requires
        between(d, c),
        behind(c.state) == State::ArrComma,
    ensures
        ({
            let its = left_at(d, c).1;
            let o = element_spot(d, c, n, any, insert);
            if n is None || n == Some(its.len()) {
                o matches Outcome::Done(Some(sp), _) && sp == (Spot {
                    at: left_at(d, c).0->Ok_0 - 1,
                    replace: false,
                    shape: Shape::Element { lead: any || its.len() > 0, trail: false },
                })
            } else if n->Some_0 > its.len() {
                o matches Outcome::Done(None, _)
            } else if insert {
                o matches Outcome::Done(Some(sp), _) && sp == (Spot {
                    at: place(d.bytes, c.at, c.state, room(d, c), n->Some_0),
                    replace: false,
                    shape: Shape::Element { lead: false, trail: true },
                })
            } else {
                o == value_spot(
                    Cursor {
                        at: place(d.bytes, c.at, c.state, room(d, c), n->Some_0),
                        state: if c.state == State::ArrFirst && n == Some(0nat) {
                            State::ArrFirst
                        } else {
                            State::ArrValue
                        },
                        ..c
                    },
                )
            }
        }),
    decreases d.bytes.len() - c.at,
{
    lemma_piece(d.bytes, c.at, c.state, room(d, c));
    match piece_at(d, c) {
        Some(p) => {
            lemma_meets_item(d, c);
            let its = left_at(d, c).1;
            let more = left_at(d, past_piece(c, p)).1;
            assert(its.len() == more.len() + 1);
            if n != Some(0nat) {
                lemma_element_spot_tree(d, past_piece(c, p), one_less(n), true, insert);
                if n is Some && n->Some_0 < its.len() {
                    assert(place(d.bytes, c.at, c.state, room(d, c), n->Some_0) == place(
                        d.bytes,
                        p.end,
                        State::ArrComma,
                        room(d, c),
                        (n->Some_0 - 1) as nat,
                    ));
                }
            }
        },
        None => {
            lemma_meets_end(d, c);
        },
    }
}

/// A member is met: its key, its value, and what follows it.
pub(crate) proof fn lemma_meets_member(d: Doc, c: Cursor)
    requires
        between(d, c),
        behind(c.state) == State::ObjComma,
        piece_at(d, c) is Some,
    ensures
        ({
            let p = piece_at(d, c)->Some_0;
            let c3 = Cursor { at: p.at, state: State::ObjValue, ..c };
            let c1 = look(d, c)->Ok_0.1;
            let c2 = past_string(c1, true, text(d.bytes, p.front + 1)->Ok_0.0);
            &&& look(d, c) matches Ok((t, _)) && t == Token::Key
            &&& c1.at == p.front
            &&& text(d.bytes, p.front + 1) matches Ok((_, name)) && name == p.name
            &&& look(d, c2) matches Ok((t, x)) && starts_value(t) && x == c3
            &&& skip(d, c2) == Outcome::Done((), past_piece(c, p))
            &&& span(d, c2) == Outcome::Done((p.at, p.end), past_piece(c, p))
            &&& between(d, past_piece(c, p))
        }),
{
    let p = piece_at(d, c)->Some_0;
    let r = room(d, c);
    let s = d.bytes;
    lemma_piece(s, c.at, c.state, r);
    lemma_look(d, c);
    assert(rest(s, c.at, c.state, r) is Ok) by {
        reveal(left);
    }
    lemma_meets_key(d, c);
    let m = next_token(s, c.at, c.state, false)->Ok_0;
    assert(m.token == Token::Key && m.at == p.front && text(s, m.at + 1) is Ok && value(
        s,
        p.at,
        r,
    ) == Ok::<int, Fault>(p.end) && next_token(
        s,
        text(s, m.at + 1)->Ok_0.0,
        State::ObjColon,
        false,
    )->Ok_0.at == p.at && text(s, m.at + 1)->Ok_0.1 == p.name) by {
        reveal(piece);
    }
    let (at, k, n) = lemma_rest_key(s, c.at, c.state, r, Seq::empty());
    let c2 = Cursor { at: k, state: State::ObjColon, ..c };
    lemma_meets_value(d, c2);
    let c1 = look(d, c)->Ok_0.1;
    assert(past_string(c1, true, k) =~= c2);
    lemma_look(d, c2);
    assert(past_value(c2, p.end) =~= past_piece(c, p));
}

/// Where a member goes.
pub(crate) proof fn lemma_member_spot_tree(d: Doc, c: Cursor, step: Step, any: bool)
    requires
        between(d, c),
        behind(c.state) == State::ObjComma,
    ensures
        ({
            let its = left_at(d, c).1;
            let o = member_spot(d, c, step, any);
            match first_named(its, step_name(step)) {
                Some(n) => o == value_spot(
                    Cursor {
                        at: place(d.bytes, c.at, c.state, room(d, c), n),
                        state: State::ObjValue,
                        ..c
                    },
                ),
                None => o matches Outcome::Done(Some(sp), _) && sp == (Spot {
                    at: left_at(d, c).0->Ok_0 - 1,
                    replace: false,
                    shape: Shape::Member { lead: any || its.len() > 0, key: step },
                }),
            }
        }),
    decreases d.bytes.len() - c.at,
{
    let its = left_at(d, c).1;
    lemma_piece(d.bytes, c.at, c.state, room(d, c));
    match piece_at(d, c) {
        Some(p) => {
            lemma_meets_member(d, c);
            let c5 = past_piece(c, p);
            let more = left_at(d, c5).1;
            let item = read_item(d.bytes, p, room(d, c));
            assert(item.name == p.name) by {
                reveal(read_item);
            }
            assert(its[0] == item);
            assert(its.skip(1) =~= more);
            let c1 = look(d, c)->Ok_0.1;
            assert(try_member(d, c1, step) == (if step_name(step) == Some(p.name) {
                value_spot(Cursor { at: p.at, state: State::ObjValue, ..c })
            } else {
                Outcome::Done(None, c5)
            })) by {
                reveal(try_member);
            }
            if step_name(step) != Some(p.name) {
                lemma_member_spot_tree(d, c5, step, true);
                if first_named(more, step_name(step)) is Some {
                    let n = first_named(more, step_name(step))->Some_0;
                    assert(place(d.bytes, c.at, c.state, room(d, c), n + 1) == place(
                        d.bytes,
                        p.end,
                        State::ObjComma,
                        room(d, c),
                        n,
                    ));
                }
            }
        },
        None => {
            lemma_meets_end(d, c);
        },
    }
}

/// What is taken out with an item.
proof fn lemma_cut_item_tree(d: Doc, c: Cursor, prev: Option<int>)
    requires
        between(d, c),
        piece_at(d, c) is Some,
    ensures
        ({
            let p = piece_at(d, c)->Some_0;
            let (lo, hi) = cut_at(d.bytes, c.at, c.state, room(d, c), 0, prev);
            cut_item(d, past_piece(c, p), p.front, p.end, prev) matches Outcome::Done(
                Some(ch),
                _,
            ) && ch == (Change { start: lo, end: hi, shape: Shape::Remove })
        }),
{
    let p = piece_at(d, c)->Some_0;
    let c5 = past_piece(c, p);
    if behind(c.state) == State::ArrComma {
        lemma_meets_item(d, c);
    } else {
        lemma_meets_member(d, c);
    }
    match piece_at(d, c5) {
        Some(q) => {
            if behind(c.state) == State::ArrComma {
                lemma_meets_item(d, c5);
                lemma_piece(d.bytes, c5.at, c5.state, room(d, c5));
            } else {
                lemma_meets_member(d, c5);
            }
        },
        None => {
            lemma_meets_end(d, c5);
        },
    }
}

/// What is taken out with the first member that has a name.
pub(crate) proof fn lemma_cut_member_tree(d: Doc, c: Cursor, step: Step, prev: Option<int>)
    requires
        between(d, c),
        behind(c.state) == State::ObjComma,
    ensures
        match first_named(left_at(d, c).1, step_name(step)) {
            Some(n) => {
                let (lo, hi) = cut_at(d.bytes, c.at, c.state, room(d, c), n, prev);
                cut_member(d, c, step, prev) matches Outcome::Done(Some(ch), _) && ch == (Change {
                    start: lo,
                    end: hi,
                    shape: Shape::Remove,
                })
            },
            None => cut_member(d, c, step, prev) matches Outcome::Done(None, _),
        },
    decreases d.bytes.len() - c.at,
{
    let its = left_at(d, c).1;
    lemma_piece(d.bytes, c.at, c.state, room(d, c));
    match piece_at(d, c) {
        Some(p) => {
            lemma_meets_member(d, c);
            let c5 = past_piece(c, p);
            let item = read_item(d.bytes, p, room(d, c));
            assert(item.name == p.name) by {
                reveal(read_item);
            }
            assert(its[0] == item);
            assert(its.skip(1) =~= left_at(d, c5).1);
            if step_name(step) == Some(p.name) {
                lemma_cut_item_tree(d, c, prev);
            } else {
                lemma_cut_member_tree(d, c5, step, Some(p.end));
            }
        },
        None => {
            lemma_meets_end(d, c);
        },
    }
}

/// What is taken out with an element.
pub(crate) proof fn lemma_cut_element_tree(d: Doc, c: Cursor, n: nat, prev: Option<int>)
    requires
        between(d, c),
        behind(c.state) == State::ArrComma,
    ensures
        if n < left_at(d, c).1.len() {
            let (lo, hi) = cut_at(d.bytes, c.at, c.state, room(d, c), n, prev);
            cut_element(d, c, n, prev) matches Outcome::Done(Some(ch), _) && ch == (Change {
                start: lo,
                end: hi,
                shape: Shape::Remove,
            })
        } else {
            cut_element(d, c, n, prev) matches Outcome::Done(None, _)
        },
    decreases n,
{
    let its = left_at(d, c).1;
    lemma_piece(d.bytes, c.at, c.state, room(d, c));
    match piece_at(d, c) {
        Some(p) => {
            lemma_meets_item(d, c);
            let c5 = past_piece(c, p);
            assert(its.len() == left_at(d, c5).1.len() + 1);
            if n == 0 {
                lemma_cut_item_tree(d, c, prev);
            } else {
                lemma_cut_element_tree(d, c5, (n - 1) as nat, Some(p.end));
            }
        },
        None => {
            lemma_meets_end(d, c);
        },
    }
}

/// Whether a value is a container.
pub open spec fn is_container(t: Json) -> bool {
    t is Array || t is Object
}

/// The cursor inside the container at `c`.
pub open spec fn inside_at(d: Doc, c: Cursor) -> Cursor {
    let b = d.bytes[c.at];
    Cursor {
        at: c.at + 1,
        state: inside(b),
        stack: c.stack.push(b == BRACE_OPEN),
        stash: c.stash,
    }
}

/// A container is entered.
pub(crate) proof fn lemma_container(d: Doc, c: Cursor)
    requires
        at_whole(d, c),
    ensures
        ({
            let object = tree_at(d, c) is Object;
            let c0 = inside_at(d, c);
            &&& look(d, c) matches Ok((t, x)) && x == c && (t == Token::BeginObject <==> object) && (
            t == Token::BeginArray <==> tree_at(d, c) is Array)
            &&& is_container(tree_at(d, c)) ==> {
                &&& object <==> d.bytes[c.at] == BRACE_OPEN
                &&& enter(d, c, object) == Outcome::Done((), c0)
                &&& room(d, c0) == room(d, c) - 1
                &&& between(d, c0)
                &&& left_at(d, c0) == (end_at(d, c), children(tree_at(d, c)))
                &&& behind(c0.state) == (if object {
                    State::ObjComma
                } else {
                    State::ArrComma
                })
            }
        }),
{
    reveal(at_whole);
    reveal(tree_at);
    reveal(end_at);
    reveal(left);
    lemma_value_state(d, c);
    lemma_look(d, c);
    let c0 = inside_at(d, c);
    assert(c0.stack.drop_last() =~= c.stack);
}

/// A container whose text was edited is read with its new items.
proof fn lemma_rebuild(d: Doc, e: Doc, c: Cursor, k: int, its: Seq<Item>)
    requires
        at_whole(d, c),
        is_container(tree_at(d, c)),
        e.limit == d.limit,
        c.at < e.bytes.len(),
        e.bytes[c.at] == d.bytes[c.at],
        left(e.bytes, c.at + 1, inside(d.bytes[c.at]), room(d, c) - 1) == (Ok::<int, Fault>(k), its),
    ensures
        end_at(e, c) == Ok::<int, Fault>(k),
        tree_at(e, c) == with_children(tree_at(d, c), its),
{
    lemma_container(d, c);
    reveal(at_whole);
    reveal(tree_at);
    reveal(end_at);
    reveal(left);
    lemma_value_state(d, c);
}

/// The text of the container at `path` was edited.
pub(crate) proof fn lemma_edit_inside(
    s: Seq<u8>,
    limit: int,
    path: Seq<Step>,
    c: Cursor,
    lo: int,
    hi: int,
    ins: Seq<u8>,
    its: Seq<Item>,
)
    requires
        is_document(s, 0, limit),
        0 <= limit,
        leads(doc(s, limit), root(s), path, c),
        is_container(tree_at(doc(s, limit), c)),
        c.at < lo <= hi < end_at(doc(s, limit), c)->Ok_0,
        left(
            spliced(s, lo, hi, ins),
            c.at + 1,
            inside(s[c.at]),
            room(doc(s, limit), c) - 1,
        ) == (
            Ok::<int, Fault>(end_at(doc(s, limit), c)->Ok_0 - (hi - lo) + ins.len()),
            its,
        ),
    ensures
        ({
            let t = spliced(s, lo, hi, ins);
            &&& is_document(t, 0, limit)
            &&& meaning(t, limit) == put(
                meaning(s, limit),
                path,
                with_children(tree_at(doc(s, limit), c), its),
            )
            &&& leads(doc(t, limit), root(t), path, c)
        }),
{
    let d = doc(s, limit);
    let t = spliced(s, lo, hi, ins);
    let e = doc(t, limit);
    lemma_root(s, limit, path);
    lemma_leads_tree(d, root(s), path, c);
    lemma_whole(d, c);
    let b = end_at(d, c)->Ok_0;
    lemma_spliced(s, lo, hi, ins);
    assert(s[c.at] == t[c.at + 0]);
    lemma_rebuild(d, e, c, b - (hi - lo) + ins.len(), its);
    lemma_spliced_swap(s, lo, hi, ins);
    lemma_swapped_around(s, t, lo, hi, lo + ins.len(), c.at, b);
    lemma_swap_doc(s, t, limit, path, c, b, b - (hi - lo) + ins.len());
}

/// `t` with another element at its end, if it is an array.
pub open spec fn pushed(t: Json, new: Json) -> Option<Json> {
    match t {
        Json::Array(its) => Some(
            Json::Array(its.push(Item { name: Seq::empty(), value: new })),
        ),
        _ => None,
    }
}

/// The new text of a container with one more item at its end.
pub(crate) proof fn lemma_append(d: Doc, c: Cursor, name: Seq<u8>, v: Seq<u8>)
    requires
        at_whole(d, c),
        is_container(tree_at(d, c)),
        is_value(v, room(d, c) - 1),
        valid_utf8(name),
        tree_at(d, c) is Array ==> name == Seq::<u8>::empty(),
    ensures
        ({
            let its = children(tree_at(d, c));
            let z = end_at(d, c)->Ok_0 - 1;
            let lead = its.len() > 0;
            let ins = if tree_at(d, c) is Object {
                key_front(lead, name) + v
            } else {
                comma(lead) + v
            };
            let new = Item { name, value: tree(v, 0, room(d, c) - 1) };
            &&& c.at < z
            &&& left(
                spliced(d.bytes, z, z, ins),
                c.at + 1,
                inside(d.bytes[c.at]),
                room(d, c) - 1,
            ) == (Ok::<int, Fault>(end_at(d, c)->Ok_0 + ins.len()), its.push(new))
            &&& place(
                spliced(d.bytes, z, z, ins),
                c.at + 1,
                inside(d.bytes[c.at]),
                room(d, c) - 1,
                its.len(),
            ) == z + ins.len() - v.len()
        }),
{
    let its = children(tree_at(d, c));
    let s = d.bytes;
    let r = room(d, c) - 1;
    lemma_container(d, c);
    let c0 = inside_at(d, c);
    lemma_tail(s, c0.at, c0.state, r);
    let (j, sj) = tail(s, c0.at, c0.state, r);
    let z = end_at(d, c)->Ok_0 - 1;
    let lead = its.len() > 0;
    let ins = if tree_at(d, c) is Object {
        key_front(lead, name) + v
    } else {
        comma(lead) + v
    };
    let t = spliced(s, z, z, ins);
    let new = Item { name, value: tree(v, 0, r) };
    if tree_at(d, c) is Object {
        lemma_add_member(s, j, sj, r, name, v);
    } else {
        lemma_add_element(s, j, sj, r, v);
    }
    lemma_spliced(s, z, z, ins);
    if lead {
        assert(ins[0] == t[0 + z]);
    }
    assert(left(t, j, sj, r) == (Ok::<int, Fault>(z + 1 + ins.len()), seq![new])) by {
        reveal(left);
    }
    lemma_extend(s, t, c0.at, c0.state, r);
    assert(its + seq![new] =~= its.push(new));
}

/// Pushing a value.
proof fn lemma_push(s: Seq<u8>, limit: int, path: Seq<Step>, v: Seq<u8>)
    requires
        is_document(s, 0, limit),
        0 <= limit,
        is_value(v, limit - path.len() - 1),
    ensures
        ({
            let new = tree(v, 0, limit - path.len() - 1);
            let at = get(meaning(s, limit), path);
            match change(doc(s, limit), start(0), Op::Push, path) {
                Outcome::Done(Some(ch), _) => {
                    let lead = children(at->Some_0).len() > 0;
                    let t = spliced(s, ch.start, ch.end, comma(lead) + v);
                    &&& ch.shape == (Shape::Element { lead, trail: false })
                    &&& at matches Some(a) && pushed(a, new) matches Some(q) && is_document(
                        t,
                        0,
                        limit,
                    ) && meaning(t, limit) == put(meaning(s, limit), path, q)
                },
                Outcome::Done(None, _) => at is None || pushed(at->Some_0, new) is None,
                _ => false,
            }
        }),
{
    let d = doc(s, limit);
    let new = tree(v, 0, limit - path.len() - 1);
    reveal(spot);
    lemma_root(s, limit, path);
    lemma_seek_tree(d, root(s), path);
    if get(meaning(s, limit), path) is Some {
        let c = seek(d, start(0), path)->Done_1;
        assert(leads(d, root(s), path, c)) by {
            reveal(leads);
        }
        lemma_container(d, c);
        if tree_at(d, c) is Array {
            let c0 = inside_at(d, c);
            lemma_end_spot_tree(d, c0, false);
            lemma_whole(d, c);
            let its = children(tree_at(d, c));
            let z = end_at(d, c)->Ok_0 - 1;
            let ins = comma(its.len() > 0) + v;
            assert(valid_utf8(Seq::<u8>::empty()));
            lemma_append(d, c, Seq::empty(), v);
            lemma_edit_inside(
                s,
                limit,
                path,
                c,
                z,
                z,
                ins,
                its.push(Item { name: Seq::empty(), value: new }),
            );
        }
    }
}

/// Replacing an item is replacing the container that holds it.
proof fn lemma_put_last(t: Json, path: Seq<Step>, new: Json, n: nat)
    requires
        path.len() > 0,
        get(t, path.drop_last()) is Some,
        child_at(get(t, path.drop_last())->Some_0, path.last()) == Some(n),
    ensures
        ({
            let p = get(t, path.drop_last())->Some_0;
            put(t, path, new) == put(
                t,
                path.drop_last(),
                with_children(p, with_value(children(p), n as int, new)),
            )
        }),
    decreases path.len(),
{
    let init = path.drop_last();
    if init.len() > 0 {
        assert(init[0] == path[0]);
        let m = child_at(t, path[0])->Some_0;
        assert(path.skip(1).drop_last() =~= init.skip(1));
        lemma_put_last(children(t)[m as int].value, path.skip(1), new, n);
    } else {
        assert(path[0] == path.last());
        assert(put(children(t)[n as int].value, path.skip(1), new) == new);
    }
}

/// `t` with another value where `step` goes: in place of the item that it designates (in front of
/// an element, if `insert`), or as a new item at the end.
pub open spec fn added(t: Json, step: Step, insert: bool, new: Json) -> Option<Json> {
    match t {
        Json::Object(its) => match first_named(its, step_name(step)) {
            Some(n) => Some(Json::Object(with_value(its, n as int, new))),
            None => Some(Json::Object(its.push(Item { name: new_name(step), value: new }))),
        },
        Json::Array(its) => if step_is_end(step) || step_index(step) == Some(its.len()) {
            pushed(t, new)
        } else {
            match step_index(step) {
                Some(n) => if n > its.len() {
                    None
                } else if insert {
                    Some(Json::Array(its.insert(n as int, Item { name: Seq::empty(), value: new })))
                } else {
                    Some(Json::Array(with_value(its, n as int, new)))
                },
                None => None,
            }
        },
        _ => None,
    }
}

/// Where an item is replaced, the edit is that of [`Op::Replace`].
proof fn lemma_add_existing(s: Seq<u8>, limit: int, path: Seq<Step>, op: Op, c: Cursor, n: nat)
    requires
        is_document(s, 0, limit),
        0 <= limit,
        path.len() > 0,
        op == Op::Put || op == Op::Insert,
        leads(doc(s, limit), root(s), path.drop_last(), c),
        child_at(tree_at(doc(s, limit), c), path.last()) == Some(n),
        tree_at(doc(s, limit), c) is Array ==> op == Op::Put && !step_is_end(path.last()),
    ensures
        change(doc(s, limit), start(0), op, path) == change(
            doc(s, limit),
            start(0),
            Op::Replace,
            path,
        ),
{
    let d = doc(s, limit);
    let step = path.last();
    reveal(spot);
    lemma_root(s, limit, path);
    lemma_root(s, limit, path.drop_last());
    lemma_leads_tree(d, root(s), path.drop_last(), c);
    lemma_leads_last(d, root(s), path, c, n);
    reveal(leads);
    lemma_container(d, c);
    let c0 = inside_at(d, c);
    if tree_at(d, c) is Object {
        lemma_member_spot_tree(d, c0, step, false);
    } else {
        lemma_element_spot_tree(d, c0, step_index(step), false, false);
    }
    reveal(child_cursor);
    assert(spot(d, start(0), op, path) == child_spot(d, c, step, op == Op::Insert));
    assert(spot(d, start(0), op, path) == value_spot(child_cursor(d, c, n)));
}

/// The bytes that adding a value inserts.
pub open spec fn added_text(shape: Shape, v: Seq<u8>) -> Seq<u8> {
    match shape {
        Shape::Value => v,
        Shape::Remove => Seq::empty(),
        Shape::Member { lead, key } => key_front(lead, new_name(key)) + v,
        Shape::Element { lead, trail } => comma(lead) + v + comma(trail),
    }
}

/// What adding a value does to a document, as far as it applies.
pub open spec fn adds(
    s: Seq<u8>,
    limit: int,
    path: Seq<Step>,
    op: Op,
    v: Seq<u8>,
    new: Json,
) -> bool {
    let parent = get(meaning(s, limit), path.drop_last());
    let q = match parent {
        Some(p) => added(p, path.last(), op == Op::Insert, new),
        None => None,
    };
    match change(doc(s, limit), start(0), op, path) {
        Outcome::Done(Some(ch), _) => {
            let t = spliced(s, ch.start, ch.end, added_text(ch.shape, v));
            &&& q is Some
            &&& is_document(t, 0, limit)
            &&& meaning(t, limit) == put(meaning(s, limit), path.drop_last(), q->Some_0)
        },
        Outcome::Done(None, _) => q is None,
        _ => false,
    }
}

/// A new item at the end of the container at `c`.
#[verifier::rlimit(40)]
proof fn lemma_adds_last(
    s: Seq<u8>,
    limit: int,
    path: Seq<Step>,
    op: Op,
    c: Cursor,
    name: Seq<u8>,
    v: Seq<u8>,
)
    requires
        is_document(s, 0, limit),
        0 <= limit,
        path.len() > 0,
        leads(doc(s, limit), root(s), path.drop_last(), c),
        is_container(tree_at(doc(s, limit), c)),
        is_value(v, limit - path.len()),
        valid_utf8(name),
        ({
            let t = tree_at(doc(s, limit), c);
            let lead = children(t).len() > 0;
            &&& t is Object ==> name == new_name(path.last())
            &&& t is Array ==> name == Seq::<u8>::empty()
            &&& added(
                t,
                path.last(),
                op == Op::Insert,
                tree(v, 0, limit - path.len()),
            ) == Some(
                with_children(
                    t,
                    children(t).push(Item { name, value: tree(v, 0, limit - path.len()) }),
                ),
            )
            &&& change(doc(s, limit), start(0), op, path) matches Outcome::Done(Some(ch), _) && ch
                == (Change {
                start: end_at(doc(s, limit), c)->Ok_0 - 1,
                end: end_at(doc(s, limit), c)->Ok_0 - 1,
                shape: if t is Object {
                    Shape::Member { lead, key: path.last() }
                } else {
                    Shape::Element { lead, trail: false }
                },
            })
        }),
    ensures
        adds(s, limit, path, op, v, tree(v, 0, limit - path.len())),
{
    let d = doc(s, limit);
    let new = Item { name, value: tree(v, 0, limit - path.len()) };
    lemma_root(s, limit, path.drop_last());
    lemma_leads_tree(d, root(s), path.drop_last(), c);
    lemma_whole(d, c);
    let its = children(tree_at(d, c));
    let z = end_at(d, c)->Ok_0 - 1;
    let lead = its.len() > 0;
    let ins = if tree_at(d, c) is Object {
        key_front(lead, name) + v
    } else {
        comma(lead) + v
    };
    lemma_append(d, c, name, v);
    lemma_edit_inside(s, limit, path.drop_last(), c, z, z, ins, its.push(new));
    assert(comma(lead) + v + comma(false) =~= comma(lead) + v);
}

/// A new element in front of another.
#[verifier::rlimit(40)]
proof fn lemma_adds_insert(
    s: Seq<u8>,
    limit: int,
    path: Seq<Step>,
    c: Cursor,
    n: nat,
    v: Seq<u8>,
)
    requires
        is_document(s, 0, limit),
        0 <= limit,
        path.len() > 0,
        leads(doc(s, limit), root(s), path.drop_last(), c),
        tree_at(doc(s, limit), c) is Array,
        is_value(v, limit - path.len()),
        step_index(path.last()) == Some(n),
        !step_is_end(path.last()),
        n < children(tree_at(doc(s, limit), c)).len(),
        ({
            let c0 = inside_at(doc(s, limit), c);
            let a = place(s, c0.at, c0.state, room(doc(s, limit), c0), n);
            change(doc(s, limit), start(0), Op::Insert, path) matches Outcome::Done(Some(ch), _)
                && ch == (Change {
                start: a,
                end: a,
                shape: Shape::Element { lead: false, trail: true },
            })
        }),
    ensures
        adds(s, limit, path, Op::Insert, v, tree(v, 0, limit - path.len())),
{
    let d = doc(s, limit);
    let new = Item { name: Seq::empty(), value: tree(v, 0, limit - path.len()) };
    lemma_root(s, limit, path.drop_last());
    lemma_leads_tree(d, root(s), path.drop_last(), c);
    lemma_container(d, c);
    let c0 = inside_at(d, c);
    let r = room(d, c0);
    let a = place(s, c0.at, c0.state, r, n);
    let its = children(tree_at(d, c));
    lemma_insert(s, c0.at, c0.state, r, n, v);
    let ins = v + seq![COMMA];
    lemma_edit_inside(
        s,
        limit,
        path.drop_last(),
        c,
        a,
        a,
        ins,
        its.insert(n as int, new),
    );
    assert(comma(false) + v + comma(true) =~= ins);
}

/// A value where there is one already.
#[verifier::rlimit(40)]
proof fn lemma_adds_existing(
    s: Seq<u8>,
    limit: int,
    path: Seq<Step>,
    op: Op,
    c: Cursor,
    n: nat,
    v: Seq<u8>,
)
    requires
        is_document(s, 0, limit),
        0 <= limit,
        path.len() > 0,
        op == Op::Put || op == Op::Insert,
        leads(doc(s, limit), root(s), path.drop_last(), c),
        is_value(v, limit - path.len()),
        child_at(tree_at(doc(s, limit), c), path.last()) == Some(n),
        tree_at(doc(s, limit), c) is Array ==> op == Op::Put && !step_is_end(path.last()),
    ensures
        adds(s, limit, path, op, v, tree(v, 0, limit - path.len())),
{
    let d = doc(s, limit);
    let new = tree(v, 0, limit - path.len());
    lemma_root(s, limit, path.drop_last());
    lemma_leads_tree(d, root(s), path.drop_last(), c);
    lemma_leads_last(d, root(s), path, c, n);
    lemma_leads_tree(d, root(s), path, child_cursor(d, c, n));
    lemma_add_existing(s, limit, path, op, c, n);
    lemma_replace(s, limit, path, v);
    lemma_put_last(meaning(s, limit), path, new, n);
}

/// Adding a value, whatever the document holds.
#[verifier::rlimit(40)]
proof fn lemma_adds(s: Seq<u8>, limit: int, path: Seq<Step>, op: Op, v: Seq<u8>)
    requires
        is_document(s, 0, limit),
        0 <= limit,
        path.len() > 0,
        op == Op::Put || op == Op::Insert,
        is_value(v, limit - path.len()),
        valid_utf8(new_name(path.last())),
    ensures
        adds(s, limit, path, op, v, tree(v, 0, limit - path.len())),
{
    let d = doc(s, limit);
    let parent = path.drop_last();
    let step = path.last();
    let new = tree(v, 0, limit - path.len());
    lemma_root(s, limit, parent);
    lemma_seek_tree(d, root(s), parent);
    if get(meaning(s, limit), parent) is Some {
        let c = seek(d, start(0), parent)->Done_1;
        assert(leads(d, root(s), parent, c)) by {
            reveal(leads);
        }
        assert(spot(d, start(0), op, path) == child_spot(d, c, step, op == Op::Insert)) by {
            reveal(spot);
        }
        lemma_container(d, c);
        let t = tree_at(d, c);
        let c0 = inside_at(d, c);
        let its = children(t);
        assert(valid_utf8(Seq::<u8>::empty()));
        if t is Object {
            lemma_member_spot_tree(d, c0, step, false);
            match first_named(its, step_name(step)) {
                Some(n) => lemma_adds_existing(s, limit, path, op, c, n, v),
                None => lemma_adds_last(s, limit, path, op, c, new_name(step), v),
            }
        } else if t is Array {
            let target = if step_is_end(step) {
                None
            } else {
                step_index(step)
            };
            lemma_element_spot_tree(d, c0, target, false, op == Op::Insert);
            if step_is_end(step) || step_index(step) == Some(its.len()) {
                lemma_adds_last(s, limit, path, op, c, Seq::empty(), v);
            } else if step_index(step) is Some && step_index(step)->Some_0 < its.len() {
                let n = step_index(step)->Some_0;
                if op == Op::Insert {
                    lemma_adds_insert(s, limit, path, c, n, v);
                } else {
                    lemma_adds_existing(s, limit, path, op, c, n, v);
                }
            }
        }
    } else {
        reveal(spot);
    }
}

/// `t` without the item that a step designates.
pub open spec fn removed(t: Json, step: Step) -> Option<Json> {
    match child_at(t, step) {
        Some(n) => Some(with_children(t, children(t).remove(n as int))),
        None => None,
    }
}

/// Removing a value: the edit applies exactly where the path leads to a member or an element. The
/// document is then still one, and means the same as before but for that item, which is gone.
pub proof fn law_remove(s: Seq<u8>, limit: int, path: Seq<Step>)
    requires
        is_document(s, 0, limit),
        0 <= limit,
    ensures
        ({
            let parent = get(meaning(s, limit), path.drop_last());
            let q = match parent {
                Some(p) => removed(p, path.last()),
                None => None,
            };
            match removal(doc(s, limit), start(0), path) {
                Outcome::Done(Some(ch), _) => {
                    let t = edited(s, ch, &());
                    &&& path.len() > 0
                    &&& q is Some
                    &&& is_document(t, 0, limit)
                    &&& meaning(t, limit) == put(meaning(s, limit), path.drop_last(), q->Some_0)
                },
                Outcome::Done(None, _) => path.len() == 0 || q is None,
                _ => false,
            }
        }),
{
    let d = doc(s, limit);
    let parent = path.drop_last();
    let step = path.last();
    reveal(removal);
    if path.len() > 0 {
        lemma_root(s, limit, parent);
        lemma_seek_tree(d, root(s), parent);
        if get(meaning(s, limit), parent) is Some {
            let c = seek(d, start(0), parent)->Done_1;
            assert(leads(d, root(s), parent, c)) by {
                reveal(leads);
            }
            lemma_container(d, c);
            let t = tree_at(d, c);
            let c0 = inside_at(d, c);
            if t is Object {
                lemma_cut_member_tree(d, c0, step, None);
                lemma_first_named(children(t), step_name(step));
            } else if t is Array && step_index(step) is Some {
                lemma_cut_element_tree(d, c0, step_index(step)->Some_0, None);
            }
            if child_at(t, step) is Some {
                lemma_removes(s, limit, path, c, child_at(t, step)->Some_0);
            }
        }
    }
}

/// The item number `n` of the container at `c` is taken out.
proof fn lemma_removes(s: Seq<u8>, limit: int, path: Seq<Step>, c: Cursor, n: nat)
    requires
        is_document(s, 0, limit),
        0 <= limit,
        path.len() > 0,
        leads(doc(s, limit), root(s), path.drop_last(), c),
        is_container(tree_at(doc(s, limit), c)),
        n < children(tree_at(doc(s, limit), c)).len(),
    ensures
        ({
            let c0 = inside_at(doc(s, limit), c);
            let (lo, hi) = cut_at(s, c0.at, c0.state, room(doc(s, limit), c0), n, None);
            let t = edited(s, (Change { start: lo, end: hi, shape: Shape::Remove }), &());
            let p = tree_at(doc(s, limit), c);
            &&& is_document(t, 0, limit)
            &&& meaning(t, limit) == put(
                meaning(s, limit),
                path.drop_last(),
                with_children(p, children(p).remove(n as int)),
            )
        }),
{
    let d = doc(s, limit);
    lemma_root(s, limit, path.drop_last());
    lemma_leads_tree(d, root(s), path.drop_last(), c);
    lemma_container(d, c);
    let c0 = inside_at(d, c);
    let r = room(d, c0);
    let (lo, hi) = cut_at(s, c0.at, c0.state, r, n, None);
    lemma_cut(s, c0.at, c0.state, r, n, None);
    lemma_edit_inside(
        s,
        limit,
        path.drop_last(),
        c,
        lo,
        hi,
        Seq::empty(),
        children(tree_at(d, c)).remove(n as int),
    );
    assert(spliced(s, lo, hi, Seq::empty()) == edited(
        s,
        (Change { start: lo, end: hi, shape: Shape::Remove }),
        &(),
    )) by {
        reveal(spliced);
    }
}

/// What a patch writes for a value.
pub(crate) proof fn lemma_content<V: ToJson + ?Sized>(s: Seq<u8>, ch: Change, new: &V)
    ensures
        ({
            let v = if ch.shape is Member {
                new.json(after_key(compact())).0
            } else {
                encoding(new)
            };
            edited(s, ch, new) == spliced(s, ch.start, ch.end, added_text(ch.shape, v))
        }),
{
    reveal(spliced);
    match ch.shape {
        Shape::Member { lead, key } => {
            let v = new.json(after_key(compact())).0;
            assert(content(ch.shape, new) =~= added_text(ch.shape, v));
        },
        _ => {},
    }
}

/// The value at a path is what was put there.
pub(crate) proof fn lemma_get_put(t: Json, path: Seq<Step>, new: Json)
    requires
        get(t, path) is Some,
    ensures
        get(put(t, path, new), path) == Some(new),
    decreases path.len(),
{
    if path.len() > 0 {
        let n = child_at(t, path[0])->Some_0;
        lemma_child_at(t, path[0]);
        let v = put(children(t)[n as int].value, path.skip(1), new);
        lemma_get_put(children(t)[n as int].value, path.skip(1), new);
        lemma_named_value(children(t), step_name(path[0]), n as int, v);
        assert(children(put(t, path, new)) =~= with_value(children(t), n as int, v));
    }
}

/// A step designates an item that is there.
pub(crate) proof fn lemma_child_at(t: Json, step: Step)
    ensures
        child_at(t, step) matches Some(n) ==> n < children(t).len(),
{
    lemma_first_named(children(t), step_name(step));
}

/// With another value, an item is found where it was.
proof fn lemma_named_value(its: Seq<Item>, name: Option<Seq<u8>>, n: int, v: Json)
    requires
        0 <= n < its.len(),
    ensures
        first_named(with_value(its, n, v), name) == first_named(its, name),
    decreases its.len(),
{
    let new = with_value(its, n, v);
    if n == 0 {
        assert(new.skip(1) =~= its.skip(1));
    } else {
        lemma_named_value(its.skip(1), name, n - 1, v);
        assert(new.skip(1) =~= with_value(its.skip(1), n - 1, v));
    }
}

/// A new item at the end is found, where no other has its name.
pub(crate) proof fn lemma_named_last(its: Seq<Item>, new: Item)
    requires
        first_named(its, Some(new.name)) is None,
    ensures
        first_named(its.push(new), Some(new.name)) == Some(its.len()),
    decreases its.len(),
{
    if its.len() > 0 {
        assert(its.push(new).skip(1) =~= its.skip(1).push(new));
        lemma_named_last(its.skip(1), new);
    }
}

/// A reference token that stands for a name gives a new member that name.
pub(crate) proof fn lemma_pointer_name(p: Seq<u8>)
    ensures
        unescape(p) matches Some(name) ==> pointer_name(p) == name,
    decreases p.len(),
{
    if p.len() > 0 {
        lemma_pointer_name(p.skip(1));
        if p.len() >= 2 {
            lemma_pointer_name(p.skip(2));
        }
    }
}

/// `-` is no index.
pub(crate) proof fn lemma_end_no_index(step: Step)
    requires
        step_is_end(step),
    ensures
        step_index(step) is None,
{
    assert forall|n: nat| #[trigger] decimal(n) != seq![MINUS] by {
        lemma_decimal_index(n);
        assert(is_digit(decimal(n)[0]));
    }
}

/// Whether a step designates what was added for it: in an array, `-` never does, and in an object,
/// a reference token with a `~` that starts no escape does not.
pub open spec fn designates(t: Json, step: Step) -> bool {
    match t {
        Json::Array(_) => !step_is_end(step),
        _ => step_name(step) is Some,
    }
}

/// What was added for a step is there.
proof fn lemma_added(t: Json, step: Step, insert: bool, new: Json)
    requires
        added(t, step, insert, new) is Some,
        designates(t, step),
    ensures
        ({
            let q = added(t, step, insert, new)->Some_0;
            child_at(q, step) matches Some(n) && n < children(q).len() && children(q)[n as int].value
                == new
        }),
{
    lemma_child_at(t, step);
    match t {
        Json::Object(its) => match first_named(its, step_name(step)) {
            Some(n) => {
                lemma_named_value(its, step_name(step), n as int, new);
            },
            None => {
                match step {
                    Step::Pointer(p) => lemma_pointer_name(p),
                    _ => {},
                }
                lemma_named_last(its, Item { name: new_name(step), value: new });
            },
        },
        _ => {},
    }
}

/// The value at a path is the item that the last step designates.
pub(crate) proof fn lemma_get_child(t: Json, path: Seq<Step>)
    requires
        path.len() > 0,
        get(t, path.drop_last()) is Some,
    ensures
        ({
            let p = get(t, path.drop_last())->Some_0;
            child_at(p, path.last()) matches Some(n) ==> get(t, path) == Some(
                children(p)[n as int].value,
            )
        }),
    decreases path.len(),
{
    let init = path.drop_last();
    if init.len() > 0 {
        assert(init[0] == path[0]);
        let m = child_at(t, path[0])->Some_0;
        assert(path.skip(1).drop_last() =~= init.skip(1));
        lemma_get_child(children(t)[m as int].value, path.skip(1));
    } else {
        assert(path[0] == path.last());
        reveal_with_fuel(get, 2);
    }
}

/// Appending a value to an array: the edit applies exactly where the path leads to an array. The
/// document is then still one, and means the same as before but for the new last element.
pub proof fn law_push<V: ToJson + ?Sized>(s: Seq<u8>, limit: int, path: Seq<Step>, new: &V)
    requires
        is_document(s, 0, limit),
        0 <= limit,
        is_value(encoding(new), limit - path.len() - 1),
    ensures
        ({
            let n = tree(encoding(new), 0, limit - path.len() - 1);
            let q = match get(meaning(s, limit), path) {
                Some(a) => pushed(a, n),
                None => None,
            };
            match change(doc(s, limit), start(0), Op::Push, path) {
                Outcome::Done(Some(ch), _) => {
                    let t = edited(s, ch, new);
                    &&& q is Some
                    &&& is_document(t, 0, limit)
                    &&& meaning(t, limit) == put(meaning(s, limit), path, q->Some_0)
                },
                Outcome::Done(None, _) => q is None,
                _ => false,
            }
        }),
{
    lemma_push(s, limit, path, encoding(new));
    match change(doc(s, limit), start(0), Op::Push, path) {
        Outcome::Done(Some(ch), _) => {
            let lead = children(get(meaning(s, limit), path)->Some_0).len() > 0;
            lemma_content(s, ch, new);
            assert(comma(lead) + encoding(new) + comma(false) =~= comma(lead) + encoding(new));
        },
        _ => {},
    }
}

/// Setting and inserting a value: the edit applies exactly where the parent is an object, or an
/// array that has such an element or ends there. The document is then still one, and means the
/// same as before but for that value: set, it replaces the item that the last step designates;
/// inserted in an array, it goes in front of it; where there is none, it is added at the end. The
/// path then leads to the new value, if the last step can designate it.
pub proof fn law_add<V: ToJson + ?Sized>(
    s: Seq<u8>,
    limit: int,
    path: Seq<Step>,
    op: Op,
    new: &V,
    n: Json,
)
    requires
        is_document(s, 0, limit),
        0 <= limit,
        path.len() > 0,
        op == Op::Put || op == Op::Insert,
        step_valid(path.last()),
        encodes(new, limit - path.len(), n),
    ensures
        ({
            let parent = get(meaning(s, limit), path.drop_last());
            let q = match parent {
                Some(p) => added(p, path.last(), op == Op::Insert, n),
                None => None,
            };
            match change(doc(s, limit), start(0), op, path) {
                Outcome::Done(Some(ch), _) => {
                    let t = edited(s, ch, new);
                    &&& q is Some
                    &&& is_document(t, 0, limit)
                    &&& meaning(t, limit) == put(meaning(s, limit), path.drop_last(), q->Some_0)
                    &&& designates(parent->Some_0, path.last()) ==> get(meaning(t, limit), path)
                        == Some(n)
                },
                Outcome::Done(None, _) => q is None,
                _ => false,
            }
        }),
{
    let w = new.json(after_key(compact())).0;
    lemma_new_name_utf8(path.last());
    lemma_adds(s, limit, path, op, encoding(new));
    lemma_adds(s, limit, path, op, w);
    match change(doc(s, limit), start(0), op, path) {
        Outcome::Done(Some(ch), _) => {
            lemma_content(s, ch, new);
            let init = path.drop_last();
            let parent = get(meaning(s, limit), init)->Some_0;
            let q = added(parent, path.last(), op == Op::Insert, n)->Some_0;
            let m = meaning(edited(s, ch, new), limit);
            lemma_get_put(meaning(s, limit), init, q);
            if designates(parent, path.last()) {
                lemma_added(parent, path.last(), op == Op::Insert, n);
                lemma_get_child(m, path);
            }
        },
        _ => {},
    }
}

/// The value that is at a path, put there, changes nothing.
proof fn lemma_put_get(t: Json, path: Seq<Step>)
    requires
        get(t, path) is Some,
    ensures
        put(t, path, get(t, path)->Some_0) == t,
    decreases path.len(),
{
    if path.len() > 0 {
        let n = child_at(t, path[0])->Some_0;
        lemma_child_at(t, path[0]);
        lemma_put_get(children(t)[n as int].value, path.skip(1));
        let v = children(t)[n as int].value;
        assert(with_value(children(t), n as int, v) =~= children(t));
    }
}

/// Of two values put at the same path, the second stays.
proof fn lemma_put_put(t: Json, path: Seq<Step>, a: Json, b: Json)
    requires
        get(t, path) is Some,
    ensures
        put(put(t, path, a), path, b) == put(t, path, b),
    decreases path.len(),
{
    if path.len() > 0 {
        let n = child_at(t, path[0])->Some_0;
        let its = children(t);
        lemma_child_at(t, path[0]);
        let v = put(its[n as int].value, path.skip(1), a);
        let w = put(its[n as int].value, path.skip(1), b);
        lemma_put_put(its[n as int].value, path.skip(1), a, b);
        lemma_named_value(its, step_name(path[0]), n as int, v);
        assert(with_value(with_value(its, n as int, v), n as int, w) =~= with_value(
            its,
            n as int,
            w,
        ));
    }
}

/// Removing what was added leaves what was there before.
proof fn lemma_added_removed(t: Json, step: Step, insert: bool, new: Json)
    requires
        added(t, step, insert, new) is Some,
        designates(t, step),
        child_at(t, step) is None || (insert && t is Array),
    ensures
        removed(added(t, step, insert, new)->Some_0, step) == Some(t),
{
    lemma_child_at(t, step);
    lemma_added(t, step, insert, new);
    match t {
        Json::Object(its) => {
            let item = Item { name: new_name(step), value: new };
            match step {
                Step::Pointer(p) => lemma_pointer_name(p),
                _ => {},
            }
            lemma_named_last(its, item);
            assert(its.push(item).remove(its.len() as int) =~= its);
        },
        Json::Array(its) => {
            let item = Item { name: Seq::empty(), value: new };
            let n = step_index(step)->Some_0;
            if n == its.len() {
                assert(its.push(item).remove(n as int) =~= its);
            } else {
                assert(its.insert(n as int, item).remove(n as int) =~= its);
            }
        },
        _ => {},
    }
}

/// Removing what was just added gives back what the document meant: a member that was set where
/// there was none with its name, or an element that was inserted.
pub proof fn law_add_remove<V: ToJson + ?Sized>(
    s: Seq<u8>,
    limit: int,
    path: Seq<Step>,
    op: Op,
    new: &V,
    n: Json,
)
    requires
        is_document(s, 0, limit),
        0 <= limit,
        path.len() > 0,
        op == Op::Put || op == Op::Insert,
        step_valid(path.last()),
        encodes(new, limit - path.len(), n),
        get(meaning(s, limit), path.drop_last()) matches Some(p) && {
            &&& designates(p, path.last())
            &&& child_at(p, path.last()) is None || (op == Op::Insert && p is Array)
        },
    ensures
        change(doc(s, limit), start(0), op, path) matches Outcome::Done(Some(ch), _) ==> {
            let t = edited(s, ch, new);
            removal(doc(t, limit), start(0), path) matches Outcome::Done(Some(cut), _) && {
                let u = edited(t, cut, &());
                is_document(u, 0, limit) && meaning(u, limit) == meaning(s, limit)
            }
        },
{
    law_add(s, limit, path, op, new, n);
    match change(doc(s, limit), start(0), op, path) {
        Outcome::Done(Some(ch), _) => {
            let t = edited(s, ch, new);
            let init = path.drop_last();
            let m = meaning(s, limit);
            let parent = get(m, init)->Some_0;
            let q = added(parent, path.last(), op == Op::Insert, n)->Some_0;
            lemma_get_put(m, init, q);
            lemma_added_removed(parent, path.last(), op == Op::Insert, n);
            law_remove(t, limit, path);
            lemma_put_put(m, init, q, parent);
            lemma_put_get(m, init);
        },
        _ => {},
    }
}

/// Setting the value at a path that leads to one is replacing it. So is inserting one, at the
/// root and in an object.
pub proof fn law_set_existing(s: Seq<u8>, limit: int, op: Op, path: Seq<Step>)
    requires
        is_document(s, 0, limit),
        0 <= limit,
        get(meaning(s, limit), path) is Some,
        op == Op::Put || op == Op::Insert,
        op == Op::Insert && path.len() > 0 ==> get(
            meaning(s, limit),
            path.drop_last(),
        ) matches Some(Json::Object(_)),
    ensures
        change(doc(s, limit), start(0), op, path) == change(
            doc(s, limit),
            start(0),
            Op::Replace,
            path,
        ),
{
    let d = doc(s, limit);
    if path.len() == 0 {
        reveal(spot);
    } else {
        let parent = path.drop_last();
        lemma_get_last(meaning(s, limit), path);
        lemma_root(s, limit, parent);
        lemma_seek_tree(d, root(s), parent);
        let c = seek(d, start(0), parent)->Done_1;
        assert(leads(d, root(s), parent, c)) by {
            reveal(leads);
        }
        let n = child_at(tree_at(d, c), path.last())->Some_0;
        if step_is_end(path.last()) {
            lemma_end_no_index(path.last());
        }
        lemma_add_existing(s, limit, path, op, c, n);
    }
}

/// A path leads through the container that holds what it leads to.
pub(crate) proof fn lemma_get_last(t: Json, path: Seq<Step>)
    requires
        path.len() > 0,
        get(t, path) is Some,
    ensures
        get(t, path.drop_last()) matches Some(p) && child_at(p, path.last()) is Some,
    decreases path.len(),
{
    let init = path.drop_last();
    if init.len() > 0 {
        assert(init[0] == path[0]);
        let m = child_at(t, path[0])->Some_0;
        assert(path.skip(1).drop_last() =~= init.skip(1));
        lemma_get_last(children(t)[m as int].value, path.skip(1));
    }
}

} // verus!
