//! Which bytes edits take out and put in: laws on the places of changes, told from where the items
//! of a document stand.

use vstd::prelude::*;
use vstd::utf8::{decode_utf8, decode_utf8_encode_utf8, valid_utf8};

use crate::cursor::{room, seek, span, Outcome};
use crate::edit::{change, content, edited, new_name, removal, Change, Op, Shape};
use crate::edit_laws::{
    inside_at, law_set_existing, lemma_child_at, lemma_container, lemma_cut_element_tree,
    lemma_cut_member_tree, lemma_get_child, lemma_get_last,
};
use crate::grammar::{
    lemma_next_token, lemma_skip_space, lemma_text, next_token, skip_space, text, value, Fault,
};
use crate::laws::{
    at_whole, child_at, child_cursor, doc, end_at, get, law_seek, leads, lemma_leads_last,
    lemma_replace_span, lemma_root, lemma_seek_tree, meaning, root, tree_at,
};
use crate::layout::{law_written_text, quoted};
use crate::notation::{
    around_member, is_blank, is_string, law_text_only, lemma_blank_skip, lemma_value_only,
    lies_between, notes, parts, Colon,
};
use crate::number::decimal;
use crate::parser::{start, State};
use crate::path::Step;
use crate::path_laws::{law_pointer_name, refers};
use crate::place_laws::lemma_add_change;
use crate::splice::{at_item, behind, cut_at, left, lemma_piece, piece, read_item};
use crate::tree::{place, tree, Item, Json};
use crate::util::is_document;
use crate::writer::{after_key, compact, encoding, ToJson};

verus! {

/// Whether item number `n` of `t` stands in `s` from `f` to `y`, and its value from `x` on.
pub open spec fn item_at(s: Seq<u8>, f: int, x: int, y: int, t: Json, n: int) -> bool {
    &&& 0 <= n < parts(t).len()
    &&& notes(s, x, y, parts(t)[n].value)
    &&& if t is Object {
        exists|k: Colon|
            k.start == f && #[trigger] around_member(s, f, y, k, x, y, parts(t)[n].name)
    } else {
        f == x
    }
}

/// Whether there is only a comma, with white space around it, from `y` to `f`.
pub open spec fn parted(s: Seq<u8>, y: int, f: int) -> bool {
    exists|m: int| #[trigger]
        lies_between(y, m, f) && is_blank(s, y, m) && m < f && s[m] == ',' as u8 && is_blank(
            s,
            m + 1,
            f,
        )
}

/// Whether the bytes from `lo` to `hi` are those to take out with item number `n` of `t`, whose value
/// stands from `x` to `y`: up to where the next item starts, or else from where the one before it
/// ends, or else the item alone.
pub open spec fn takes_out(s: Seq<u8>, lo: int, hi: int, t: Json, n: int, x: int, y: int) -> bool {
    if n + 1 < parts(t).len() {
        &&& item_at(s, lo, x, y, t, n)
        &&& parted(s, y, hi)
        &&& exists|u: int, v: int| #[trigger] item_at(s, hi, u, v, t, n + 1)
    } else if n > 0 {
        &&& hi == y
        &&& exists|f: int| #[trigger] item_at(s, f, x, y, t, n) && parted(s, lo, f)
        &&& exists|f: int, u: int| #[trigger] item_at(s, f, u, lo, t, n - 1)
    } else {
        hi == y && item_at(s, lo, x, y, t, n)
    }
}

/// The next item of a container stands where it is read.
proof fn lemma_piece_item(s: Seq<u8>, j: int, state: State, room: int, t: Json, n: int)
    requires
        left(s, j, state, room).0 is Ok,
        at_item(state),
        0 <= n < parts(t).len(),
        (n == 0) == (state != behind(state)),
        parts(t).skip(n) == left(s, j, state, room).1,
        t is Array || t is Object,
        t is Array <==> behind(state) == State::ArrComma,
    ensures
        piece(s, j, state, room) matches Some(p) && {
            &&& item_at(s, p.front, p.at, p.end, t, n)
            &&& value(s, p.at, room) == Ok::<int, Fault>(p.end)
            &&& n > 0 ==> parted(s, j, p.front)
            &&& parts(t).skip(n + 1) == left(s, p.end, behind(state), room).1
        },
{
    lemma_piece(s, j, state, room);
    let its = parts(t);
    assert(its.skip(n).len() > 0);
    let p = piece(s, j, state, room)->Some_0;
    assert(its[n] == its.skip(n)[0]);
    assert(its.skip(n + 1) =~= its.skip(n).skip(1));
    assert(its.skip(n + 1) =~= left(s, p.end, behind(state), room).1);
    assert(its[n] == (Item { name: p.name, value: tree(s, p.at, room) })) by {
        reveal(read_item);
    }
    reveal(piece);
    lemma_value_only(s, p.at, room);
    let m = next_token(s, j, state, false)->Ok_0;
    lemma_next_token(s, j, state, false);
    lemma_blank_skip(s, j);
    lemma_skip_space(s, j);
    if n > 0 {
        let z = skip_space(s, j);
        lemma_blank_skip(s, z + 1);
        lemma_skip_space(s, z + 1);
        assert(lies_between(j, z, p.front));
        assert(parted(s, j, p.front));
    }
    if t is Object {
        law_text_only(s, m.at + 1);
        lemma_text(s, m.at + 1);
        let k = text(s, m.at + 1)->Ok_0.0;
        lemma_next_token(s, k, State::ObjColon, false);
        lemma_blank_skip(s, k);
        lemma_skip_space(s, k);
        let z = skip_space(s, k);
        lemma_blank_skip(s, z + 1);
        lemma_skip_space(s, z + 1);
        let c = Colon { start: m.at, end: k, at: z };
        assert(is_string(s, m.at, k, p.name));
        assert(around_member(s, p.front, p.end, c, p.at, p.end, its[n].name));
    }
}

/// What is cut out with an item.
proof fn lemma_cut_marks(
    s: Seq<u8>,
    i: int,
    state: State,
    room: int,
    k: nat,
    prev: Option<int>,
    t: Json,
    n: int,
)
    requires
        left(s, i, state, room).0 is Ok,
        at_item(state),
        0 <= n,
        n + k < parts(t).len(),
        (n == 0) == (state != behind(state)),
        parts(t).skip(n) == left(s, i, state, room).1,
        t is Array || t is Object,
        t is Array <==> behind(state) == State::ArrComma,
        prev == (if n == 0 {
            None
        } else {
            Some(i)
        }),
        n > 0 ==> exists|f: int, u: int| #[trigger] item_at(s, f, u, i, t, n - 1),
    ensures
        ({
            let (lo, hi) = cut_at(s, i, state, room, k, prev);
            let x = place(s, i, state, room, k);
            value(s, x, room) matches Ok(y) && takes_out(s, lo, hi, t, n + k, x, y)
        }),
    decreases k,
{
    lemma_piece(s, i, state, room);
    lemma_piece_item(s, i, state, room, t, n);
    let p = piece(s, i, state, room)->Some_0;
    assert(left(s, p.end, behind(state), room).0 == left(s, i, state, room).0);
    if k == 0 {
        if n + 1 < parts(t).len() {
            lemma_piece_item(s, p.end, behind(state), room, t, n + 1);
        } else {
            lemma_piece(s, p.end, behind(state), room);
            assert(parts(t).skip(n + 1).len() == 0);
            assert(piece(s, p.end, behind(state), room) is None);
        }
    } else {
        assert(item_at(s, p.front, p.at, p.end, t, n + 1 - 1));
        lemma_cut_marks(
            s,
            p.end,
            behind(state),
            room,
            (k - 1) as nat,
            Some(p.end),
            t,
            n + 1,
        );
        assert(place(s, i, state, room, k) == place(
            s,
            p.end,
            behind(state),
            room,
            (k - 1) as nat,
        ));
    }
}

/// Removing an item takes out its bytes and one comma, if there are other items, with the white space
/// between: up to the next item, or from the end of the one before the last.
pub proof fn law_removal_bytes(s: Seq<u8>, limit: int, path: Seq<Step>)
    requires
        is_document(s, 0, limit),
        0 <= limit,
        path.len() > 0,
        get(meaning(s, limit), path) is Some,
    ensures
        removal(doc(s, limit), start(0), path) matches Outcome::Done(Some(ch), _) && {
            let d = doc(s, limit);
            let p = get(meaning(s, limit), path.drop_last())->Some_0;
            let (x, y) = span(d, seek(d, start(0), path)->Done_1)->Done_0;
            &&& seek(d, start(0), path) matches Outcome::Done(true, c) && span(
                d,
                c,
            ) is Done
            &&& ch.shape is Remove
            &&& takes_out(s, ch.start, ch.end, p, child_at(p, path.last())->Some_0 as int, x, y)
        },
{
    let d = doc(s, limit);
    let init = path.drop_last();
    let step = path.last();
    reveal(removal);
    lemma_get_last(meaning(s, limit), path);
    lemma_root(s, limit, init);
    lemma_root(s, limit, path);
    lemma_seek_tree(d, root(s), init);
    let c = seek(d, start(0), init)->Done_1;
    assert(leads(d, root(s), init, c)) by {
        reveal(leads);
    }
    lemma_container(d, c);
    let t = tree_at(d, c);
    let c0 = inside_at(d, c);
    let n = child_at(t, step)->Some_0;
    lemma_child_at(t, step);
    if t is Object {
        lemma_cut_member_tree(d, c0, step, None);
    } else {
        lemma_cut_element_tree(d, c0, n, None);
    }
    assert(parts(t).skip(0) =~= parts(t));
    lemma_cut_marks(s, c0.at, c0.state, room(d, c0), n, None, t, 0);
    lemma_leads_last(d, root(s), path, c, n);
    let c2 = child_cursor(d, c, n);
    assert(seek(d, start(0), path) == Outcome::Done(true, c2)) by {
        reveal(leads);
    }
    law_seek(s, limit, path);
    reveal(child_cursor);
}

/// A value that is there is replaced from where it starts to where it ends.
pub proof fn law_replace_bytes(s: Seq<u8>, limit: int, path: Seq<Step>, op: Op)
    requires
        is_document(s, 0, limit),
        0 <= limit,
        op == Op::Put || op == Op::Insert || op == Op::Replace,
        get(meaning(s, limit), path) is Some,
        op == Op::Insert && path.len() > 0 ==> get(
            meaning(s, limit),
            path.drop_last(),
        ) matches Some(Json::Object(_)),
    ensures
        ({
            let d = doc(s, limit);
            let (x, y) = span(d, seek(d, start(0), path)->Done_1)->Done_0;
            change(d, start(0), op, path) matches Outcome::Done(Some(ch), _) && ch == (Change {
                start: x,
                end: y,
                shape: Shape::Value,
            })
        }),
{
    law_seek(s, limit, path);
    if op != Op::Replace {
        law_set_existing(s, limit, op, path);
    }
    lemma_replace_span(s, limit, path);
    reveal(end_at);
}

/// A new element goes in front of the one whose place it takes, with a comma behind it.
pub proof fn law_insert_bytes(s: Seq<u8>, limit: int, path: Seq<Step>)
    requires
        is_document(s, 0, limit),
        0 <= limit,
        path.len() > 0,
        get(meaning(s, limit), path.drop_last()) matches Some(Json::Array(_)),
        get(meaning(s, limit), path) is Some,
    ensures
        ({
            let d = doc(s, limit);
            let (x, y) = span(d, seek(d, start(0), path)->Done_1)->Done_0;
            change(d, start(0), Op::Insert, path) matches Outcome::Done(Some(ch), _) && ch
                == (Change { start: x, end: x, shape: Shape::Element { lead: false, trail: true } })
        }),
{
    let d = doc(s, limit);
    let init = path.drop_last();
    law_seek(s, limit, path);
    lemma_get_last(meaning(s, limit), path);
    lemma_root(s, limit, init);
    lemma_root(s, limit, path);
    lemma_seek_tree(d, root(s), init);
    let c = seek(d, start(0), init)->Done_1;
    lemma_add_change(s, limit, path, Op::Insert, c);
    let n = child_at(tree_at(d, c), path.last())->Some_0;
    lemma_leads_last(d, root(s), path, c, n);
    assert(seek(d, start(0), path) == Outcome::Done(true, child_cursor(d, c, n))) by {
        reveal(leads);
    }
    lemma_container(d, c);
    reveal(child_cursor);
}

/// A new member goes in front of the closing brace, behind a comma if there are others.
pub proof fn law_new_member_bytes(s: Seq<u8>, limit: int, path: Seq<Step>, op: Op)
    requires
        is_document(s, 0, limit),
        0 <= limit,
        path.len() > 0,
        op == Op::Put || op == Op::Insert,
        get(meaning(s, limit), path.drop_last()) matches Some(Json::Object(_)),
        get(meaning(s, limit), path) is None,
    ensures
        ({
            let d = doc(s, limit);
            let p = get(meaning(s, limit), path.drop_last())->Some_0;
            let (a, b) = span(d, seek(d, start(0), path.drop_last())->Done_1)->Done_0;
            change(d, start(0), op, path) matches Outcome::Done(Some(ch), _) && ch == (Change {
                start: b - 1,
                end: b - 1,
                shape: Shape::Member { lead: parts(p).len() > 0, key: path.last() },
            })
        }),
{
    let d = doc(s, limit);
    let init = path.drop_last();
    law_seek(s, limit, init);
    let c = seek(d, start(0), init)->Done_1;
    lemma_add_change(s, limit, path, op, c);
    if child_at(tree_at(d, c), path.last()) is Some {
        lemma_get_child(meaning(s, limit), path);
    }
    assert(end_at(d, c) == Ok::<int, Fault>(span(d, c)->Done_0.1)) by {
        reveal(end_at);
        reveal(at_whole);
    }
}

/// What a change leaves: the bytes in front of it and behind it, and between them the value, with its
/// key and a colon if it is a new member, and commas where they are due.
pub proof fn law_edited_bytes<V: ToJson + ?Sized>(s: Seq<u8>, ch: Change, new: &V)
    requires
        ch.shape matches Shape::Member { lead, key } ==> valid_utf8(new_name(key)),
    ensures
        edited(s, ch, new) == s.subrange(0, ch.start) + (match ch.shape {
            Shape::Value => encoding(new),
            Shape::Remove => Seq::empty(),
            Shape::Member { lead, key } => (if lead {
                seq![',' as u8]
            } else {
                Seq::empty()
            }) + quoted(new_name(key)) + seq![':' as u8] + new.json(after_key(compact())).0,
            Shape::Element { lead, trail } => (if lead {
                seq![',' as u8]
            } else {
                Seq::empty()
            }) + encoding(new) + (if trail {
                seq![',' as u8]
            } else {
                Seq::empty()
            }),
        }) + s.skip(ch.end),
{
    match ch.shape {
        Shape::Member { lead, key } => {
            let b = new_name(key);
            law_written_text(decode_utf8(b));
            decode_utf8_encode_utf8(b);
            let v = new.json(after_key(compact())).0;
            assert(content(ch.shape, new) =~= (if lead {
                seq![',' as u8]
            } else {
                Seq::empty()
            }) + quoted(b) + seq![':' as u8] + v);
        },
        _ => {},
    }
}

/// The name of a new member: what a key is, what a reference token stands for, or a number in
/// decimal.
pub proof fn law_new_name(p: Seq<u8>, n: nat)
    ensures
        new_name(Step::Key(p)) == p,
        new_name(Step::Index(n)) == decimal(n),
        refers(p, new_name(Step::Pointer(p)), true),
{
    law_pointer_name(p, new_name(Step::Pointer(p)));
}

} // verus!
