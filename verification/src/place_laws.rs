//! Where edits put things: laws on the bytes of a document that was edited.

use vstd::prelude::*;
use vstd::utf8::valid_utf8;

use crate::cursor::{room, seek, span, Cursor, Doc, Outcome};
use crate::edit::{
    change, child_spot, comma, edited, law_change_within, lemma_new_name_utf8, new_name, push_spot,
    removal, spot, step_valid, Change, Op, Shape,
};
use crate::edit_laws::{
    added_text, designates, inside_at, is_container, law_add, law_set_existing, lemma_append,
    lemma_child_at, lemma_container, lemma_content, lemma_cut_element_tree, lemma_edit_inside,
    lemma_element_spot_tree, lemma_end_no_index, lemma_end_spot_tree, lemma_get_child,
    lemma_get_last, lemma_get_put, lemma_member_spot_tree, lemma_named_last, lemma_pointer_name,
};
use crate::grammar::{value, Fault, BRACE_CLOSE, BRACKET_CLOSE, COMMA};
use crate::laws::{
    at_whole, child_at, child_cursor, children, doc, end_at, get, inside, law_replace, law_seek,
    leads, lemma_leads_last, lemma_leads_tree, lemma_replace_span, lemma_root, lemma_seek_tree,
    lemma_whole, meaning, root, tree_at, with_children,
};
use crate::parser::start;
use crate::path::{step_index, step_is_end, Step};
use crate::splice::{
    cut_at, is_value, key_front, left, lemma_embedded, lemma_end_place, lemma_insert, lemma_spliced,
    lemma_tail, spliced, stands, tail,
};
use crate::tree::{ends, place, tree, Item, Json};
use crate::util::is_document;
use crate::writer::{after_key, compact, encoding, ToJson};
use crate::written::encodes;

verus! {

/// Where the value that a change puts into a document then starts.
pub open spec fn put_at(ch: Change) -> int {
    ch.start + match ch.shape {
        Shape::Member { lead, key } => key_front(lead, new_name(key)).len() as int,
        Shape::Element { lead, trail } => comma(lead).len() as int,
        _ => 0,
    }
}

/// What a change writes for a value, without what it writes around it.
pub open spec fn put_text<V: ToJson + ?Sized>(ch: Change, new: &V) -> Seq<u8> {
    if ch.shape is Member {
        new.json(after_key(compact())).0
    } else {
        encoding(new)
    }
}

/// The value at `path` in the document `t` is the text `v`, and starts at `x`.
pub open spec fn found_at(t: Seq<u8>, limit: int, path: Seq<Step>, x: int, v: Seq<u8>) -> bool {
    &&& stands(t, x, v)
    &&& seek(doc(t, limit), start(0), path) matches Outcome::Done(true, c) && span(
        doc(t, limit),
        c,
    ) matches Outcome::Done(w, _) && w == (x, x + v.len())
}

/// An item that stands at its place is found there.
proof fn lemma_found(
    t: Seq<u8>,
    limit: int,
    path: Seq<Step>,
    c: Cursor,
    n: nat,
    x: int,
    v: Seq<u8>,
)
    requires
        is_document(t, 0, limit),
        0 <= limit,
        path.len() > 0,
        leads(doc(t, limit), root(t), path.drop_last(), c),
        child_at(tree_at(doc(t, limit), c), path.last()) == Some(n),
        place(t, c.at + 1, inside(t[c.at]), room(doc(t, limit), c) - 1, n) == x,
        is_value(v, limit - path.len()),
        stands(t, x, v),
        ends(t, x + v.len()),
    ensures
        found_at(t, limit, path, x, v),
{
    let e = doc(t, limit);
    lemma_root(t, limit, path);
    lemma_leads_last(e, root(t), path, c, n);
    let cc = child_cursor(e, c, n);
    assert(cc.at == x) by {
        reveal(child_cursor);
    }
    lemma_leads_tree(e, root(t), path, cc);
    lemma_embedded(v, t, x, limit - path.len());
    lemma_whole(e, cc);
    assert(end_at(e, cc) == Ok::<int, Fault>(x + v.len())) by {
        reveal(end_at);
    }
    assert(span(e, cc) is Done && span(e, cc)->Done_0 == (x, x + v.len())) by {
        reveal(at_whole);
        reveal(end_at);
    }
    assert(seek(e, start(0), path) == Outcome::Done(true, cc)) by {
        reveal(leads);
    }
}

/// What was put in with something in front of it stands behind that.
proof fn lemma_put_in(s: Seq<u8>, z: int, front: Seq<u8>, v: Seq<u8>, back: Seq<u8>)
    requires
        0 <= z < s.len(),
    ensures
        ({
            let t = spliced(s, z, z, front + v + back);
            &&& stands(t, z + front.len(), v)
            &&& t[z + front.len() + v.len()] == (if back.len() == 0 {
                s[z]
            } else {
                back[0]
            })
            &&& forall|k: int| 0 <= k < z ==> #[trigger] t[k] == s[k]
        }),
{
    let ins = front + v + back;
    let t = spliced(s, z, z, ins);
    let x = z + front.len();
    lemma_spliced(s, z, z, ins);
    assert(ins.subrange(front.len() as int, (front.len() + v.len()) as int) =~= v);
    assert(t.subrange(x, x + v.len()) =~= t.subrange(z, z + ins.len()).subrange(
        front.len() as int,
        (front.len() + v.len()) as int,
    ));
    if back.len() > 0 {
        assert(ins[(front.len() + v.len()) as int] == t[front.len() + v.len() + z]);
    }
    assert forall|k: int| 0 <= k < z implies #[trigger] t[k] == s[k] by {
        assert(s[k] == t[k + 0]);
    }
}

/// The last byte of a container is a bracket.
proof fn lemma_closing(d: Doc, c: Cursor)
    requires
        at_whole(d, c),
        is_container(tree_at(d, c)),
    ensures
        ({
            let z = end_at(d, c)->Ok_0 - 1;
            &&& c.at < z < d.bytes.len()
            &&& d.bytes[z] == BRACKET_CLOSE || d.bytes[z] == BRACE_CLOSE
        }),
{
    lemma_container(d, c);
    let c0 = inside_at(d, c);
    lemma_tail(d.bytes, c0.at, c0.state, room(d, c0));
    let (j, sj) = tail(d.bytes, c0.at, c0.state, room(d, c0));
    lemma_end_place(d.bytes, j, sj);
}

/// An item that was put into the container at `c` is found at its place.
proof fn lemma_inside_found(
    s: Seq<u8>,
    limit: int,
    path: Seq<Step>,
    c: Cursor,
    lo: int,
    front: Seq<u8>,
    v: Seq<u8>,
    back: Seq<u8>,
    its: Seq<Item>,
    n: nat,
)
    requires
        is_document(s, 0, limit),
        0 <= limit,
        path.len() > 0,
        leads(doc(s, limit), root(s), path.drop_last(), c),
        is_container(tree_at(doc(s, limit), c)),
        is_value(v, limit - path.len()),
        c.at < lo < end_at(doc(s, limit), c)->Ok_0,
        end_at(doc(s, limit), c)->Ok_0 <= s.len(),
        back.len() == 0 ==> ends(s, lo),
        back.len() > 0 ==> back[0] == COMMA,
        child_at(with_children(tree_at(doc(s, limit), c), its), path.last()) == Some(n),
        ({
            let t = spliced(s, lo, lo, front + v + back);
            let r = room(doc(s, limit), c) - 1;
            &&& left(t, c.at + 1, inside(s[c.at]), r) == (
                Ok::<int, Fault>(
                    end_at(doc(s, limit), c)->Ok_0 + (front + v + back).len(),
                ),
                its,
            )
            &&& place(t, c.at + 1, inside(s[c.at]), r, n) == lo + front.len()
        }),
    ensures
        found_at(
            spliced(s, lo, lo, front + v + back),
            limit,
            path,
            lo + front.len(),
            v,
        ),
        is_document(spliced(s, lo, lo, front + v + back), 0, limit),
        leads(
            doc(spliced(s, lo, lo, front + v + back), limit),
            root(spliced(s, lo, lo, front + v + back)),
            path.drop_last(),
            c,
        ),
        tree_at(doc(spliced(s, lo, lo, front + v + back), limit), c) == with_children(
            tree_at(doc(s, limit), c),
            its,
        ),
{
    let d = doc(s, limit);
    let init = path.drop_last();
    let ins = front + v + back;
    let t = spliced(s, lo, lo, ins);
    let e = doc(t, limit);
    let p = tree_at(d, c);
    lemma_root(s, limit, init);
    lemma_leads_tree(d, root(s), init, c);
    lemma_whole(d, c);
    lemma_edit_inside(s, limit, init, c, lo, lo, ins, its);
    lemma_root(t, limit, init);
    lemma_leads_tree(e, root(t), init, c);
    lemma_get_put(meaning(s, limit), init, with_children(p, its));
    lemma_put_in(s, lo, front, v, back);
    assert(t[c.at] == s[c.at]);
    lemma_found(t, limit, path, c, n, lo + front.len(), v);
}

/// A new item at the end of the container at `c` is found there.
proof fn lemma_last_found(
    s: Seq<u8>,
    limit: int,
    path: Seq<Step>,
    c: Cursor,
    name: Seq<u8>,
    v: Seq<u8>,
)
    requires
        is_document(s, 0, limit),
        0 <= limit,
        path.len() > 0,
        leads(doc(s, limit), root(s), path.drop_last(), c),
        is_container(tree_at(doc(s, limit), c)),
        is_value(v, limit - path.len()),
        valid_utf8(name),
        ({
            let t = tree_at(doc(s, limit), c);
            let new = Item { name, value: tree(v, 0, limit - path.len()) };
            &&& t is Array ==> name == Seq::<u8>::empty()
            &&& child_at(with_children(t, children(t).push(new)), path.last()) == Some(
                children(t).len(),
            )
        }),
    ensures
        ({
            let t = tree_at(doc(s, limit), c);
            let z = end_at(doc(s, limit), c)->Ok_0 - 1;
            let lead = children(t).len() > 0;
            let front = if t is Object {
                key_front(lead, name)
            } else {
                comma(lead)
            };
            found_at(spliced(s, z, z, front + v), limit, path, z + front.len(), v)
        }),
{
    let d = doc(s, limit);
    let init = path.drop_last();
    lemma_root(s, limit, init);
    lemma_leads_tree(d, root(s), init, c);
    lemma_whole(d, c);
    let p = tree_at(d, c);
    let its = children(p);
    let z = end_at(d, c)->Ok_0 - 1;
    let lead = its.len() > 0;
    let front = if p is Object {
        key_front(lead, name)
    } else {
        comma(lead)
    };
    let new = Item { name, value: tree(v, 0, limit - path.len()) };
    lemma_append(d, c, name, v);
    lemma_closing(d, c);
    assert(front + v + Seq::<u8>::empty() =~= front + v);
    lemma_inside_found(s, limit, path, c, z, front, v, Seq::empty(), its.push(new), its.len());
}

/// Where a change goes that adds a value, and what the parent of that value is.
pub(crate) proof fn lemma_add_change(s: Seq<u8>, limit: int, path: Seq<Step>, op: Op, c: Cursor)
    requires
        is_document(s, 0, limit),
        0 <= limit,
        path.len() > 0,
        op == Op::Put || op == Op::Insert,
        get(meaning(s, limit), path.drop_last()) is Some,
        c == seek(doc(s, limit), start(0), path.drop_last())->Done_1,
    ensures
        ({
            let d = doc(s, limit);
            let p = tree_at(d, c);
            let its = children(p);
            let step = path.last();
            let c0 = inside_at(d, c);
            let z = end_at(d, c)->Ok_0 - 1;
            &&& leads(d, root(s), path.drop_last(), c)
            &&& get(meaning(s, limit), path.drop_last()) == Some(p)
            &&& at_whole(d, c)
            &&& room(d, c) == limit - path.len() + 1
            &&& p is Object && child_at(p, step) is None ==> (change(d, start(0), op, path) matches
                Outcome::Done(Some(ch), _) && ch == (Change {
                start: z,
                end: z,
                shape: Shape::Member { lead: its.len() > 0, key: step },
            }))
            &&& p is Array && (step_is_end(step) || step_index(step) == Some(its.len())) ==> (
            change(d, start(0), op, path) matches Outcome::Done(Some(ch), _) && ch == (Change {
                start: z,
                end: z,
                shape: Shape::Element { lead: its.len() > 0, trail: false },
            }))
            &&& p is Array && child_at(p, step) is Some && op == Op::Insert ==> ({
                let a = place(s, c0.at, c0.state, room(d, c0), step_index(step)->Some_0);
                change(d, start(0), op, path) matches Outcome::Done(Some(ch), _) && ch == (Change {
                    start: a,
                    end: a,
                    shape: Shape::Element { lead: false, trail: true },
                })
            })
        }),
{
    let d = doc(s, limit);
    let init = path.drop_last();
    let step = path.last();
    lemma_root(s, limit, init);
    lemma_seek_tree(d, root(s), init);
    assert(leads(d, root(s), init, c)) by {
        reveal(leads);
    }
    lemma_leads_tree(d, root(s), init, c);
    assert(spot(d, start(0), op, path) == child_spot(d, c, step, op == Op::Insert)) by {
        reveal(spot);
    }
    lemma_container(d, c);
    let p = tree_at(d, c);
    let c0 = inside_at(d, c);
    if p is Object {
        lemma_member_spot_tree(d, c0, step, false);
    } else if p is Array {
        if step_is_end(step) {
            lemma_end_no_index(step);
        }
        let target = if step_is_end(step) {
            None
        } else {
            step_index(step)
        };
        lemma_element_spot_tree(d, c0, target, false, op == Op::Insert);
    }
}

/// Appending to an array of `n` elements, and setting or inserting its element `-` or number `n`,
/// are the same change: at its closing bracket, behind a comma if it has elements.
pub proof fn law_ends_agree(s: Seq<u8>, limit: int, path: Seq<Step>, op: Op)
    requires
        is_document(s, 0, limit),
        0 <= limit,
        path.len() > 0,
        op == Op::Put || op == Op::Insert,
        get(meaning(s, limit), path.drop_last()) matches Some(Json::Array(its)) && (step_is_end(
            path.last(),
        ) || step_index(path.last()) == Some(its.len())),
    ensures
        ({
            let d = doc(s, limit);
            let a = path.drop_last();
            let its = children(get(meaning(s, limit), a)->Some_0);
            let z = span(d, seek(d, start(0), a)->Done_1)->Done_0.1 - 1;
            let at_end = Change {
                start: z,
                end: z,
                shape: Shape::Element { lead: its.len() > 0, trail: false },
            };
            &&& seek(d, start(0), a) matches Outcome::Done(true, _)
            &&& s[z] == BRACKET_CLOSE
            &&& change(d, start(0), Op::Push, a) matches Outcome::Done(Some(ch), _) && ch == at_end
            &&& change(d, start(0), op, path) matches Outcome::Done(Some(ch), _) && ch == at_end
        }),
{
    let d = doc(s, limit);
    let a = path.drop_last();
    law_seek(s, limit, a);
    let c = seek(d, start(0), a)->Done_1;
    lemma_add_change(s, limit, path, op, c);
    lemma_container(d, c);
    let c0 = inside_at(d, c);
    lemma_end_spot_tree(d, c0, false);
    assert(spot(d, start(0), Op::Push, a) == push_spot(d, c)) by {
        reveal(spot);
    }
    lemma_tail(s, c0.at, c0.state, room(d, c0));
    let (j, sj) = tail(s, c0.at, c0.state, room(d, c0));
    lemma_end_place(s, j, sj);
    assert(end_at(d, c) == Ok::<int, Fault>(span(d, c)->Done_0.1)) by {
        reveal(end_at);
        reveal(at_whole);
    }
}

/// What was set or inserted is found where the change put it: the path leads to the text that was
/// written for the value, if its last step can designate it.
#[verifier::rlimit(40)]
pub proof fn law_add_span<V: ToJson + ?Sized>(
    s: Seq<u8>,
    limit: int,
    path: Seq<Step>,
    op: Op,
    new: &V,
    n: Json,
)
    requires
        is_document(s, 0, limit),
        0 <= limit,
        path.len() > 0,
        op == Op::Put || op == Op::Insert,
        step_valid(path.last()),
        encodes(new, limit - path.len(), n),
        get(meaning(s, limit), path.drop_last()) matches Some(p) ==> designates(p, path.last()),
    ensures
        change(doc(s, limit), start(0), op, path) matches Outcome::Done(Some(ch), _) ==> found_at(
            edited(s, ch, new),
            limit,
            path,
            put_at(ch),
            put_text(ch, new),
        ),
{
    let d = doc(s, limit);
    let init = path.drop_last();
    let step = path.last();
    law_add(s, limit, path, op, new, n);
    match change(d, start(0), op, path) {
        Outcome::Done(Some(ch), _) => {
            let t = edited(s, ch, new);
            let v = put_text(ch, new);
            law_seek(s, limit, init);
            let c = seek(d, start(0), init)->Done_1;
            lemma_add_change(s, limit, path, op, c);
            lemma_content(s, ch, new);
            let p = tree_at(d, c);
            let its = children(p);
            lemma_child_at(p, step);
            if child_at(p, step) is Some && !(op == Op::Insert && p is Array) {
                lemma_get_child(meaning(s, limit), path);
                lemma_existing_span(s, limit, path, op, new);
            } else if p is Array && step_index(step)->Some_0 < its.len() {
                lemma_insert_span(s, limit, path, c, v);
            } else if p is Array {
                lemma_last_found(s, limit, path, c, Seq::empty(), v);
                assert(comma(its.len() > 0) + v + comma(false) =~= comma(its.len() > 0) + v);
            } else {
                lemma_new_name_utf8(step);
                match step {
                    Step::Pointer(q) => lemma_pointer_name(q),
                    _ => {},
                }
                lemma_named_last(its, Item { name: new_name(step), value: n });
                lemma_last_found(s, limit, path, c, new_name(step), v);
            }
        },
        _ => {},
    }
}

/// A value that replaces another is found there.
proof fn lemma_existing_span<V: ToJson + ?Sized>(
    s: Seq<u8>,
    limit: int,
    path: Seq<Step>,
    op: Op,
    new: &V,
)
    requires
        is_document(s, 0, limit),
        0 <= limit,
        op == Op::Put || op == Op::Insert,
        get(meaning(s, limit), path) is Some,
        op == Op::Insert && path.len() > 0 ==> get(
            meaning(s, limit),
            path.drop_last(),
        ) matches Some(Json::Object(_)),
        is_value(encoding(new), limit - path.len()),
    ensures
        change(doc(s, limit), start(0), op, path) matches Outcome::Done(Some(ch), _) && ch.shape
            is Value && found_at(
            edited(s, ch, new),
            limit,
            path,
            ch.start,
            encoding(new),
        ),
{
    law_set_existing(s, limit, op, path);
    law_replace(s, limit, path, new);
    lemma_replace_span(s, limit, path);
    match change(doc(s, limit), start(0), Op::Replace, path) {
        Outcome::Done(Some(ch), _) => {
            let t = edited(s, ch, new);
            assert(t.subrange(ch.start, ch.start + encoding(new).len()) =~= encoding(new));
        },
        _ => {},
    }
}

/// An element that was put in front of another is found there, and cutting it out again gives
/// back the text.
#[verifier::rlimit(40)]
proof fn lemma_insert_span(s: Seq<u8>, limit: int, path: Seq<Step>, c: Cursor, v: Seq<u8>)
    requires
        is_document(s, 0, limit),
        0 <= limit,
        path.len() > 0,
        leads(doc(s, limit), root(s), path.drop_last(), c),
        tree_at(doc(s, limit), c) is Array,
        !step_is_end(path.last()),
        child_at(tree_at(doc(s, limit), c), path.last()) is Some,
        is_value(v, limit - path.len()),
    ensures
        ({
            let d = doc(s, limit);
            let c0 = inside_at(d, c);
            let n = step_index(path.last())->Some_0;
            let a = place(s, c0.at, c0.state, room(d, c0), n);
            let t = spliced(s, a, a, added_text(Shape::Element { lead: false, trail: true }, v));
            &&& found_at(t, limit, path, a, v)
            &&& is_document(t, 0, limit)
            &&& removal(doc(t, limit), start(0), path) matches Outcome::Done(Some(cut), _) && cut
                == (Change { start: a, end: a + v.len() + 1, shape: Shape::Remove })
        }),
{
    let d = doc(s, limit);
    let init = path.drop_last();
    let step = path.last();
    lemma_root(s, limit, init);
    lemma_leads_tree(d, root(s), init, c);
    lemma_whole(d, c);
    lemma_container(d, c);
    let c0 = inside_at(d, c);
    let r = room(d, c0);
    let n = step_index(step)->Some_0;
    let its = children(tree_at(d, c));
    let a = place(s, c0.at, c0.state, r, n);
    let new = Item { name: Seq::empty(), value: tree(v, 0, r) };
    let more = its.insert(n as int, new);
    lemma_insert(s, c0.at, c0.state, r, n, v);
    assert(Seq::<u8>::empty() + v + seq![COMMA] =~= v + seq![COMMA]);
    assert(comma(false) + v + comma(true) =~= v + seq![COMMA]);
    lemma_inside_found(s, limit, path, c, a, Seq::empty(), v, seq![COMMA], more, n);
    let t = spliced(s, a, a, v + seq![COMMA]);
    let e = doc(t, limit);
    lemma_root(t, limit, init);
    lemma_leads_tree(e, root(t), init, c);
    lemma_put_in(s, a, Seq::empty(), v, seq![COMMA]);
    assert(t[c.at] == s[c.at]);
    assert(cut_at(t, c0.at, c0.state, r, n, None) == (a, a + v.len() + 1));
    lemma_cut_out(t, limit, path, c, n);
}

/// The bytes that removing an element of the array at `c` takes out.
proof fn lemma_cut_out(t: Seq<u8>, limit: int, path: Seq<Step>, c: Cursor, n: nat)
    requires
        is_document(t, 0, limit),
        0 <= limit,
        path.len() > 0,
        leads(doc(t, limit), root(t), path.drop_last(), c),
        tree_at(doc(t, limit), c) is Array,
        step_index(path.last()) == Some(n),
        n < children(tree_at(doc(t, limit), c)).len(),
    ensures
        ({
            let e = doc(t, limit);
            let c0 = inside_at(e, c);
            let (lo, hi) = cut_at(t, c0.at, c0.state, room(e, c0), n, None);
            removal(e, start(0), path) matches Outcome::Done(Some(cut), _) && cut == (Change {
                start: lo,
                end: hi,
                shape: Shape::Remove,
            })
        }),
{
    let e = doc(t, limit);
    let init = path.drop_last();
    lemma_root(t, limit, init);
    lemma_leads_tree(e, root(t), init, c);
    assert(seek(e, start(0), init) == Outcome::Done(true, c)) by {
        reveal(leads);
    }
    lemma_container(e, c);
    lemma_cut_element_tree(e, inside_at(e, c), n, None);
    reveal(removal);
}

/// Taking out what was put in.
proof fn lemma_out_again(s: Seq<u8>, a: int, ins: Seq<u8>)
    requires
        0 <= a <= s.len(),
    ensures
        edited(
            spliced(s, a, a, ins),
            (Change { start: a, end: a + ins.len(), shape: Shape::Remove }),
            &(),
        ) == s,
{
    reveal(spliced);
    let t = spliced(s, a, a, ins);
    assert(t.subrange(0, a) =~= s.subrange(0, a));
    assert(t.skip(a + ins.len()) =~= s.skip(a));
    assert(s.subrange(0, a) + Seq::<u8>::empty() + s.skip(a) =~= s);
}

/// An element that is inserted in front of another, and then removed, leaves every byte of the
/// document as it was.
#[verifier::rlimit(40)]
pub proof fn law_insert_remove<V: ToJson + ?Sized>(
    s: Seq<u8>,
    limit: int,
    path: Seq<Step>,
    new: &V,
)
    requires
        is_document(s, 0, limit),
        0 <= limit,
        path.len() > 0,
        is_value(encoding(new), limit - path.len()),
        get(meaning(s, limit), path.drop_last()) matches Some(Json::Array(_)),
        get(meaning(s, limit), path) is Some,
    ensures
        change(doc(s, limit), start(0), Op::Insert, path) matches Outcome::Done(Some(ch), _) && ({
            let t = edited(s, ch, new);
            removal(doc(t, limit), start(0), path) matches Outcome::Done(Some(cut), _) && edited(
                t,
                cut,
                &(),
            ) == s
        }),
{
    let d = doc(s, limit);
    let init = path.drop_last();
    let v = encoding(new);
    lemma_get_last(meaning(s, limit), path);
    law_seek(s, limit, init);
    let c = seek(d, start(0), init)->Done_1;
    lemma_add_change(s, limit, path, Op::Insert, c);
    if step_is_end(path.last()) {
        lemma_end_no_index(path.last());
    }
    lemma_insert_span(s, limit, path, c, v);
    match change(d, start(0), Op::Insert, path) {
        Outcome::Done(Some(ch), _) => {
            lemma_content(s, ch, new);
            law_change_within(d, start(0), Op::Insert, path);
            assert(added_text(ch.shape, v).len() == v.len() + 1);
            lemma_out_again(s, ch.start, added_text(ch.shape, v));
        },
        _ => {},
    }
}

/// Putting what stands in a text in place of itself changes nothing.
proof fn lemma_same_bytes<V: ToJson + ?Sized>(t: Seq<u8>, x: int, new: &V)
    requires
        stands(t, x, encoding(new)),
    ensures
        edited(
            t,
            (Change { start: x, end: x + encoding(new).len(), shape: Shape::Value }),
            new,
        ) == t,
{
    let v = encoding(new);
    assert(t.subrange(0, x) + t.subrange(x, x + v.len()) + t.skip(x + v.len()) =~= t);
}

/// The span of a whole value.
proof fn lemma_span(e: Doc, c: Cursor)
    requires
        at_whole(e, c),
    ensures
        span(e, c) is Done,
        end_at(e, c) == Ok::<int, Fault>(span(e, c)->Done_0.1),
{
    lemma_whole(e, c);
    reveal(end_at);
    reveal(at_whole);
}

/// Replacing the value that is found somewhere.
proof fn lemma_replaces(t: Seq<u8>, limit: int, path: Seq<Step>, x: int, v: Seq<u8>)
    requires
        is_document(t, 0, limit),
        0 <= limit,
        get(meaning(t, limit), path) is Some,
        found_at(t, limit, path, x, v),
    ensures
        change(doc(t, limit), start(0), Op::Replace, path) matches Outcome::Done(Some(ch), _) && ch
            == (Change { start: x, end: x + v.len(), shape: Shape::Value }),
{
    let e = doc(t, limit);
    let c = seek(e, start(0), path)->Done_1;
    lemma_replace_span(t, limit, path);
    lemma_root(t, limit, path);
    law_seek(t, limit, path);
    let ch = change(e, start(0), Op::Replace, path)->Done_0->Some_0;
    assert(ch.start == x);
    assert(ch.end == x + v.len()) by {
        lemma_leads_tree(e, root(t), path, c);
        lemma_span(e, c);
    }
}

/// Setting the value that is there already.
proof fn lemma_same_again<V: ToJson + ?Sized>(
    t: Seq<u8>,
    limit: int,
    path: Seq<Step>,
    x: int,
    new: &V,
)
    requires
        is_document(t, 0, limit),
        0 <= limit,
        get(meaning(t, limit), path) is Some,
        found_at(t, limit, path, x, encoding(new)),
    ensures
        change(doc(t, limit), start(0), Op::Put, path) matches Outcome::Done(Some(again), _)
            && edited(t, again, new) == t,
{
    law_set_existing(t, limit, Op::Put, path);
    lemma_replaces(t, limit, path, x, encoding(new));
    lemma_same_bytes(t, x, new);
}

/// Setting a value again, just after it was set, leaves every byte of the document as it is.
#[verifier::rlimit(40)]
pub proof fn law_set_twice<V: ToJson + ?Sized>(
    s: Seq<u8>,
    limit: int,
    path: Seq<Step>,
    new: &V,
    n: Json,
)
    requires
        is_document(s, 0, limit),
        0 <= limit,
        path.len() > 0 ==> step_valid(path.last()),
        encodes(new, limit - path.len(), n),
        new.json(after_key(compact())).0 == encoding(new),
        path.len() > 0 ==> (get(meaning(s, limit), path.drop_last()) matches Some(p) ==> designates(
            p,
            path.last(),
        )),
    ensures
        change(doc(s, limit), start(0), Op::Put, path) matches Outcome::Done(Some(ch), _) ==> ({
            let t = edited(s, ch, new);
            change(doc(t, limit), start(0), Op::Put, path) matches Outcome::Done(Some(again), _)
                && edited(t, again, new) == t
        }),
{
    let d = doc(s, limit);
    match change(d, start(0), Op::Put, path) {
        Outcome::Done(Some(ch), _) => {
            let t = edited(s, ch, new);
            let v = encoding(new);
            if path.len() == 0 {
                lemma_existing_span(s, limit, path, Op::Put, new);
                law_replace(s, limit, path, new);
                law_set_existing(s, limit, Op::Put, path);
            } else {
                law_add(s, limit, path, Op::Put, new, n);
                law_add_span(s, limit, path, Op::Put, new, n);
            }
            let x = put_at(ch);
            assert(found_at(t, limit, path, x, v));
            lemma_same_again(t, limit, path, x, new);
        },
        _ => {},
    }
}

} // verus!
