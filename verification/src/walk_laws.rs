//! What a walk visits: laws on the order of its visits, and on what their paths mean, which relate
//! [`Parser::walk`](crate::Parser::walk) to [`Parser::seek`](crate::Parser::seek).

use vstd::prelude::*;

use crate::cursor::{room, seek, Cursor, Doc, Outcome};
use crate::grammar::{
    lemma_next_token, lemma_rest, lemma_skip_space, lemma_text, lemma_value, next_token, rest,
    skip_space, starts_value, text, value, value_end, value_token, SLASH,
};
use crate::laws::{
    at_whole, child_at, child_cursor, children, doc, first_named, inside, leads, lemma_child,
    lemma_leads_here, lemma_leads_last, lemma_root, lemma_value_state, lemma_whole, meaning, root,
    tree_at,
};
use crate::edit_laws::lemma_container;
use crate::notation::{document_at, law_document, nests, parts};
use crate::number::decimal;
use crate::parser::{start, State, Token};
use crate::path::{
    lemma_decimal_index, lemma_read_index, lemma_slash_from, pointer_steps, slash_from, tokens,
    Step,
};
use crate::reading::{in_front_of, lemma_in_front, token_of};
use crate::splice::{at_item, behind, end_token, left, lemma_piece, piece, read_item};
use crate::tree::{place, tree, Item, Json};
use crate::util::is_document;
use crate::walk::{
    bump, child, fresh, is_container, law_pointer_escape, lemma_pointer_escape, next_path, no_slash,
    pointer_escape, rest_fits, rest_visits, value_fits, value_visits, visits, Level, Visit,
};

verus! {

/// A reference token behind others.
pub(crate) proof fn lemma_tokens_append(q: Seq<u8>, t: Seq<u8>)
    requires
        no_slash(t),
    ensures
        tokens(q + seq![SLASH] + t) == tokens(q).push(Step::Pointer(t)),
    decreases q.len(),
{
    let p = q + seq![SLASH] + t;
    let i = slash_from(q, 0);
    lemma_slash_from(q, 0);
    lemma_slash_from(p, 0);
    lemma_slash_from(t, 0);
    let j = slash_from(p, 0);
    if i < q.len() {
        assert(j == i) by {
            assert(p[i] == q[i]);
            if j < i {
                assert(p[j] == q[j]);
            }
        }
        assert(p.subrange(0, i) =~= q.subrange(0, i));
        assert(p.skip(i + 1) =~= q.skip(i + 1) + seq![SLASH] + t);
        lemma_tokens_append(q.skip(i + 1), t);
        let head = Step::Pointer(q.subrange(0, i));
        assert(seq![head] + tokens(q.skip(i + 1)).push(Step::Pointer(t)) =~= (seq![head] + tokens(
            q.skip(i + 1),
        )).push(Step::Pointer(t)));
    } else {
        assert(j == q.len()) by {
            assert(p[q.len() as int] == SLASH);
            if j < q.len() {
                assert(p[j] == q[j]);
            }
        }
        assert(p.subrange(0, j) =~= q);
        assert(p.skip(j + 1) =~= t);
        assert(tokens(t) =~= seq![Step::Pointer(t)]);
        assert(seq![Step::Pointer(q)] + seq![Step::Pointer(t)] =~= seq![Step::Pointer(q)].push(
            Step::Pointer(t),
        ));
    }
}

/// A JSON Pointer as walks make them: empty, or with a leading `/`.
spec fn rooted(path: Seq<u8>) -> bool {
    path.len() > 0 ==> path[0] == SLASH
}

/// One more reference token is one more step.
proof fn lemma_pointer_child(path: Seq<u8>, t: Seq<u8>)
    requires
        rooted(path),
        no_slash(t),
    ensures
        rooted(child(path, t)),
        pointer_steps(child(path, t)) == pointer_steps(path).push(Step::Pointer(t)),
{
    let p = child(path, t);
    if path.len() == 0 {
        assert(p.skip(1) =~= t);
        lemma_slash_from(t, 0);
        assert(tokens(t) =~= seq![Step::Pointer(t)]);
        assert(pointer_steps(p) =~= pointer_steps(path).push(Step::Pointer(t)));
    } else {
        assert(p.skip(1) =~= path.skip(1) + seq![SLASH] + t);
        lemma_tokens_append(path.skip(1), t);
    }
}

/// No two members of an object have the same name, at any level.
pub open spec fn distinct(t: Json) -> bool
    decreases t,
{
    match t {
        Json::Object(its) => {
            &&& forall|i: int, j: int|
                0 <= i < j < its.len() ==> #[trigger] its[i].name != #[trigger] its[j].name
            &&& forall|i: int| 0 <= i < its.len() ==> distinct(#[trigger] its[i].value)
        },
        Json::Array(its) => forall|i: int|
            0 <= i < its.len() ==> distinct(#[trigger] its[i].value),
        _ => true,
    }
}

/// The reference token of an item.
spec fn item_token(state: State, name: Seq<u8>, n: nat) -> Seq<u8> {
    if behind(state) == State::ArrComma {
        decimal(n)
    } else {
        pointer_escape(name)
    }
}

/// The calls for an item and for what follows it.
proof fn lemma_visits_piece(
    s: Seq<u8>,
    i: int,
    state: State,
    room: int,
    l: Level,
    over: Set<int>,
) -> (next: Level)
    requires
        left(s, i, state, room).0 is Ok,
        at_item(state),
    ensures
        match piece(s, i, state, room) {
            Some(pc) => {
                &&& next.path == l.path
                &&& next.n == l.n + 1
                &&& rest_visits(s, i, state, room, l, over) == value_visits(
                    s,
                    pc.at,
                    room,
                    child(l.path, item_token(state, pc.name, l.n)),
                    over,
                ) + rest_visits(s, pc.end, behind(state), room, next, over)
            },
            None => rest_visits(s, i, state, room, l, over).len() == 1 && !starts_value(
                rest_visits(s, i, state, room, l, over)[0].token,
            ),
        },
{
    lemma_piece(s, i, state, room);
    reveal(piece);
    reveal(left);
    let m = next_token(s, i, state, false)->Ok_0;
    lemma_next_token(s, i, state, false);
    if m.token == Token::Key {
        let (k, name) = text(s, m.at + 1)->Ok_0;
        lemma_text(s, m.at + 1);
        lemma_next_token(s, k, State::ObjColon, false);
        let v = next_token(s, k, State::ObjColon, false)->Ok_0;
        assert(v.token != Token::Key);
        lemma_value(s, v.at, room);
        let l1 = Level { key: pointer_escape(name), ..l };
        assert(rest_visits(s, i, state, room, l, over) == rest_visits(
            s,
            k,
            State::ObjColon,
            room,
            l1,
            over,
        ));
        bump(l1)
    } else {
        if starts_value(m.token) {
            lemma_value(s, m.at, room);
        }
        bump(l)
    }
}

/// The path of a call leads to the value that it is made for.
#[verifier::opaque]
spec fn found(d: Doc, c0: Cursor, v: Visit) -> bool {
    exists|c: Cursor| #[trigger] leads(d, c0, pointer_steps(v.path), c) && c.at == v.at
}

/// The paths of calls lead to the values that they are made for.
spec fn all_found(d: Doc, c0: Cursor, vs: Seq<Visit>) -> bool {
    forall|k: int|
        0 <= k < vs.len() && starts_value(#[trigger] vs[k].token) ==> found(d, c0, vs[k])
}

proof fn lemma_all_found(d: Doc, c0: Cursor, a: Seq<Visit>, b: Seq<Visit>)
    requires
        all_found(d, c0, a),
        all_found(d, c0, b),
    ensures
        all_found(d, c0, a + b),
{
    let all = a + b;
    assert forall|k: int|
        0 <= k < all.len() && starts_value(#[trigger] all[k].token) implies found(
        d,
        c0,
        all[k],
    ) by {
        if k < a.len() {
            assert(all[k] == a[k]);
        } else {
            assert(all[k] == b[k - a.len()]);
        }
    }
}

/// The first member with the name of one is that one, where the names are distinct.
proof fn lemma_first_distinct(its: Seq<Item>, n: int)
    requires
        0 <= n < its.len(),
        forall|i: int, j: int|
            0 <= i < j < its.len() ==> #[trigger] its[i].name != #[trigger] its[j].name,
    ensures
        first_named(its, Some(its[n].name)) == Some(n as nat),
    decreases n,
{
    if n > 0 {
        let more = its.skip(1);
        assert(its[0].name != its[n].name);
        assert forall|i: int, j: int| 0 <= i < j < more.len() implies #[trigger] more[i].name
            != #[trigger] more[j].name by {
            assert(more[i] == its[i + 1] && more[j] == its[j + 1]);
        }
        assert(more[n - 1] == its[n]);
        lemma_first_distinct(more, n - 1);
    }
}

/// The reference token of an item designates it.
proof fn lemma_item_token(t: Json, n: nat, state: State)
    requires
        distinct(t),
        n < children(t).len(),
        n <= usize::MAX,
        t is Object ==> behind(state) == State::ObjComma,
        t is Array ==> behind(state) == State::ArrComma,
    ensures
        ({
            let token = item_token(state, children(t)[n as int].name, n);
            &&& no_slash(token)
            &&& child_at(t, Step::Pointer(token)) == Some(n)
        }),
{
    let name = children(t)[n as int].name;
    match t {
        Json::Object(its) => {
            lemma_pointer_escape(name);
            law_pointer_escape(name);
            lemma_first_distinct(its, n as int);
        },
        _ => {
            lemma_decimal_index(n);
            lemma_read_index(decimal(n));
        },
    }
}

/// The calls for the items of a container from number `n` on.
proof fn lemma_rest_paths(
    d: Doc,
    c0: Cursor,
    c: Cursor,
    path: Seq<u8>,
    over: Set<int>,
    i: int,
    state: State,
    l: Level,
)
    requires
        at_whole(d, c0),
        at_whole(d, c),
        d.bytes.len() <= usize::MAX,
        leads(d, c0, pointer_steps(path), c),
        rooted(path),
        distinct(tree_at(d, c)),
        tree_at(d, c) is Object || tree_at(d, c) is Array,
        l.path == path,
        l.n <= children(tree_at(d, c)).len(),
        c.at + l.n < i,
        at_item(state),
        behind(state) == (if tree_at(d, c) is Object {
            State::ObjComma
        } else {
            State::ArrComma
        }),
        left(d.bytes, i, state, room(d, c) - 1).0 is Ok,
        left(d.bytes, i, state, room(d, c) - 1).1 == children(tree_at(d, c)).skip(l.n as int),
        forall|x: nat|
            #![trigger place(d.bytes, i, state, room(d, c) - 1, x)]
            place(d.bytes, i, state, room(d, c) - 1, x) == child_cursor(d, c, l.n + x).at,
    ensures
        all_found(d, c0, rest_visits(d.bytes, i, state, room(d, c) - 1, l, over)),
    decreases d.bytes.len() - i, 1int,
{
    let s = d.bytes;
    let r = room(d, c) - 1;
    let its = children(tree_at(d, c));
    let next = lemma_visits_piece(s, i, state, r, l, over);
    lemma_piece(s, i, state, r);
    match piece(s, i, state, r) {
        None => {},
        Some(pc) => {
            let n = l.n;
            let item = read_item(s, pc, r);
            let more = left(s, pc.end, behind(state), r).1;
            lemma_whole(d, c);
            assert((seq![item] + more).len() == more.len() + 1);
            assert(its.skip(n as int).len() == its.len() - n);
            assert(its.skip(n as int)[0] == item);
            assert(its[n as int] == item);
            assert(item.name == pc.name) by {
                reveal(read_item);
            }
            assert(its.skip(n as int).skip(1) =~= its.skip(n as int + 1));
            assert((seq![item] + more).skip(1) =~= more);
            lemma_item_token(tree_at(d, c), n, state);
            let token = item_token(state, pc.name, n);
            lemma_pointer_child(path, token);
            let steps = pointer_steps(child(path, token));
            assert(steps.drop_last() =~= pointer_steps(path));
            lemma_leads_last(d, c0, steps, c, n);
            lemma_child(d, c, n);
            let c2 = child_cursor(d, c, n);
            assert(place(s, i, state, r, 0) == c2.at);
            lemma_value_paths(d, c0, c2, child(path, token), over);
            assert forall|x: nat|
                #![trigger place(s, pc.end, behind(state), r, x)]
                place(s, pc.end, behind(state), r, x) == child_cursor(d, c, next.n + x).at by {
                assert(place(s, i, state, r, x + 1) == child_cursor(d, c, n + (x + 1)).at);
            }
            lemma_rest_paths(d, c0, c, path, over, pc.end, behind(state), next);
            lemma_all_found(
                d,
                c0,
                value_visits(s, pc.at, r, child(path, token), over),
                rest_visits(s, pc.end, behind(state), r, next, over),
            );
        },
    }
}

/// The calls for a value to which `path` leads.
proof fn lemma_value_paths(d: Doc, c0: Cursor, c: Cursor, path: Seq<u8>, over: Set<int>)
    requires
        at_whole(d, c0),
        at_whole(d, c),
        d.bytes.len() <= usize::MAX,
        leads(d, c0, pointer_steps(path), c),
        rooted(path),
        distinct(tree_at(d, c)),
    ensures
        all_found(d, c0, value_visits(d.bytes, c.at, room(d, c), path, over)),
    decreases d.bytes.len() - c.at, 0int,
{
    let s = d.bytes;
    let r = room(d, c);
    let vs = value_visits(s, c.at, r, path, over);
    lemma_container(d, c);
    lemma_whole(d, c);
    let tok = value_token(s[c.at])->Some_0;
    let first = Visit { path, token: tok, at: c.at };
    assert(found(d, c0, first)) by {
        reveal(found);
        assert(leads(d, c0, pointer_steps(first.path), c) && c.at == first.at);
    }
    assert(value_token(s[c.at]) is Some) by {
        reveal(at_whole);
        lemma_value_state(d, c);
    }
    assert(all_found(d, c0, seq![first]));
    let state = inside(s[c.at]);
    let l = fresh(path);
    if is_container(tok) && !over.contains(c.at) && r > 0 {
        assert(tree_at(d, c) is Object <==> tok == Token::BeginObject) by {
            reveal(tree_at);
        }
        assert(tree_at(d, c) is Array <==> tok == Token::BeginArray) by {
            reveal(tree_at);
        }
        assert forall|x: nat|
            #![trigger place(s, c.at + 1, state, r - 1, x)]
            place(s, c.at + 1, state, r - 1, x) == child_cursor(d, c, l.n + x).at by {
            reveal(child_cursor);
        }
        assert(children(tree_at(d, c)).skip(0) =~= children(tree_at(d, c)));
        lemma_rest_paths(d, c0, c, path, over, c.at + 1, state, l);
        lemma_all_found(
            d,
            c0,
            seq![first],
            rest_visits(s, c.at + 1, state, r - 1, l, over),
        );
    } else {
        assert(vs =~= seq![first]);
    }
}

/// The paths of a walk are JSON Pointers to the values that it visits: where no two members of an
/// object have the same name, seeking the path of a call finds the value that the call was made
/// for.
pub proof fn law_walk_paths(s: Seq<u8>, limit: int, over: Set<int>, k: int)
    requires
        is_document(s, 0, limit),
        0 <= limit,
        s.len() <= usize::MAX,
        distinct(meaning(s, limit)),
        0 <= k < visits(doc(s, limit), root(s), over).len(),
        starts_value(visits(doc(s, limit), root(s), over)[k].token),
    ensures
        ({
            let v = visits(doc(s, limit), root(s), over)[k];
            seek(doc(s, limit), start(0), pointer_steps(v.path)) matches Outcome::Done(true, c)
                && c.at == v.at
        }),
{
    let d = doc(s, limit);
    let v = visits(d, root(s), over)[k];
    lemma_root(s, limit, pointer_steps(v.path));
    lemma_leads_here(d, root(s), pointer_steps(Seq::empty()));
    lemma_value_paths(d, root(s), root(s), Seq::empty(), over);
    assert(found(d, root(s), v));
    reveal(found);
    reveal(leads);
}

/// The visits are those of different positions from `lo` on, in the order of the document, and end
/// in front of `hi`.
pub open spec fn in_order(vs: Seq<Visit>, lo: int, hi: int) -> bool {
    &&& forall|k: int| 0 <= k < vs.len() ==> lo <= (#[trigger] vs[k]).at < hi
    &&& forall|j: int, k: int| 0 <= j < k < vs.len() ==> (#[trigger] vs[j]).at < (#[trigger] vs[k]).at
}

/// The visit of the end of a container that was visited.
pub open spec fn closes(v: Visit, w: Visit) -> bool {
    &&& w.path == v.path
    &&& w.token == (if v.token == Token::BeginObject {
        Token::EndObject
    } else {
        Token::EndArray
    })
}

/// Each container that is entered gets a visit of its end, with the same path, later on.
pub open spec fn closed_all(vs: Seq<Visit>, over: Set<int>) -> bool {
    forall|k: int|
        0 <= k < vs.len() && is_container((#[trigger] vs[k]).token) && !over.contains(vs[k].at)
            ==> exists|j: int| k < j < vs.len() && closes(vs[k], #[trigger] vs[j])
}

proof fn lemma_order_join(a: Seq<Visit>, b: Seq<Visit>, lo: int, mid: int, hi: int, over: Set<int>)
    requires
        in_order(a, lo, mid),
        in_order(b, mid, hi),
        closed_all(a, over),
        closed_all(b, over),
        lo <= mid <= hi,
    ensures
        in_order(a + b, lo, hi),
        closed_all(a + b, over),
{
    let c = a + b;
    assert forall|k: int| 0 <= k < c.len() implies lo <= (#[trigger] c[k]).at < hi by {
        if k < a.len() {
            assert(c[k] == a[k]);
        } else {
            assert(c[k] == b[k - a.len()]);
        }
    }
    assert forall|j: int, k: int| 0 <= j < k < c.len() implies (#[trigger] c[j]).at < (
    #[trigger] c[k]).at by {
        if k < a.len() {
            assert(c[j] == a[j] && c[k] == a[k]);
        } else if j < a.len() {
            assert(c[j] == a[j] && c[k] == b[k - a.len()]);
        } else {
            assert(c[j] == b[j - a.len()] && c[k] == b[k - a.len()]);
        }
    }
    assert forall|k: int|
        0 <= k < c.len() && is_container((#[trigger] c[k]).token) && !over.contains(
            c[k].at,
        ) implies exists|j: int| k < j < c.len() && closes(c[k], #[trigger] c[j]) by {
        if k < a.len() {
            assert(c[k] == a[k]);
            let j = choose|j: int| k < j < a.len() && closes(a[k], #[trigger] a[j]);
            assert(c[j] == a[j]);
        } else {
            let m = k - a.len();
            assert(c[k] == b[m]);
            let j = choose|j: int| m < j < b.len() && closes(b[m], #[trigger] b[j]);
            assert(c[j + a.len()] == b[j]);
        }
    }
}

/// The visits of a value.
proof fn lemma_value_order(s: Seq<u8>, i: int, room: int, path: Seq<u8>, over: Set<int>)
    requires
        0 <= i <= s.len(),
        value(s, i, room) is Ok,
    ensures
        ({
            let vs = value_visits(s, i, room, path, over);
            &&& vs.len() > 0
            &&& in_order(vs, i, value(s, i, room)->Ok_0)
            &&& closed_all(vs, over)
        }),
    decreases s.len() - i, 0int,
{
    lemma_value(s, i, room);
    let t = value_token(s[i])->Some_0;
    let first = seq![Visit { path, token: t, at: i }];
    let k = value(s, i, room)->Ok_0;
    if is_container(t) && !over.contains(i) {
        let state = if t == Token::BeginObject {
            State::ObjFirst
        } else {
            State::ArrFirst
        };
        let more = rest_visits(s, i + 1, state, room - 1, fresh(path), over);
        lemma_rest_order(s, i + 1, state, room - 1, fresh(path), over);
        let vs = first + more;
        assert(vs =~= value_visits(s, i, room, path, over));
        assert forall|a: int, b: int| 0 <= a < b < vs.len() implies (#[trigger] vs[a]).at < (
        #[trigger] vs[b]).at by {
            assert(vs[b] == more[b - 1]);
            if a > 0 {
                assert(vs[a] == more[a - 1]);
            }
        }
        assert forall|b: int| 0 <= b < vs.len() implies i <= (#[trigger] vs[b]).at < k by {
            if b > 0 {
                assert(vs[b] == more[b - 1]);
            }
        }
        assert forall|b: int|
            0 <= b < vs.len() && is_container((#[trigger] vs[b]).token) && !over.contains(
                vs[b].at,
            ) implies exists|j: int| b < j < vs.len() && closes(vs[b], #[trigger] vs[j]) by {
            if b == 0 {
                assert(closes(vs[0], vs[vs.len() - 1]));
            } else {
                assert(vs[b] == more[b - 1]);
                let j = choose|j: int| b - 1 < j < more.len() && closes(
                    more[b - 1],
                    #[trigger] more[j],
                );
                assert(vs[j + 1] == more[j]);
            }
        }
    } else {
        assert(value_visits(s, i, room, path, over) =~= first);
    }
}

/// The visits of what is left of a container.
proof fn lemma_rest_order(
    s: Seq<u8>,
    i: int,
    state: State,
    room: int,
    l: Level,
    over: Set<int>,
)
    requires
        0 <= i <= s.len(),
        rest(s, i, state, room) is Ok,
        state == State::ArrFirst || state == State::ArrComma || state == State::ObjFirst || state
            == State::ObjComma || state == State::ObjColon,
    ensures
        ({
            let vs = rest_visits(s, i, state, room, l, over);
            &&& vs.len() > 0
            &&& in_order(vs, i, rest(s, i, state, room)->Ok_0)
            &&& closed_all(vs, over)
            &&& vs.last().path == l.path
            &&& vs.last().token == (if state == State::ArrFirst || state == State::ArrComma {
                Token::EndArray
            } else {
                Token::EndObject
            })
        }),
    decreases s.len() - i, 1int,
{
    lemma_next_token(s, i, state, false);
    lemma_rest(s, i, state, room);
    let m = next_token(s, i, state, false)->Ok_0;
    let vs = rest_visits(s, i, state, room, l, over);
    if m.token == Token::EndObject || m.token == Token::EndArray {
        assert(vs =~= seq![Visit { path: l.path, token: m.token, at: m.at }]);
    } else if m.token == Token::Key {
        lemma_text(s, m.at + 1);
        let (k, name) = text(s, m.at + 1)->Ok_0;
        lemma_rest_order(
            s,
            k,
            State::ObjColon,
            room,
            Level { key: pointer_escape(name), ..l },
            over,
        );
    } else {
        lemma_value(s, m.at, room);
        let k = value(s, m.at, room)->Ok_0;
        let path = next_path(l, m.state);
        let a = value_visits(s, m.at, room, path, over);
        let b = rest_visits(s, k, value_end(m.state), room, bump(l), over);
        lemma_value_order(s, m.at, room, path, over);
        lemma_rest_order(s, k, value_end(m.state), room, bump(l), over);
        lemma_order_join(a, b, m.at, k, rest(s, i, state, room)->Ok_0, over);
        assert(vs =~= a + b);
        assert(vs.last() == b.last());
    }
}

/// A walk goes through the document in order: no position is visited twice, each container that is
/// entered gets a visit of its end, with its path, behind those of what it holds, and the first
/// visit is that of the value itself.
pub proof fn law_walk_order(s: Seq<u8>, limit: int, over: Set<int>)
    requires
        is_document(s, 0, limit),
        0 <= limit,
    ensures
        ({
            let vs = visits(doc(s, limit), root(s), over);
            &&& in_order(vs, 0, s.len() as int)
            &&& closed_all(vs, over)
            &&& vs.len() > 0
            &&& vs[0].path == Seq::<u8>::empty()
            &&& vs[0].at == root(s).at
        }),
{
    reveal(is_document);
    lemma_skip_space(s, 0);
    let i = skip_space(s, 0);
    lemma_value(s, i, limit);
    lemma_value_order(s, i, limit, Seq::empty(), over);
}

/// The reference token of item number `n` of a container: its number in an array, its name in an
/// object.
pub open spec fn token_for(t: Json, n: int) -> Seq<u8> {
    if t is Object {
        pointer_escape(parts(t)[n].name)
    } else {
        decimal(n as nat)
    }
}

/// The calls for the value `t` at `path`, each as its path and its token: one for the value, and for
/// a container those for its items, with their paths, and one for its end, unless it is skipped.
/// `k` calls were made before, and `skips` says which of all calls asked for a skip.
pub open spec fn listing(t: Json, path: Seq<u8>, skips: spec_fn(int) -> bool, k: int) -> Seq<
    (Seq<u8>, Token),
>
    decreases t, parts(t).len() + 1,
{
    seq![(path, token_of(t))] + if (t is Array || t is Object) && !skips(k) {
        listing_from(t, 0, path, skips, k + 1)
    } else {
        Seq::empty()
    }
}

/// The calls for a container from its item number `n` on.
pub open spec fn listing_from(
    t: Json,
    n: int,
    path: Seq<u8>,
    skips: spec_fn(int) -> bool,
    k: int,
) -> Seq<(Seq<u8>, Token)>
    decreases t, parts(t).len() - n,
{
    if 0 <= n < parts(t).len() {
        let first = listing(
            parts(t)[n].value,
            path + seq!['/' as u8] + token_for(t, n),
            skips,
            k,
        );
        first + listing_from(t, n + 1, path, skips, k + first.len())
    } else {
        seq![
            (
                path,
                if t is Object {
                    Token::EndObject
                } else {
                    Token::EndArray
                },
            ),
        ]
    }
}

/// Calls, each as its path and its token.
pub open spec fn calls_of(vs: Seq<Visit>) -> Seq<(Seq<u8>, Token)> {
    Seq::new(vs.len(), |k: int| (vs[k].path, vs[k].token))
}

/// Whether `skips` says, from number `k` on, which of the calls are for positions in `over`.
pub open spec fn agrees(vs: Seq<Visit>, over: Set<int>, skips: spec_fn(int) -> bool, k: int) -> bool {
    forall|x: int| 0 <= x < vs.len() ==> skips(k + x) == over.contains((#[trigger] vs[x]).at)
}

proof fn lemma_calls_both(
    a: Seq<Visit>,
    b: Seq<Visit>,
    over: Set<int>,
    skips: spec_fn(int) -> bool,
    k: int,
)
    requires
        agrees(a + b, over, skips, k),
    ensures
        calls_of(a + b) == calls_of(a) + calls_of(b),
        agrees(a, over, skips, k),
        agrees(b, over, skips, k + a.len()),
{
    let all = a + b;
    assert(calls_of(all) =~= calls_of(a) + calls_of(b));
    assert forall|x: int| 0 <= x < a.len() implies skips(k + x) == over.contains(
        (#[trigger] a[x]).at,
    ) by {
        assert(all[x] == a[x]);
    }
    assert forall|x: int| 0 <= x < b.len() implies skips(k + a.len() + x) == over.contains(
        (#[trigger] b[x]).at,
    ) by {
        assert(all[a.len() + x] == b[x]);
        assert(k + (a.len() + x) == k + a.len() + x);
    }
}

/// The calls for a value.
proof fn lemma_value_listing(
    s: Seq<u8>,
    i: int,
    room: int,
    path: Seq<u8>,
    over: Set<int>,
    skips: spec_fn(int) -> bool,
    k: int,
)
    requires
        0 <= i <= s.len(),
        value(s, i, room) is Ok,
        agrees(value_visits(s, i, room, path, over), over, skips, k),
    ensures
        calls_of(value_visits(s, i, room, path, over)) == listing(
            tree(s, i, room),
            path,
            skips,
            k,
        ),
    decreases s.len() - i, 0int,
{
    lemma_value(s, i, room);
    let t = tree(s, i, room);
    let tok = value_token(s[i])->Some_0;
    let first = seq![Visit { path, token: tok, at: i }];
    let vs = value_visits(s, i, room, path, over);
    assert(tok == token_of(t));
    assert(vs[0] == first[0]);
    assert(skips(k + 0) == over.contains(i));
    if is_container(tok) && !over.contains(i) {
        let state = if tok == Token::BeginObject {
            State::ObjFirst
        } else {
            State::ArrFirst
        };
        let l = fresh(path);
        let more = rest_visits(s, i + 1, state, room - 1, l, over);
        assert(vs == first + more);
        lemma_calls_both(first, more, over, skips, k);
        assert(left(s, i + 1, state, room - 1).0 is Ok && left(s, i + 1, state, room - 1).1
            == parts(t)) by {
            reveal(left);
        }
        assert(parts(t).skip(0) =~= parts(t));
        lemma_rest_listing(s, i + 1, state, room - 1, l, over, skips, k + 1, t);
        assert(calls_of(first) =~= seq![(path, tok)]);
    } else {
        assert(vs =~= first);
        assert(calls_of(vs) =~= listing(t, path, skips, k));
    }
}

/// The calls for the items of a container from number `l.n` on.
proof fn lemma_rest_listing(
    s: Seq<u8>,
    i: int,
    state: State,
    room: int,
    l: Level,
    over: Set<int>,
    skips: spec_fn(int) -> bool,
    k: int,
    t: Json,
)
    requires
        left(s, i, state, room).0 is Ok,
        at_item(state),
        l.n <= parts(t).len(),
        left(s, i, state, room).1 == parts(t).skip(l.n as int),
        t is Object || t is Array,
        behind(state) == (if t is Object {
            State::ObjComma
        } else {
            State::ArrComma
        }),
        agrees(rest_visits(s, i, state, room, l, over), over, skips, k),
    ensures
        calls_of(rest_visits(s, i, state, room, l, over)) == listing_from(
            t,
            l.n as int,
            l.path,
            skips,
            k,
        ),
    decreases s.len() - i, 1int,
{
    let next = lemma_visits_piece(s, i, state, room, l, over);
    lemma_piece(s, i, state, room);
    let vs = rest_visits(s, i, state, room, l, over);
    let its = parts(t);
    let n = l.n as int;
    match piece(s, i, state, room) {
        None => {
            assert(its.skip(n).len() == 0);
            assert(vs[0].path == l.path && vs[0].token == end_token(state)) by {
                lemma_next_token(s, i, state, false);
            }
            assert(calls_of(vs) =~= listing_from(t, n, l.path, skips, k));
        },
        Some(pc) => {
            let item = read_item(s, pc, room);
            let more = left(s, pc.end, behind(state), room).1;
            assert((seq![item] + more).len() == more.len() + 1);
            assert(its.skip(n)[0] == item);
            assert(its[n] == item);
            assert(item.name == pc.name && item.value == tree(s, pc.at, room)) by {
                reveal(read_item);
            }
            assert(its.skip(n).skip(1) =~= its.skip(n + 1));
            assert((seq![item] + more).skip(1) =~= more);
            let token = item_token(state, pc.name, l.n);
            assert(token == token_for(t, n));
            let path = child(l.path, token);
            let a = value_visits(s, pc.at, room, path, over);
            let b = rest_visits(s, pc.end, behind(state), room, next, over);
            lemma_calls_both(a, b, over, skips, k);
            assert(value(s, pc.at, room) is Ok) by {
                reveal(piece);
            }
            lemma_value_listing(s, pc.at, room, path, over, skips, k);
            lemma_rest_listing(
                s,
                pc.end,
                behind(state),
                room,
                next,
                over,
                skips,
                k + a.len(),
                t,
            );
        },
    }
}

/// A walk of a document calls for each value in it, and for the end of each container, in order, with
/// their paths; where a call for a container asks for a skip, none is made for what it holds, nor for
/// its end.
pub proof fn law_walk_listing(
    s: Seq<u8>,
    a: int,
    b: int,
    t: Json,
    limit: int,
    over: Set<int>,
    skips: spec_fn(int) -> bool,
)
    requires
        document_at(s, t, a, b),
        nests(t, limit),
        0 <= limit,
        agrees(visits(doc(s, limit), root(s), over), over, skips, 0),
    ensures
        calls_of(visits(doc(s, limit), root(s), over)) == listing(t, Seq::empty(), skips, 0),
{
    law_document(s, t, limit);
    reveal(is_document);
    reveal(meaning);
    lemma_skip_space(s, 0);
    lemma_value_listing(s, skip_space(s, 0), limit, Seq::empty(), over, skips, 0);
}

/// A walk from the value in front of a cursor calls for that value and what it holds, as a walk of a
/// document does, with paths from there.
pub proof fn law_walk_value(
    d: Doc,
    c: Cursor,
    b: int,
    t: Json,
    over: Set<int>,
    skips: spec_fn(int) -> bool,
)
    requires
        in_front_of(d, c, b, t),
        agrees(visits(d, c, over), over, skips, 0),
    ensures
        calls_of(visits(d, c, over)) == listing(t, Seq::empty(), skips, 0),
{
    lemma_in_front(d, c, b, t);
    lemma_value_listing(d.bytes, c.at, room(d, c), Seq::empty(), over, skips, 0);
}

/// Whether the paths of all that `t`, at `path`, holds have at most `cap` bytes.
pub open spec fn paths_fit(t: Json, path: Seq<u8>, cap: nat) -> bool
    decreases t, parts(t).len() + 1,
{
    paths_fit_from(t, 0, path, cap)
}

/// Whether the paths of what `t` holds from its item number `n` on have at most `cap` bytes.
pub open spec fn paths_fit_from(t: Json, n: int, path: Seq<u8>, cap: nat) -> bool
    decreases t, parts(t).len() - n,
{
    0 <= n < parts(t).len() ==> {
        let p = path + seq!['/' as u8] + token_for(t, n);
        &&& p.len() <= cap
        &&& paths_fit(parts(t)[n].value, p, cap)
        &&& paths_fit_from(t, n + 1, path, cap)
    }
}

/// Whether the paths of an item and of what follows it fit.
proof fn lemma_fits_piece(s: Seq<u8>, i: int, state: State, room: int, l: Level, cap: nat)
    requires
        left(s, i, state, room).0 is Ok,
        at_item(state),
        l.n <= usize::MAX,
    ensures
        match piece(s, i, state, room) {
            Some(pc) => {
                let p = child(l.path, item_token(state, pc.name, l.n));
                exists|next: Level| #[trigger]
                    counts(next, l) && rest_fits(s, i, state, room, l, cap) == (p.len() <= cap
                        && value_fits(s, pc.at, room, p, cap) && rest_fits(
                        s,
                        pc.end,
                        behind(state),
                        room,
                        next,
                        cap,
                    ))
            },
            None => rest_fits(s, i, state, room, l, cap),
        },
{
    lemma_piece(s, i, state, room);
    reveal(piece);
    reveal(left);
    let m = next_token(s, i, state, false)->Ok_0;
    lemma_next_token(s, i, state, false);
    if m.token == Token::Key {
        let (k, name) = text(s, m.at + 1)->Ok_0;
        lemma_text(s, m.at + 1);
        lemma_next_token(s, k, State::ObjColon, false);
        let v = next_token(s, k, State::ObjColon, false)->Ok_0;
        assert(v.token != Token::Key);
        lemma_value(s, v.at, room);
        let l1 = Level { key: pointer_escape(name), ..l };
        assert(rest_fits(s, i, state, room, l, cap) == (child(l.path, pointer_escape(name)).len()
            <= cap && rest_fits(s, k, State::ObjColon, room, l1, cap)));
        assert(counts(bump(l1), l));
    } else {
        if starts_value(m.token) {
            lemma_value(s, m.at, room);
            assert(counts(bump(l), l));
        }
    }
}

/// Whether one more item of the container was passed.
spec fn counts(next: Level, l: Level) -> bool {
    next.path == l.path && next.n == l.n + 1
}

/// Whether the paths of what a value holds fit.
proof fn lemma_value_fits(s: Seq<u8>, i: int, room: int, path: Seq<u8>, cap: nat)
    requires
        0 <= i <= s.len() <= usize::MAX,
        value(s, i, room) is Ok,
    ensures
        value_fits(s, i, room, path, cap) == paths_fit(tree(s, i, room), path, cap),
    decreases s.len() - i, 0int,
{
    lemma_value(s, i, room);
    let t = tree(s, i, room);
    let tok = value_token(s[i])->Some_0;
    if is_container(tok) {
        let state = if tok == Token::BeginObject {
            State::ObjFirst
        } else {
            State::ArrFirst
        };
        assert(left(s, i + 1, state, room - 1).0 is Ok && left(s, i + 1, state, room - 1).1
            == parts(t)) by {
            reveal(left);
        }
        assert(parts(t).skip(0) =~= parts(t));
        lemma_rest_fits(s, i + 1, state, room - 1, fresh(path), cap, t);
    }
}

/// Whether the paths of the items of a container from number `l.n` on fit.
proof fn lemma_rest_fits(
    s: Seq<u8>,
    i: int,
    state: State,
    room: int,
    l: Level,
    cap: nat,
    t: Json,
)
    requires
        s.len() <= usize::MAX,
        left(s, i, state, room).0 is Ok,
        at_item(state),
        l.n <= i,
        l.n <= parts(t).len(),
        left(s, i, state, room).1 == parts(t).skip(l.n as int),
        t is Object || t is Array,
        behind(state) == (if t is Object {
            State::ObjComma
        } else {
            State::ArrComma
        }),
    ensures
        rest_fits(s, i, state, room, l, cap) == paths_fit_from(t, l.n as int, l.path, cap),
    decreases s.len() - i, 1int,
{
    lemma_piece(s, i, state, room);
    lemma_fits_piece(s, i, state, room, l, cap);
    let its = parts(t);
    let n = l.n as int;
    match piece(s, i, state, room) {
        None => {
            assert(its.skip(n).len() == 0);
        },
        Some(pc) => {
            let item = read_item(s, pc, room);
            let more = left(s, pc.end, behind(state), room).1;
            assert((seq![item] + more).len() == more.len() + 1);
            assert(its.skip(n)[0] == item);
            assert(its[n] == item);
            assert(item.name == pc.name && item.value == tree(s, pc.at, room)) by {
                reveal(read_item);
            }
            assert(its.skip(n).skip(1) =~= its.skip(n + 1));
            assert((seq![item] + more).skip(1) =~= more);
            let token = item_token(state, pc.name, l.n);
            assert(token == token_for(t, n));
            let path = child(l.path, token);
            assert(value(s, pc.at, room) is Ok) by {
                reveal(piece);
            }
            let next = choose|next: Level| #[trigger]
                counts(next, l) && rest_fits(s, i, state, room, l, cap) == (path.len() <= cap
                    && value_fits(s, pc.at, room, path, cap) && rest_fits(
                    s,
                    pc.end,
                    behind(state),
                    room,
                    next,
                    cap,
                ));
            lemma_value_fits(s, pc.at, room, path, cap);
            lemma_rest_fits(s, pc.end, behind(state), room, next, cap, t);
        },
    }
}

/// A walk needs room for the paths of all that it visits.
pub proof fn law_walk_fits(d: Doc, c: Cursor, b: int, t: Json, cap: nat)
    requires
        in_front_of(d, c, b, t),
        d.bytes.len() <= usize::MAX,
    ensures
        value_fits(d.bytes, c.at, room(d, c), Seq::empty(), cap) == paths_fit(t, Seq::empty(), cap),
{
    lemma_in_front(d, c, b, t);
    lemma_value_fits(d.bytes, c.at, room(d, c), Seq::empty(), cap);
}

} // verus!
