//! What paths lead to: laws on the steps of a path, on JSON Pointers, and on what is found in a
//! value.

use vstd::prelude::*;

use crate::edit::{new_name, pointer_name};
use crate::edit_laws::{added, lemma_end_no_index, pushed, removed};
use crate::laws::{child_at, first_named, get, put};
use crate::layout::{is_integer, law_decimal, law_integers_differ, value_of};
use crate::notation::{is_whole, parts};
use crate::number::decimal;
use crate::path::{
    pointer_steps, read_index, slash_from, step_index, step_is_end, step_name, tokens, unescape,
    Step,
};
use crate::tree::{Item, Json};
use crate::walk::{lemma_pointer_parts, no_slash, pointer_byte, pointer_escape};
use crate::walk_laws::lemma_tokens_append;

verus! {

/// Whether the reference token `p` stands for `name`: `~0` for a `~`, `~1` for a `/`, and every other
/// byte but a `~` for itself. If `loose`, a `~` that starts neither stands for itself too.
pub open spec fn refers(p: Seq<u8>, name: Seq<u8>, loose: bool) -> bool
    decreases name.len(),
{
    if name.len() == 0 {
        p.len() == 0
    } else {
        ||| p.len() > 0 && p[0] == name[0] && p[0] != '~' as u8 && refers(
            p.skip(1),
            name.skip(1),
            loose,
        )
        ||| p.len() > 1 && p[0] == '~' as u8 && p[1] == '0' as u8 && name[0] == '~' as u8 && refers(
            p.skip(2),
            name.skip(1),
            loose,
        )
        ||| p.len() > 1 && p[0] == '~' as u8 && p[1] == '1' as u8 && name[0] == '/' as u8 && refers(
            p.skip(2),
            name.skip(1),
            loose,
        )
        ||| loose && p.len() > 0 && p[0] == '~' as u8 && name[0] == '~' as u8 && !(p.len() > 1 && (
        p[1] == '0' as u8 || p[1] == '1' as u8)) && refers(p.skip(1), name.skip(1), loose)
    }
}

/// A reference token designates the name that it stands for, and no other; one with a `~` that starts
/// no escape designates none.
pub proof fn law_unescape(p: Seq<u8>, name: Seq<u8>)
    ensures
        unescape(p) == Some(name) <==> refers(p, name, false),
    decreases p.len(),
{
    if p.len() > 0 {
        let n = if p[0] == '~' as u8 {
            2int
        } else {
            1int
        };
        if n <= p.len() {
            law_unescape(p.skip(n), name.skip(1));
            if unescape(p) == Some(name) {
                let tail = unescape(p.skip(n))->Some_0;
                assert(name.skip(1) =~= tail);
            }
            if refers(p, name, false) {
                assert(seq![name[0]] + name.skip(1) =~= name);
            }
        }
    } else {
        if name.len() == 0 {
            assert(name =~= Seq::<u8>::empty());
        }
    }
}

/// The reference token of a name stands for it and holds no `/`; no other text does.
pub proof fn law_reference_token(p: Seq<u8>, name: Seq<u8>)
    ensures
        p == pointer_escape(name) <==> refers(p, name, false) && forall|k: int|
            0 <= k < p.len() ==> #[trigger] p[k] != '/' as u8,
    decreases name.len(),
{
    if name.len() == 0 {
        if p.len() == 0 {
            assert(p =~= Seq::<u8>::empty());
        }
    } else {
        let b = seq![name[0]];
        let tail = name.skip(1);
        let head = pointer_escape(b);
        assert(b.drop_last() =~= Seq::<u8>::empty());
        assert(pointer_escape(b.drop_last()) =~= Seq::<u8>::empty());
        assert(b.last() == name[0]);
        assert(head =~= pointer_byte(name[0]));
        assert(b + tail =~= name);
        lemma_pointer_parts(b, tail);
        let n = head.len() as int;
        if p == pointer_escape(name) {
            assert(p.skip(n) =~= pointer_escape(tail));
            law_reference_token(p.skip(n), tail);
            assert forall|k: int| 0 <= k < p.len() implies #[trigger] p[k] != '/' as u8 by {
                if k >= n {
                    assert(p[k] == p.skip(n)[k - n]);
                }
            }
        }
        if refers(p, name, false) && forall|k: int|
            0 <= k < p.len() ==> #[trigger] p[k] != '/' as u8 {
            assert(p.subrange(0, n) =~= head);
            law_reference_token(p.skip(n), tail);
            assert(p =~= head + p.skip(n));
        }
    }
}

/// A reference token gives a new member the name that it stands for.
pub proof fn law_pointer_name(p: Seq<u8>, name: Seq<u8>)
    ensures
        pointer_name(p) == name <==> refers(p, name, true),
    decreases p.len(),
{
    if p.len() > 0 {
        let n = if p[0] == '~' as u8 && p.len() > 1 && (p[1] == '0' as u8 || p[1] == '1' as u8) {
            2int
        } else {
            1int
        };
        law_pointer_name(p.skip(n), name.skip(1));
        if pointer_name(p) == name {
            assert(name.skip(1) =~= pointer_name(p.skip(n)));
        }
        if refers(p, name, true) {
            assert(seq![name[0]] + name.skip(1) =~= name);
        }
    } else {
        if name.len() == 0 {
            assert(name =~= Seq::<u8>::empty());
        }
    }
}

/// A step designates an array index exactly if it is one, or is a number written in decimal that
/// fits in memory; `-` is the end of an array.
pub proof fn law_step_index(s: Seq<u8>, n: nat)
    ensures
        step_index(Step::Index(n)) == Some(n),
        step_index(Step::Key(s)) == Some(n) <==> is_integer(s, n as int) && n <= usize::MAX,
        step_index(Step::Pointer(s)) == step_index(Step::Key(s)),
        step_name(Step::Key(s)) == Some(s),
        step_name(Step::Index(n)) matches Some(x) && is_integer(x, n as int),
        step_is_end(Step::Key(s)) == (s == seq!['-' as u8]),
        step_is_end(Step::Pointer(s)) == (s == seq!['-' as u8]),
        !step_is_end(Step::Index(n)),
{
    law_decimal(n);
    if step_index(Step::Key(s)) == Some(n) {
        assert(decimal(n) == s && n <= usize::MAX);
    }
    if is_integer(s, n as int) && n <= usize::MAX {
        lemma_whole_decimal(s, n);
        assert(decimal(n) == s);
        let m = read_index(s)->Some_0;
        law_decimal(m);
        law_integers_differ(s, m as int, n as int);
    }
}

/// Digits that write a number are its decimal form.
proof fn lemma_whole_decimal(s: Seq<u8>, n: nat)
    requires
        is_whole(s),
        value_of(s) == n,
    ensures
        decimal(n) == s,
    decreases s.len(),
{
    let init = s.drop_last();
    let d = s.last() - '0' as int;
    assert('0' as u8 <= s[s.len() - 1] <= '9' as u8);
    if s.len() == 1 {
        assert(value_of(init) == 0);
        assert(decimal(n) =~= s);
    } else {
        assert forall|k: int| 0 <= k < init.len() implies '0' as u8 <= #[trigger] init[k]
            <= '9' as u8 by {
            assert(init[k] == s[k]);
        }
        assert(init[0] == s[0]);
        lemma_positive(init);
        lemma_whole_decimal(init, value_of(init) as nat);
        assert(n / 10 == value_of(init));
        assert(n % 10 == d);
        assert(decimal(n) =~= s);
    }
}

/// Digits of which the first is no `0` write a positive number.
proof fn lemma_positive(s: Seq<u8>)
    requires
        is_whole(s),
        s[0] != '0' as u8,
    ensures
        value_of(s) > 0,
    decreases s.len(),
{
    let init = s.drop_last();
    assert('0' as u8 <= s[s.len() - 1] <= '9' as u8);
    if s.len() > 1 {
        assert forall|k: int| 0 <= k < init.len() implies '0' as u8 <= #[trigger] init[k]
            <= '9' as u8 by {
            assert(init[k] == s[k]);
        }
        assert(init[0] == s[0]);
        lemma_positive(init);
    } else {
        assert(value_of(init) == 0);
        assert(s[0] == s.last());
    }
}

/// Reference tokens, each behind a `/`.
pub open spec fn joined_tokens(ts: Seq<Seq<u8>>) -> Seq<u8>
    decreases ts.len(),
{
    if ts.len() == 0 {
        Seq::empty()
    } else {
        joined_tokens(ts.drop_last()) + seq!['/' as u8] + ts.last()
    }
}

/// A JSON Pointer is split at each `/`, of which the first may be missing.
pub proof fn law_pointer_steps(ts: Seq<Seq<u8>>)
    requires
        forall|k: int| 0 <= k < ts.len() ==> no_slash(#[trigger] ts[k]),
    ensures
        ({
            let steps = Seq::new(ts.len(), |k: int| Step::Pointer(ts[k]));
            let p = joined_tokens(ts);
            &&& pointer_steps(p) == steps
            &&& p.len() > 1 && p[1] != '/' as u8 ==> pointer_steps(p.skip(1)) == steps
        }),
    decreases ts.len(),
{
    let steps = Seq::new(ts.len(), |k: int| Step::Pointer(ts[k]));
    let p = joined_tokens(ts);
    if ts.len() == 0 {
        assert(steps =~= Seq::<Step>::empty());
    } else {
        lemma_tokens_joined(ts);
        assert(p[0] == '/' as u8);
    }
}

/// The tokens behind the first `/` of a JSON Pointer.
proof fn lemma_tokens_joined(ts: Seq<Seq<u8>>)
    requires
        ts.len() > 0,
        forall|k: int| 0 <= k < ts.len() ==> no_slash(#[trigger] ts[k]),
    ensures
        joined_tokens(ts).len() > 0,
        joined_tokens(ts)[0] == '/' as u8,
        tokens(joined_tokens(ts).skip(1)) == Seq::new(ts.len(), |k: int| Step::Pointer(ts[k])),
    decreases ts.len(),
{
    let steps = Seq::new(ts.len(), |k: int| Step::Pointer(ts[k]));
    let init = ts.drop_last();
    let last = ts[ts.len() - 1];
    let p = joined_tokens(ts);
    if init.len() == 0 {
        assert(joined_tokens(init) =~= Seq::<u8>::empty());
        assert(p.skip(1) =~= last);
        lemma_tokens_one(last);
        assert(steps =~= seq![Step::Pointer(last)]);
    } else {
        assert forall|k: int| 0 <= k < init.len() implies no_slash(#[trigger] init[k]) by {
            assert(init[k] == ts[k]);
        }
        lemma_tokens_joined(init);
        let q = joined_tokens(init).skip(1);
        lemma_tokens_append(q, last);
        assert(p.skip(1) =~= q + seq!['/' as u8] + last);
        assert(steps =~= Seq::new(init.len(), |k: int| Step::Pointer(init[k])).push(
            Step::Pointer(last),
        ));
    }
}

/// A token without a `/` is one.
proof fn lemma_tokens_one(t: Seq<u8>)
    requires
        no_slash(t),
    ensures
        tokens(t) == seq![Step::Pointer(t)],
{
    lemma_slash_none(t, 0);
    assert(t.subrange(0, t.len() as int) =~= t);
}

proof fn lemma_slash_none(t: Seq<u8>, i: int)
    requires
        no_slash(t),
        0 <= i <= t.len(),
    ensures
        slash_from(t, i) == t.len(),
    decreases t.len() - i,
{
    if i < t.len() {
        lemma_slash_none(t, i + 1);
    }
}

/// In an object, the first of the members with a name is found by it; in an array, an element by its
/// number; and nothing in any other value.
pub proof fn law_child(t: Json, step: Step, n: nat)
    ensures
        child_at(t, step) == Some(n) <==> n < parts(t).len() && (match t {
            Json::Object(its) => step_name(step) == Some(its[n as int].name) && forall|k: int|
                0 <= k < n ==> step_name(step) != Some((#[trigger] its[k]).name),
            Json::Array(_) => step_index(step) == Some(n),
            _ => false,
        }),
{
    match t {
        Json::Object(its) => lemma_first(its, step_name(step), n),
        _ => {},
    }
}

/// The first item with a name.
pub(crate) proof fn lemma_first(its: Seq<Item>, name: Option<Seq<u8>>, n: nat)
    ensures
        first_named(its, name) == Some(n) <==> n < its.len() && name == Some(its[n as int].name)
            && forall|k: int| 0 <= k < n ==> name != Some((#[trigger] its[k]).name),
    decreases its.len(),
{
    if its.len() > 0 {
        let rest = its.skip(1);
        if name == Some(its[0].name) {
            if n > 0 {
                assert(name == Some(its[0].name));
            }
        } else if n > 0 {
            lemma_first(rest, name, (n - 1) as nat);
            if first_named(its, name) == Some(n) {
                assert forall|k: int| 0 <= k < n implies name != Some((#[trigger] its[k]).name) by {
                    if k > 0 {
                        assert(rest[k - 1] == its[k]);
                    }
                }
            }
            if n < its.len() && name == Some(its[n as int].name) && forall|k: int|
                0 <= k < n ==> name != Some((#[trigger] its[k]).name) {
                assert forall|k: int| 0 <= k < n - 1 implies name != Some(
                    (#[trigger] rest[k]).name,
                ) by {
                    assert(rest[k] == its[k + 1]);
                }
            }
        }
    }
}

/// A path leads from a value to itself if it has no step, and else from the item that its first step
/// designates on.
pub proof fn law_get(t: Json, step: Step, path: Seq<Step>)
    ensures
        get(t, Seq::empty()) == Some(t),
        get(t, seq![step] + path) == (match child_at(t, step) {
            Some(n) => get(parts(t)[n as int].value, path),
            None => None,
        }),
{
    let all = seq![step] + path;
    assert(all.skip(1) =~= path);
    assert(all[0] == step);
}

/// Putting a value at a path changes the item that leads there, and no other item and no name.
pub proof fn law_put(t: Json, step: Step, path: Seq<Step>, new: Json)
    requires
        get(t, seq![step] + path) is Some,
    ensures
        put(t, Seq::empty(), new) == new,
        ({
            let n = child_at(t, step)->Some_0 as int;
            let u = put(t, seq![step] + path, new);
            &&& u is Object <==> t is Object
            &&& u is Array <==> t is Array
            &&& parts(u).len() == parts(t).len()
            &&& parts(u)[n].value == put(parts(t)[n].value, path, new)
            &&& parts(u)[n].name == parts(t)[n].name
            &&& forall|k: int|
                0 <= k < parts(t).len() && k != n ==> #[trigger] parts(u)[k] == parts(t)[k]
        }),
{
    let all = seq![step] + path;
    assert(all.skip(1) =~= path);
    assert(all[0] == step);
    let n = child_at(t, step)->Some_0;
    law_child(t, step, n);
}

/// Removing an item leaves the others as they are, in their order.
pub proof fn law_removed(t: Json, step: Step, k: int)
    ensures
        match child_at(t, step) {
            None => removed(t, step) is None,
            Some(n) => removed(t, step) matches Some(u) && {
                &&& u is Object <==> t is Object
                &&& u is Array <==> t is Array
                &&& parts(u).len() + 1 == parts(t).len()
                &&& 0 <= k < n ==> parts(u)[k] == parts(t)[k]
                &&& n <= k < parts(u).len() ==> parts(u)[k] == parts(t)[k + 1]
            },
        },
{
    if child_at(t, step) is Some {
        law_child(t, step, child_at(t, step)->Some_0);
    }
}

/// Setting or inserting a member gives the first one with its name the new value, and else adds one
/// behind the others; no other member changes.
pub proof fn law_added_member(t: Json, step: Step, insert: bool, new: Json, k: int)
    requires
        t is Object,
    ensures
        added(t, step, insert, new) matches Some(u) && u is Object && match child_at(t, step) {
            Some(n) => {
                &&& parts(u).len() == parts(t).len()
                &&& parts(u)[n as int].value == new
                &&& parts(u)[n as int].name == parts(t)[n as int].name
                &&& 0 <= k < parts(t).len() && k != n ==> parts(u)[k] == parts(t)[k]
            },
            None => {
                &&& parts(u).len() == parts(t).len() + 1
                &&& parts(u).last().value == new
                &&& parts(u).last().name == new_name(step)
                &&& 0 <= k < parts(t).len() ==> parts(u)[k] == parts(t)[k]
            },
        },
{
    if child_at(t, step) is Some {
        law_child(t, step, child_at(t, step)->Some_0);
    }
}

/// Setting an element changes it, inserting one moves those from there on up by one, and either adds
/// one at the end where the step is the end of the array or the number of its elements. Nothing else
/// is an element, and only containers hold any.
pub proof fn law_added_element(t: Json, step: Step, insert: bool, new: Json, k: int)
    requires
        !(t is Object),
    ensures
        match added(t, step, insert, new) {
            None => !(t is Array) || !step_is_end(step) && (match step_index(step) {
                None => true,
                Some(n) => n > parts(t).len(),
            }),
            Some(u) => {
                let n = if step_is_end(step) {
                    parts(t).len() as int
                } else {
                    step_index(step)->Some_0 as int
                };
                let more = if insert || n == parts(t).len() {
                    1int
                } else {
                    0int
                };
                &&& t is Array
                &&& u is Array
                &&& step_is_end(step) || step_index(step) is Some
                &&& 0 <= n <= parts(t).len()
                &&& parts(u).len() == parts(t).len() + more
                &&& parts(u)[n].value == new
                &&& 0 <= k < n ==> parts(u)[k] == parts(t)[k]
                &&& n < k < parts(u).len() ==> parts(u)[k] == parts(t)[k - more]
            },
        },
        match pushed(t, new) {
            None => !(t is Array),
            Some(u) => {
                &&& t is Array
                &&& u is Array
                &&& parts(u).len() == parts(t).len() + 1
                &&& parts(u).last().value == new
                &&& 0 <= k < parts(t).len() ==> parts(u)[k] == parts(t)[k]
            },
        },
{
    if step_is_end(step) {
        lemma_end_no_index(step);
    }
}

} // verus!
