//! What the writer writes, read back: laws that relate the [writer](crate::writer) to the
//! [grammar](crate::grammar).

use vstd::prelude::*;
use vstd::string::StringSliceAdditionalSpecFns;
use vstd::utf8::{
    encode_scalar, encode_utf8, encode_utf8_valid_utf8, length_of_first_scalar, pop_first_scalar,
    take_first_scalar, valid_first_scalar, valid_utf8, valid_utf8_concat,
};

use crate::grammar::{
    hex, hex_digit, is_digit, is_space, lemma_skip_digits, next_token, number, rest, skip_digits,
    skip_space, text, unit, value, value_token, word_end, word_null, Fault, Met, BRACE_CLOSE,
    BRACE_OPEN, BRACKET_CLOSE, BRACKET_OPEN, COLON, COMMA, QUOTE,
};
use crate::number::{decimal, lemma_ascii_utf8};
use crate::parser::{State, Token};
use crate::path::lemma_decimal_index;
use crate::string::lemma_raw_unit;
use crate::splice::{is_value, left, lemma_embedded, lemma_skip_run, stands};
use crate::tree::{ends, lemma_join_key, lemma_join_value, tree, Item, Json};
use crate::writer::{
    after_key, after_value, array_json, bool_text, close_text, compact, elements_json, encoding,
    escape_byte, escaped, inside, integer_text, key_end, key_text, law_escaped_parts, members_json,
    newline, object_json, outside, separator, Object, Place, Pos, RawJson, ToJson,
};

verus! {

/// The UTF-8 encoding of an ASCII character is that character.
proof fn lemma_encode_ascii(c: u8)
    requires
        c < 0x80,
    ensures
        encode_scalar(c as u32) == seq![c],
{
    let x = c as u32;
    assert(x < 0x80 ==> (x & 0x7f) == x) by (bit_vector);
    assert(encode_scalar(x) =~= seq![c]);
}

/// What is written for a byte of an ASCII character stands for it.
proof fn lemma_escape_unit(s: Seq<u8>, i: int, c: u8)
    requires
        0 <= i,
        i + escape_byte(c).len() <= s.len(),
        s.subrange(i, i + escape_byte(c).len()) == escape_byte(c),
        c < 0x80,
    ensures
        unit(s, i) == Ok::<(int, Seq<u8>), Fault>((i + escape_byte(c).len(), seq![c])),
        s[i] != QUOTE,
{
    let w = escape_byte(c);
    let n = w.len() as int;
    assert(forall|k: int| 0 <= k < n ==> #[trigger] w[k] == s.subrange(i, i + n)[k]);
    assert(s[i] == w[0]);
    lemma_encode_ascii(c);
    if n == 2 {
        assert(s[i + 1] == w[1]);
    } else if n == 6 {
        assert(s[i + 1] == w[1] && s[i + 2] == w[2] && s[i + 3] == w[3] && s[i + 4] == w[4] && s[i
            + 5] == w[5]);
        reveal_with_fuel(hex, 5);
        assert(hex_digit(w[4]) == Some(c as int / 16));
        assert(hex_digit(w[5]) == Some(c as int % 16));
        assert(hex(s, i + 2, 4, 0) == Ok::<int, Fault>(c as int));
    }
}

/// Bytes outside of ASCII are written as they are.
pub(crate) proof fn lemma_escaped_raw(b: Seq<u8>)
    requires
        forall|k: int| 0 <= k < b.len() ==> #[trigger] b[k] >= 0x80,
    ensures
        escaped(b) == b,
    decreases b.len(),
{
    if b.len() > 0 {
        lemma_escaped_raw(b.drop_last());
        assert(escape_byte(b.last()) == seq![b.last()]);
        assert(b.drop_last() + seq![b.last()] =~= b);
    }
}

/// What is written for text stands for it.
pub(crate) proof fn lemma_written_text(s: Seq<u8>, i: int, b: Seq<u8>)
    requires
        0 <= i,
        i + escaped(b).len() < s.len(),
        s.subrange(i, i + escaped(b).len()) == escaped(b),
        s[i + escaped(b).len()] == QUOTE,
        valid_utf8(b),
    ensures
        text(s, i) == Ok::<(int, Seq<u8>), Fault>((i + escaped(b).len() + 1, b)),
    decreases b.len(),
{
    if b.len() == 0 {
        assert(b =~= Seq::<u8>::empty());
    } else {
        let m = length_of_first_scalar(b);
        let h = take_first_scalar(b);
        let rest = pop_first_scalar(b);
        assert(b =~= h + rest);
        law_escaped_parts(h, rest);
        let n = escaped(h).len() as int;
        let sub = s.subrange(i, i + escaped(b).len());
        assert(sub.subrange(0, n) =~= escaped(h));
        assert(s.subrange(i, i + n) =~= sub.subrange(0, n));
        assert(sub.skip(n) =~= escaped(rest));
        assert(s.subrange(i + n, i + n + escaped(rest).len()) =~= sub.skip(n));
        if m == 1 {
            assert(h.drop_last() =~= Seq::<u8>::empty());
            assert(escaped(h.drop_last()) =~= Seq::<u8>::empty());
            assert(escaped(h) =~= escape_byte(b[0]));
            assert(h =~= seq![b[0]]);
            lemma_escape_unit(s, i, b[0]);
        } else {
            assert forall|k: int| 0 <= k < h.len() implies #[trigger] h[k] >= 0x80 by {
                assert(h[k] == b[k]);
            }
            lemma_escaped_raw(h);
            assert(h[0] == b[0] && h[1] == b[1]);
            if m >= 3 {
                assert(h[2] == b[2]);
            }
            if m >= 4 {
                assert(h[3] == b[3]);
            }
            assert(valid_first_scalar(h));
            lemma_raw_unit(s, i, h);
            assert(s[i] == s.subrange(i, i + n)[0]);
        }
        lemma_written_text(s, i + n, rest);
        assert(h + rest =~= b);
    }
}

/// Text that is written and read again is the same: what the writer puts between quotes for valid
/// UTF-8 stands for exactly that.
pub proof fn law_text(b: Seq<u8>)
    requires
        valid_utf8(b),
    ensures
        text(escaped(b) + seq![QUOTE], 0) == Ok::<(int, Seq<u8>), Fault>(
            (escaped(b).len() as int + 1, b),
        ),
{
    let s = escaped(b) + seq![QUOTE];
    assert(s.subrange(0, escaped(b).len() as int) =~= escaped(b));
    lemma_written_text(s, 0, b);
}

/// Digits up to the end.
proof fn lemma_all_digits(s: Seq<u8>, i: int)
    requires
        0 <= i <= s.len(),
        forall|k: int| i <= k < s.len() ==> is_digit(#[trigger] s[k]),
    ensures
        skip_digits(s, i) == s.len(),
    decreases s.len() - i,
{
    if i < s.len() {
        lemma_all_digits(s, i + 1);
    }
}

/// An integer that is written is a number with that text.
pub proof fn law_integer(v: int, room: int)
    ensures
        is_value(integer_text(v), room),
        tree(integer_text(v), 0, room) == Json::Number(integer_text(v)),
{
    let s = integer_text(v);
    let n = (if v < 0 {
        -v
    } else {
        v
    }) as nat;
    lemma_decimal_index(n);
    let i: int = if v < 0 {
        1
    } else {
        0
    };
    assert forall|k: int| i <= k < s.len() implies is_digit(#[trigger] s[k]) by {
        assert(s[k] == decimal(n)[k - i]);
    }
    assert(s[i] == decimal(n)[0]);
    lemma_all_digits(s, i);
    lemma_skip_digits(s, i);
    if n == 0 {
        assert(decimal(n).len() == 1);
    }
    assert(number(s, 0) == Ok::<int, Fault>(s.len() as int));
    assert(s.subrange(0, s.len() as int) =~= s);
}

/// A truth value that is written is read as itself.
pub proof fn law_bool(v: bool, room: int)
    ensures
        is_value(bool_text(v), room),
        tree(bool_text(v), 0, room) == Json::Bool(v),
{
    reveal_with_fuel(word_end, 6);
}

/// `null` is read as itself.
pub proof fn law_null(room: int)
    ensures
        is_value(word_null(), room),
        tree(word_null(), 0, room) == Json::Null,
{
    reveal_with_fuel(word_end, 5);
}

/// Text that is written is read as itself.
pub proof fn law_string(b: Seq<u8>, room: int)
    requires
        valid_utf8(b),
    ensures
        is_value(seq![QUOTE] + escaped(b) + seq![QUOTE], room),
        tree(seq![QUOTE] + escaped(b) + seq![QUOTE], 0, room) == Json::Text(b),
{
    let s = seq![QUOTE] + escaped(b) + seq![QUOTE];
    assert(s.subrange(1, 1 + escaped(b).len() as int) =~= escaped(b));
    lemma_written_text(s, 1, b);
}

/// What was written at a place is what has to precede a value there, and the value `t`.
pub open spec fn written_at(j: (Seq<u8>, Place), p: Place, room: int, t: Json) -> bool {
    let n = separator(p).len() as int;
    &&& j.1 == after_value(p)
    &&& j.0.len() >= n
    &&& j.0.subrange(0, n) == separator(p)
    &&& is_value(j.0.skip(n), room)
    &&& tree(j.0.skip(n), 0, room) == t
}

/// A value is written as JSON for `t`, nested up to `room` levels deep, wherever it is written.
pub open spec fn writes<V: ToJson + ?Sized>(v: &V, room: int, t: Json) -> bool {
    forall|p: Place|
        p.depth + room <= u32::MAX ==> written_at(#[trigger] v.json(p), p, room, t)
}

pub(crate) proof fn lemma_writes(p: Place, w: Seq<u8>, room: int, t: Json)
    requires
        is_value(w, room),
        tree(w, 0, room) == t,
    ensures
        written_at((separator(p) + w, after_value(p)), p, room, t),
{
    let n = separator(p).len() as int;
    assert((separator(p) + w).subrange(0, n) =~= separator(p));
    assert((separator(p) + w).skip(n) =~= w);
}

/// A value that is encoded as JSON for `t`: by itself, and behind a key.
pub open spec fn encodes<V: ToJson + ?Sized>(v: &V, room: int, t: Json) -> bool {
    let w = v.json(after_key(compact())).0;
    &&& is_value(encoding(v), room)
    &&& tree(encoding(v), 0, room) == t
    &&& is_value(w, room)
    &&& tree(w, 0, room) == t
}

/// A value that is written as JSON wherever it is written is so in compact JSON.
pub proof fn law_encodes<V: ToJson + ?Sized>(v: &V, room: int, t: Json)
    requires
        writes(v, room, t),
        room <= u32::MAX,
    ensures
        encodes(v, room, t),
{
    let p = compact();
    let q = after_key(compact());
    assert(written_at(v.json(p), p, room, t));
    assert(written_at(v.json(q), q, room, t));
    assert(v.json(p).0.skip(0) =~= v.json(p).0);
    assert(v.json(q).0.skip(0) =~= v.json(q).0);
}

/// A value that is written as one text wherever it is written, but for what has to precede it
/// there, is written as JSON for what that text means.
pub proof fn law_writes_text<V: ToJson + ?Sized>(v: &V, w: Seq<u8>, room: int, t: Json)
    requires
        is_value(w, room),
        tree(w, 0, room) == t,
        forall|p: Place| #[trigger] v.json(p) == (separator(p) + w, after_value(p)),
    ensures
        writes(v, room, t),
{
    assert forall|p: Place| p.depth + room <= u32::MAX implies written_at(
        #[trigger] v.json(p),
        p,
        room,
        t,
    ) by {
        lemma_writes(p, w, room, t);
    }
}

/// Text is written as JSON.
pub proof fn law_writes_str(v: &str, room: int)
    ensures
        writes(v, room, Json::Text(v.spec_bytes())),
{
    let b = v.spec_bytes();
    encode_utf8_valid_utf8(v@);
    law_string(b, room);
    let w = seq![QUOTE] + escaped(b) + seq![QUOTE];
    assert forall|p: Place| #[trigger] v.json(p) == (separator(p) + w, after_value(p)) by {
        assert(separator(p) + seq![QUOTE] + escaped(b) + seq![QUOTE] =~= separator(p) + w);
    }
    law_writes_text(v, w, room, Json::Text(b));
}

/// Characters are written as JSON.
pub proof fn law_writes_char(v: char, room: int)
    ensures
        writes(&v, room, Json::Text(encode_scalar(v as u32))),
{
    let b = encode_scalar(v as u32);
    encode_utf8_valid_utf8(seq![v]);
    reveal_with_fuel(encode_utf8, 2);
    assert(seq![v].drop_first() =~= Seq::<char>::empty());
    assert(encode_utf8(seq![v]) =~= b);
    law_string(b, room);
    let w = seq![QUOTE] + escaped(b) + seq![QUOTE];
    assert forall|p: Place| #[trigger] (&v).json(p) == (separator(p) + w, after_value(p)) by {
        assert(separator(p) + seq![QUOTE] + escaped(b) + seq![QUOTE] =~= separator(p) + w);
    }
    law_writes_text(&v, w, room, Json::Text(b));
}

/// Truth values are written as JSON.
pub proof fn law_writes_bool(v: bool, room: int)
    ensures
        writes(&v, room, Json::Bool(v)),
{
    law_bool(v, room);
    law_writes_text(&v, bool_text(v), room, Json::Bool(v));
}

/// `()` is written as `null`.
pub proof fn law_writes_unit(room: int)
    ensures
        writes(&(), room, Json::Null),
{
    law_null(room);
    law_writes_text(&(), word_null(), room, Json::Null);
}

/// Integers of every type are written as JSON.
pub proof fn law_writes_integer(room: int)
    ensures
        forall|v: u8| #[trigger] writes(&v, room, Json::Number(integer_text(v as int))),
        forall|v: u16| #[trigger] writes(&v, room, Json::Number(integer_text(v as int))),
        forall|v: u32| #[trigger] writes(&v, room, Json::Number(integer_text(v as int))),
        forall|v: u64| #[trigger] writes(&v, room, Json::Number(integer_text(v as int))),
        forall|v: u128| #[trigger] writes(&v, room, Json::Number(integer_text(v as int))),
        forall|v: usize| #[trigger] writes(&v, room, Json::Number(integer_text(v as int))),
        forall|v: i8| #[trigger] writes(&v, room, Json::Number(integer_text(v as int))),
        forall|v: i16| #[trigger] writes(&v, room, Json::Number(integer_text(v as int))),
        forall|v: i32| #[trigger] writes(&v, room, Json::Number(integer_text(v as int))),
        forall|v: i64| #[trigger] writes(&v, room, Json::Number(integer_text(v as int))),
        forall|v: i128| #[trigger] writes(&v, room, Json::Number(integer_text(v as int))),
        forall|v: isize| #[trigger] writes(&v, room, Json::Number(integer_text(v as int))),
{
    assert forall|v: u8| #[trigger] writes(&v, room, Json::Number(integer_text(v as int))) by {
        law_integer(v as int, room);
        law_writes_text(&v, integer_text(v as int), room, Json::Number(integer_text(v as int)));
    }
    assert forall|v: u16| #[trigger] writes(&v, room, Json::Number(integer_text(v as int))) by {
        law_integer(v as int, room);
        law_writes_text(&v, integer_text(v as int), room, Json::Number(integer_text(v as int)));
    }
    assert forall|v: u32| #[trigger] writes(&v, room, Json::Number(integer_text(v as int))) by {
        law_integer(v as int, room);
        law_writes_text(&v, integer_text(v as int), room, Json::Number(integer_text(v as int)));
    }
    assert forall|v: u64| #[trigger] writes(&v, room, Json::Number(integer_text(v as int))) by {
        law_integer(v as int, room);
        law_writes_text(&v, integer_text(v as int), room, Json::Number(integer_text(v as int)));
    }
    assert forall|v: u128| #[trigger] writes(&v, room, Json::Number(integer_text(v as int))) by {
        law_integer(v as int, room);
        law_writes_text(&v, integer_text(v as int), room, Json::Number(integer_text(v as int)));
    }
    assert forall|v: usize| #[trigger] writes(&v, room, Json::Number(integer_text(v as int))) by {
        law_integer(v as int, room);
        law_writes_text(&v, integer_text(v as int), room, Json::Number(integer_text(v as int)));
    }
    assert forall|v: i8| #[trigger] writes(&v, room, Json::Number(integer_text(v as int))) by {
        law_integer(v as int, room);
        law_writes_text(&v, integer_text(v as int), room, Json::Number(integer_text(v as int)));
    }
    assert forall|v: i16| #[trigger] writes(&v, room, Json::Number(integer_text(v as int))) by {
        law_integer(v as int, room);
        law_writes_text(&v, integer_text(v as int), room, Json::Number(integer_text(v as int)));
    }
    assert forall|v: i32| #[trigger] writes(&v, room, Json::Number(integer_text(v as int))) by {
        law_integer(v as int, room);
        law_writes_text(&v, integer_text(v as int), room, Json::Number(integer_text(v as int)));
    }
    assert forall|v: i64| #[trigger] writes(&v, room, Json::Number(integer_text(v as int))) by {
        law_integer(v as int, room);
        law_writes_text(&v, integer_text(v as int), room, Json::Number(integer_text(v as int)));
    }
    assert forall|v: i128| #[trigger] writes(&v, room, Json::Number(integer_text(v as int))) by {
        law_integer(v as int, room);
        law_writes_text(&v, integer_text(v as int), room, Json::Number(integer_text(v as int)));
    }
    assert forall|v: isize| #[trigger] writes(&v, room, Json::Number(integer_text(v as int))) by {
        law_integer(v as int, room);
        law_writes_text(&v, integer_text(v as int), room, Json::Number(integer_text(v as int)));
    }
}

/// An optional value is written as JSON: as the value, or as `null`.
pub proof fn law_writes_option<T: ToJson>(v: Option<T>, room: int, t: Json)
    requires
        v matches Some(x) ==> writes(&x, room, t),
        v is None ==> t == Json::Null,
    ensures
        writes(&v, room, t),
{
    match v {
        Some(x) => {
            assert forall|p: Place| p.depth + room <= u32::MAX implies written_at(
                #[trigger] (&v).json(p),
                p,
                room,
                t,
            ) by {
                assert((&v).json(p) == (&x).json(p));
            }
        },
        None => {
            law_null(room);
            law_writes_text(&v, word_null(), room, t);
        },
    }
}

/// A reference is written as what it refers to.
pub proof fn law_writes_ref<T: ToJson + ?Sized>(v: &T, room: int, t: Json)
    requires
        writes(v, room, t),
    ensures
        writes(&v, room, t),
{
    assert forall|p: Place| p.depth + room <= u32::MAX implies written_at(
        #[trigger] (&v).json(p),
        p,
        room,
        t,
    ) by {
        assert((&v).json(p) == v.json(p));
    }
}

/// Text that is JSON already is written as it is.
pub proof fn law_writes_raw(v: RawJson<'_>, room: int)
    requires
        is_value(v.0.spec_bytes(), room),
    ensures
        writes(&v, room, tree(v.0.spec_bytes(), 0, room)),
{
    law_writes_text(&v, v.0.spec_bytes(), room, tree(v.0.spec_bytes(), 0, room));
}

/// A line break is white space.
proof fn lemma_newline(p: Place)
    ensures
        forall|i: int| 0 <= i < newline(p).len() ==> is_space(#[trigger] newline(p)[i]),
{
}

/// White space that stands in a text, in front of something else.
proof fn lemma_space_stands(t: Seq<u8>, i: int, w: Seq<u8>)
    requires
        stands(t, i, w),
        forall|k: int| 0 <= k < w.len() ==> is_space(#[trigger] w[k]),
        i + w.len() < t.len() ==> !is_space(t[i + w.len()]),
    ensures
        skip_space(t, i) == i + w.len(),
{
    assert forall|x: int| i <= x < i + w.len() implies is_space(#[trigger] t[x]) by {
        assert(t.subrange(i, i + w.len())[x - i] == w[x - i]);
    }
    lemma_skip_run(t, i, i + w.len());
}

/// The parts of what stands in a text stand in it.
pub(crate) proof fn lemma_stands_parts(t: Seq<u8>, i: int, a: Seq<u8>, b: Seq<u8>)
    requires
        stands(t, i, a + b),
    ensures
        stands(t, i, a),
        stands(t, i + a.len(), b),
        a.len() > 0 ==> t[i] == a[0],
        b.len() > 0 ==> t[i + a.len()] == b[0],
{
    let sub = t.subrange(i, i + (a + b).len());
    assert(sub.subrange(0, a.len() as int) =~= a);
    assert(t.subrange(i, i + a.len()) =~= sub.subrange(0, a.len() as int));
    assert(sub.skip(a.len() as int) =~= b);
    assert(t.subrange(i + a.len(), i + a.len() + b.len()) =~= sub.skip(a.len() as int));
    if a.len() > 0 {
        assert(t.subrange(i, i + a.len())[0] == t[i]);
    }
    if b.len() > 0 {
        assert(t.subrange(i + a.len(), i + a.len() + b.len())[0] == t[i + a.len()]);
    }
}

/// Where an item of an array may follow, its separator is passed over.
proof fn lemma_reads_separator(t: Seq<u8>, i: int, p: Place, first: bool)
    requires
        stands(t, i, separator(p)),
        p.depth > 0,
        p.pos == (if first {
            Pos::Start
        } else {
            Pos::AfterValue
        }),
        i + separator(p).len() < t.len(),
        value_token(t[i + separator(p).len()]) is Some,
    ensures
        next_token(
            t,
            i,
            if first {
                State::ArrFirst
            } else {
                State::ArrComma
            },
            false,
        ) == Ok::<Met, Fault>(
            Met {
                token: value_token(t[i + separator(p).len()])->Some_0,
                at: i + separator(p).len(),
                state: if first {
                    State::ArrFirst
                } else {
                    State::ArrValue
                },
            },
        ),
{
    lemma_newline(p);
    if first {
        lemma_space_stands(t, i, newline(p));
    } else {
        lemma_stands_parts(t, i, seq![COMMA], newline(p));
        lemma_space_stands(t, i + 1, newline(p));
        assert(skip_space(t, i) == i);
    }
    let k = i + separator(p).len();
    assert(skip_space(t, k) == k);
}

/// The elements of an array, as they are read.
pub open spec fn elements(ts: Seq<Json>) -> Seq<Item> {
    Seq::new(ts.len(), |i: int| Item { name: Seq::empty(), value: ts[i] })
}

/// The place in front of the item number `k`.
spec fn item_place(q: Place, k: int) -> Place {
    if k == 0 {
        q
    } else {
        after_value(q)
    }
}

/// The text of the first `k` elements.
spec fn front<T: ToJson>(s: Seq<T>, k: int, q: Place) -> (Seq<u8>, Place) {
    elements_json(s.subrange(0, k), q)
}

/// The text of one more element.
proof fn lemma_front<T: ToJson>(s: Seq<T>, k: int, q: Place, room: int, ts: Seq<Json>)
    requires
        0 <= k <= s.len() == ts.len(),
        q.depth + room <= u32::MAX,
        forall|i: int| 0 <= i < s.len() ==> #[trigger] writes(&s[i], room, ts[i]),
    ensures
        front(s, k, q).1 == item_place(q, k),
        k < s.len() ==> {
            let j = s[k].json(item_place(q, k));
            &&& front(s, k + 1, q).0 == front(s, k, q).0 + j.0
            &&& written_at(j, item_place(q, k), room, ts[k])
        },
    decreases k,
{
    if k > 0 {
        lemma_front(s, k - 1, q, room, ts);
        let now = s.subrange(0, k);
        assert(now.drop_last() =~= s.subrange(0, k - 1));
        assert(now.last() == s[k - 1]);
    }
    if k < s.len() {
        let next = s.subrange(0, k + 1);
        assert(next.drop_last() =~= s.subrange(0, k));
        assert(next.last() == s[k]);
        assert(writes(&s[k], room, ts[k]));
    }
}

/// The text of all elements starts with that of the first.
proof fn lemma_front_prefix<T: ToJson>(s: Seq<T>, k: int, q: Place, room: int, ts: Seq<Json>)
    requires
        0 <= k <= s.len() == ts.len(),
        q.depth + room <= u32::MAX,
        forall|i: int| 0 <= i < s.len() ==> #[trigger] writes(&s[i], room, ts[i]),
    ensures
        ({
            let all = front(s, s.len() as int, q).0;
            let a = front(s, k, q).0;
            &&& a.len() <= all.len()
            &&& all == a + all.skip(a.len() as int)
        }),
    decreases s.len() - k,
{
    let all = front(s, s.len() as int, q).0;
    let a = front(s, k, q).0;
    if k == s.len() {
        assert(all =~= a + all.skip(a.len() as int));
    } else {
        lemma_front(s, k, q, room, ts);
        lemma_front_prefix(s, k + 1, q, room, ts);
        let b = front(s, k + 1, q).0;
        assert(all =~= a + all.skip(a.len() as int)) by {
            assert(b.subrange(0, a.len() as int) =~= a);
            assert((b + all.skip(b.len() as int)).subrange(0, a.len() as int) =~= a);
        }
    }
}

/// An element that stands behind its separator is read.
pub(crate) proof fn lemma_reads_element(
    t: Seq<u8>,
    x: int,
    p: Place,
    first: bool,
    w: Seq<u8>,
    room: int,
    end: int,
    more: Seq<Item>,
)
    requires
        p.depth > 0,
        p.pos == (if first {
            Pos::Start
        } else {
            Pos::AfterValue
        }),
        stands(t, x, separator(p)),
        stands(t, x + separator(p).len(), w),
        ends(t, x + separator(p).len() + w.len()),
        is_value(w, room),
        left(t, x + separator(p).len() + w.len(), State::ArrComma, room) == (
            Ok::<int, Fault>(end),
            more,
        ),
    ensures
        left(
            t,
            x,
            if first {
                State::ArrFirst
            } else {
                State::ArrComma
            },
            room,
        ) == (
            Ok::<int, Fault>(end),
            seq![Item { name: Seq::empty(), value: tree(w, 0, room) }] + more,
        ),
{
    let n = separator(p).len() as int;
    lemma_embedded(w, t, x + n, room);
    lemma_reads_separator(t, x, p, first);
    reveal(left);
    let state = if first {
        State::ArrFirst
    } else {
        State::ArrComma
    };
    lemma_join_value(t, x, state, room, Seq::empty(), x + n + w.len());
}

/// Where the element number `k` stands.
proof fn lemma_element_stands<T: ToJson>(
    t: Seq<u8>,
    base: int,
    s: Seq<T>,
    ts: Seq<Json>,
    q: Place,
    room: int,
    k: int,
)
    requires
        0 <= k < s.len() == ts.len(),
        q.depth + room <= u32::MAX,
        forall|i: int| 0 <= i < s.len() ==> #[trigger] writes(&s[i], room, ts[i]),
        stands(t, base, front(s, s.len() as int, q).0),
    ensures
        ({
            let p = item_place(q, k);
            let n = separator(p).len() as int;
            let x = base + front(s, k, q).0.len();
            let w = s[k].json(p).0.skip(n);
            &&& stands(t, x, separator(p))
            &&& stands(t, x + n, w)
            &&& base + front(s, k + 1, q).0.len() == x + n + w.len()
            &&& is_value(w, room)
            &&& tree(w, 0, room) == ts[k]
        }),
{
    let all = front(s, s.len() as int, q).0;
    let a = front(s, k, q).0;
    let b = front(s, k + 1, q).0;
    let p = item_place(q, k);
    let j = s[k].json(p).0;
    let n = separator(p).len() as int;
    let w = j.skip(n);
    lemma_front(s, k, q, room, ts);
    lemma_front_prefix(s, k + 1, q, room, ts);
    lemma_stands_parts(t, base, b, all.skip(b.len() as int));
    lemma_stands_parts(t, base, a, j);
    assert(j =~= separator(p) + w);
    lemma_stands_parts(t, base + a.len(), separator(p), w);
}

/// The elements from number `k` on are read, if they stand in front of the end of the array.
proof fn lemma_reads_elements<T: ToJson>(
    t: Seq<u8>,
    base: int,
    s: Seq<T>,
    ts: Seq<Json>,
    q: Place,
    room: int,
    k: int,
    end: int,
)
    requires
        0 <= k <= s.len() == ts.len(),
        q.depth + room <= u32::MAX,
        q.depth > 0,
        q.pos == Pos::Start,
        forall|i: int| 0 <= i < s.len() ==> #[trigger] writes(&s[i], room, ts[i]),
        stands(t, base, front(s, s.len() as int, q).0),
        left(
            t,
            base + front(s, s.len() as int, q).0.len(),
            if s.len() == 0 {
                State::ArrFirst
            } else {
                State::ArrComma
            },
            room,
        ) == (Ok::<int, Fault>(end), Seq::<Item>::empty()),
        s.len() > 0 ==> ends(t, base + front(s, s.len() as int, q).0.len()),
    ensures
        left(
            t,
            base + front(s, k, q).0.len(),
            if k == 0 {
                State::ArrFirst
            } else {
                State::ArrComma
            },
            room,
        ) == (Ok::<int, Fault>(end), elements(ts.skip(k))),
    decreases s.len() - k,
{
    if k == s.len() {
        assert(elements(ts.skip(k)) =~= Seq::<Item>::empty());
    } else {
        let p = item_place(q, k);
        let n = separator(p).len() as int;
        let x = base + front(s, k, q).0.len();
        let w = s[k].json(p).0.skip(n);
        lemma_element_stands(t, base, s, ts, q, room, k);
        if k + 1 < s.len() {
            lemma_element_stands(t, base, s, ts, q, room, k + 1);
            let p2 = item_place(q, k + 1);
            let y = base + front(s, k + 1, q).0.len();
            assert(separator(p2)[0] == COMMA);
            assert(t.subrange(y, y + separator(p2).len())[0] == t[y]);
        }
        lemma_reads_elements(t, base, s, ts, q, room, k + 1, end);
        lemma_reads_element(t, x, p, k == 0, w, room, end, elements(ts.skip(k + 1)));
        let item = Item { name: Seq::empty(), value: ts[k] };
        assert(elements(ts.skip(k)) =~= seq![item] + elements(ts.skip(k + 1)));
    }
}

/// The end of an array that stands in a text is read.
pub(crate) proof fn lemma_reads_end(t: Seq<u8>, i: int, p: Place, room: int)
    requires
        stands(t, i, close_text(p, BRACKET_CLOSE)),
        p.pos == Pos::Start || p.pos == Pos::AfterValue,
    ensures
        left(
            t,
            i,
            if p.pos == Pos::Start {
                State::ArrFirst
            } else {
                State::ArrComma
            },
            room,
        ) == (
            Ok::<int, Fault>(i + close_text(p, BRACKET_CLOSE).len()),
            Seq::<Item>::empty(),
        ),
        ends(t, i),
{
    let w = if p.pos != Pos::Start {
        newline(outside(p))
    } else {
        Seq::empty()
    };
    let state = if p.pos == Pos::Start {
        State::ArrFirst
    } else {
        State::ArrComma
    };
    reveal(left);
    lemma_newline(outside(p));
    assert(close_text(p, BRACKET_CLOSE) == w + seq![BRACKET_CLOSE]);
    lemma_stands_parts(t, i, w, seq![BRACKET_CLOSE]);
    lemma_space_stands(t, i, w);
    let z = i + w.len();
    assert(next_token(t, i, state, false) == Ok::<Met, Fault>(
        Met { token: Token::EndArray, at: z, state },
    ));
    if w.len() > 0 {
        assert(is_space(w[0]));
    }
}

/// An array whose text is read to its end.
pub(crate) proof fn lemma_array_whole(w: Seq<u8>, room: int, its: Seq<Item>)
    requires
        w.len() > 0,
        w[0] == BRACKET_OPEN,
        0 <= room,
        left(w, 1, State::ArrFirst, room) == (Ok::<int, Fault>(w.len() as int), its),
    ensures
        is_value(w, room + 1),
        tree(w, 0, room + 1) == Json::Array(its),
{
    reveal(left);
}

/// The elements of an array, each written as JSON, are written as an array.
proof fn lemma_array_json<T: ToJson>(s: Seq<T>, ts: Seq<Json>, room: int, p: Place)
    requires
        s.len() == ts.len(),
        0 <= room,
        forall|i: int| 0 <= i < s.len() ==> #[trigger] writes(&s[i], room, ts[i]),
        p.depth + room + 1 <= u32::MAX,
    ensures
        written_at(array_json(s, p), p, room + 1, Json::Array(elements(ts))),
{
    let q = inside(p);
    let all = front(s, s.len() as int, q);
    assert(s.subrange(0, s.len() as int) =~= s);
    assert(s.subrange(0, 0) =~= Seq::<T>::empty());
    lemma_front(s, s.len() as int, q, room, ts);
    let close = close_text(all.1, BRACKET_CLOSE);
    let w = seq![BRACKET_OPEN] + all.0 + close;
    assert(w.subrange(1, 1 + all.0.len() as int) =~= all.0);
    assert(w.subrange(1 + all.0.len() as int, w.len() as int) =~= close);
    lemma_reads_end(w, 1 + all.0.len() as int, all.1, room);
    lemma_reads_elements(w, 1, s, ts, q, room, 0, w.len() as int);
    assert(front(s, 0, q).0 =~= Seq::<u8>::empty());
    assert(ts.skip(0) =~= ts);
    lemma_array_whole(w, room, elements(ts));
    lemma_writes(p, w, room + 1, Json::Array(elements(ts)));
    assert(array_json(s, p).0 =~= separator(p) + w);
    assert(array_json(s, p).1 == after_value(p));
}

/// A slice of values that are written as JSON is written as JSON, compact or indented.
pub proof fn law_writes_slice<T: ToJson>(v: &[T], ts: Seq<Json>, room: int)
    requires
        v@.len() == ts.len(),
        0 <= room,
        forall|i: int| 0 <= i < v@.len() ==> #[trigger] writes(&v@[i], room, ts[i]),
    ensures
        writes(v, room + 1, Json::Array(elements(ts))),
{
    assert forall|p: Place| p.depth + room + 1 <= u32::MAX implies written_at(
        #[trigger] v.json(p),
        p,
        room + 1,
        Json::Array(elements(ts)),
    ) by {
        lemma_array_json(v@, ts, room, p);
    }
}

/// An array of values that are written as JSON is written as JSON, compact or indented.
pub proof fn law_writes_array<T: ToJson, const M: usize>(v: &[T; M], ts: Seq<Json>, room: int)
    requires
        v@.len() == ts.len(),
        0 <= room,
        forall|i: int| 0 <= i < v@.len() ==> #[trigger] writes(&v@[i], room, ts[i]),
    ensures
        writes(v, room + 1, Json::Array(elements(ts))),
{
    assert forall|p: Place| p.depth + room + 1 <= u32::MAX implies written_at(
        #[trigger] v.json(p),
        p,
        room + 1,
        Json::Array(elements(ts)),
    ) by {
        lemma_array_json(v@, ts, room, p);
    }
}

/// Where a member of an object may follow, its separator is passed over.
proof fn lemma_reads_key_separator(t: Seq<u8>, i: int, p: Place, first: bool)
    requires
        stands(t, i, separator(p)),
        p.depth > 0,
        p.pos == (if first {
            Pos::Start
        } else {
            Pos::AfterValue
        }),
        i + separator(p).len() < t.len(),
        t[i + separator(p).len()] == QUOTE,
    ensures
        next_token(
            t,
            i,
            if first {
                State::ObjFirst
            } else {
                State::ObjComma
            },
            false,
        ) == Ok::<Met, Fault>(
            Met {
                token: Token::Key,
                at: i + separator(p).len(),
                state: if first {
                    State::ObjFirst
                } else {
                    State::ObjKey
                },
            },
        ),
{
    lemma_newline(p);
    if first {
        lemma_space_stands(t, i, newline(p));
    } else {
        lemma_stands_parts(t, i, seq![COMMA], newline(p));
        lemma_space_stands(t, i + 1, newline(p));
        assert(skip_space(t, i) == i);
    }
    let k = i + separator(p).len();
    assert(skip_space(t, k) == k);
}

/// The text of a member behind its separator.
pub(crate) open(crate) spec fn member_text(p: Place, name: Seq<u8>, w: Seq<u8>) -> Seq<u8> {
    seq![QUOTE] + escaped(name) + key_end(p) + w
}

/// A member that stands behind its separator is read.
pub(crate) proof fn lemma_reads_member(
    t: Seq<u8>,
    x: int,
    p: Place,
    first: bool,
    name: Seq<u8>,
    w: Seq<u8>,
    room: int,
    end: int,
    more: Seq<Item>,
)
    requires
        p.depth > 0,
        p.pos == (if first {
            Pos::Start
        } else {
            Pos::AfterValue
        }),
        stands(t, x, separator(p)),
        stands(t, x + separator(p).len(), member_text(p, name, w)),
        ends(t, x + separator(p).len() + member_text(p, name, w).len()),
        valid_utf8(name),
        is_value(w, room),
        left(
            t,
            x + separator(p).len() + member_text(p, name, w).len(),
            State::ObjComma,
            room,
        ) == (Ok::<int, Fault>(end), more),
    ensures
        left(
            t,
            x,
            if first {
                State::ObjFirst
            } else {
                State::ObjComma
            },
            room,
        ) == (
            Ok::<int, Fault>(end),
            seq![Item { name, value: tree(w, 0, room) }] + more,
        ),
{
    let y = x + separator(p).len();
    let esc = escaped(name);
    lemma_stands_parts(t, y, seq![QUOTE] + esc + key_end(p), w);
    lemma_stands_parts(t, y, seq![QUOTE] + esc, key_end(p));
    lemma_stands_parts(t, y, seq![QUOTE], esc);
    let z = y + 1 + esc.len();
    assert(t.subrange(z, z + key_end(p).len())[1] == t[z + 1]);
    lemma_reads_key_separator(t, x, p, first);
    lemma_written_text(t, y + 1, name);
    let k = z + 1;
    let at = z + key_end(p).len();
    lemma_embedded(w, t, at, room);
    assert(skip_space(t, k) == k);
    assert(skip_space(t, at) == at);
    assert(skip_space(t, k + 1) == at) by {
        if p.indent > 0 {
            assert(t.subrange(z, z + key_end(p).len())[2] == t[z + 2]);
        }
    }
    assert(next_token(t, k, State::ObjColon, false) == Ok::<Met, Fault>(
        Met { token: value_token(t[at])->Some_0, at, state: State::ObjValue },
    ));
    let state = if first {
        State::ObjFirst
    } else {
        State::ObjComma
    };
    reveal(left);
    lemma_join_key(t, x, state, room, Seq::empty(), k, name);
    lemma_join_value(t, k, State::ObjColon, room, name, at + w.len());
}

/// The members of an object, as they are read.
pub open spec fn members<T>(s: Seq<(&str, T)>, ts: Seq<Json>) -> Seq<Item> {
    Seq::new(ts.len(), |i: int| Item { name: s[i].0.spec_bytes(), value: ts[i] })
}

/// The text of the first `k` members.
spec fn member_front<T: ToJson>(s: Seq<(&str, T)>, k: int, q: Place) -> (Seq<u8>, Place) {
    members_json(s.subrange(0, k), q)
}

/// A value behind a key.
proof fn lemma_after_key<V: ToJson + ?Sized>(v: &V, p: Place, room: int, t: Json)
    requires
        writes(v, room, t),
        p.depth + room <= u32::MAX,
    ensures
        ({
            let j = v.json(after_key(p));
            &&& j.1 == after_value(p)
            &&& is_value(j.0, room)
            &&& tree(j.0, 0, room) == t
        }),
{
    let j = v.json(after_key(p));
    assert(written_at(j, after_key(p), room, t));
    assert(j.0.skip(0) =~= j.0);
}

/// The place in front of the member number `k`.
proof fn lemma_member_place<T: ToJson>(
    s: Seq<(&str, T)>,
    k: int,
    q: Place,
    room: int,
    ts: Seq<Json>,
)
    requires
        0 <= k <= s.len() == ts.len(),
        q.depth + room <= u32::MAX,
        forall|i: int| 0 <= i < s.len() ==> #[trigger] writes(&s[i].1, room, ts[i]),
    ensures
        member_front(s, k, q).1 == item_place(q, k),
    decreases k,
{
    if k > 0 {
        lemma_member_place(s, k - 1, q, room, ts);
        let now = s.subrange(0, k);
        assert(now.drop_last() =~= s.subrange(0, k - 1));
        assert(now.last() == s[k - 1]);
        lemma_after_key(&s[k - 1].1, item_place(q, k - 1), room, ts[k - 1]);
    }
}

/// The text of one more member.
proof fn lemma_member_front<T: ToJson>(
    s: Seq<(&str, T)>,
    k: int,
    q: Place,
    room: int,
    ts: Seq<Json>,
)
    requires
        0 <= k < s.len() == ts.len(),
        q.depth + room <= u32::MAX,
        forall|i: int| 0 <= i < s.len() ==> #[trigger] writes(&s[i].1, room, ts[i]),
    ensures
        ({
            let p = item_place(q, k);
            let w = s[k].1.json(after_key(p)).0;
            &&& member_front(s, k + 1, q).0 == member_front(s, k, q).0 + (separator(p)
                + member_text(p, s[k].0.spec_bytes(), w))
            &&& is_value(w, room)
            &&& tree(w, 0, room) == ts[k]
        }),
{
    lemma_member_place(s, k, q, room, ts);
    let next = s.subrange(0, k + 1);
    assert(next.drop_last() =~= s.subrange(0, k));
    assert(next.last() == s[k]);
    let p = item_place(q, k);
    let w = s[k].1.json(after_key(p)).0;
    lemma_after_key(&s[k].1, p, room, ts[k]);
    assert(key_text(p, s[k].0.spec_bytes()) + w =~= separator(p) + member_text(
        p,
        s[k].0.spec_bytes(),
        w,
    ));
}

/// The text of all members starts with that of the first.
proof fn lemma_member_front_prefix<T: ToJson>(
    s: Seq<(&str, T)>,
    k: int,
    q: Place,
    room: int,
    ts: Seq<Json>,
)
    requires
        0 <= k <= s.len() == ts.len(),
        q.depth + room <= u32::MAX,
        forall|i: int| 0 <= i < s.len() ==> #[trigger] writes(&s[i].1, room, ts[i]),
    ensures
        ({
            let all = member_front(s, s.len() as int, q).0;
            let a = member_front(s, k, q).0;
            &&& a.len() <= all.len()
            &&& all == a + all.skip(a.len() as int)
        }),
    decreases s.len() - k,
{
    let all = member_front(s, s.len() as int, q).0;
    let a = member_front(s, k, q).0;
    if k == s.len() {
        assert(all =~= a + all.skip(a.len() as int));
    } else {
        lemma_member_front(s, k, q, room, ts);
        lemma_member_front_prefix(s, k + 1, q, room, ts);
        let b = member_front(s, k + 1, q).0;
        assert(all =~= a + all.skip(a.len() as int)) by {
            assert(b.subrange(0, a.len() as int) =~= a);
            assert((b + all.skip(b.len() as int)).subrange(0, a.len() as int) =~= a);
        }
    }
}

/// Where the member number `k` stands.
proof fn lemma_member_stands<T: ToJson>(
    t: Seq<u8>,
    base: int,
    s: Seq<(&str, T)>,
    ts: Seq<Json>,
    q: Place,
    room: int,
    k: int,
)
    requires
        0 <= k < s.len() == ts.len(),
        q.depth + room <= u32::MAX,
        forall|i: int| 0 <= i < s.len() ==> #[trigger] writes(&s[i].1, room, ts[i]),
        stands(t, base, member_front(s, s.len() as int, q).0),
    ensures
        ({
            let p = item_place(q, k);
            let n = separator(p).len() as int;
            let x = base + member_front(s, k, q).0.len();
            let w = s[k].1.json(after_key(p)).0;
            let m = member_text(p, s[k].0.spec_bytes(), w);
            &&& stands(t, x, separator(p))
            &&& stands(t, x + n, m)
            &&& base + member_front(s, k + 1, q).0.len() == x + n + m.len()
            &&& is_value(w, room)
            &&& tree(w, 0, room) == ts[k]
        }),
{
    let all = member_front(s, s.len() as int, q).0;
    let a = member_front(s, k, q).0;
    let b = member_front(s, k + 1, q).0;
    let p = item_place(q, k);
    let w = s[k].1.json(after_key(p)).0;
    let m = member_text(p, s[k].0.spec_bytes(), w);
    lemma_member_front(s, k, q, room, ts);
    lemma_member_front_prefix(s, k + 1, q, room, ts);
    lemma_stands_parts(t, base, b, all.skip(b.len() as int));
    lemma_stands_parts(t, base, a, separator(p) + m);
    lemma_stands_parts(t, base + a.len(), separator(p), m);
}

/// The members from number `k` on are read, if they stand in front of the end of the object.
proof fn lemma_reads_members<T: ToJson>(
    t: Seq<u8>,
    base: int,
    s: Seq<(&str, T)>,
    ts: Seq<Json>,
    q: Place,
    room: int,
    k: int,
    end: int,
)
    requires
        0 <= k <= s.len() == ts.len(),
        q.depth + room <= u32::MAX,
        q.depth > 0,
        q.pos == Pos::Start,
        forall|i: int| 0 <= i < s.len() ==> #[trigger] writes(&s[i].1, room, ts[i]),
        stands(t, base, member_front(s, s.len() as int, q).0),
        left(
            t,
            base + member_front(s, s.len() as int, q).0.len(),
            if s.len() == 0 {
                State::ObjFirst
            } else {
                State::ObjComma
            },
            room,
        ) == (Ok::<int, Fault>(end), Seq::<Item>::empty()),
        s.len() > 0 ==> ends(t, base + member_front(s, s.len() as int, q).0.len()),
    ensures
        left(
            t,
            base + member_front(s, k, q).0.len(),
            if k == 0 {
                State::ObjFirst
            } else {
                State::ObjComma
            },
            room,
        ) == (Ok::<int, Fault>(end), members(s, ts).skip(k)),
    decreases s.len() - k,
{
    if k == s.len() {
        assert(members(s, ts).skip(k) =~= Seq::<Item>::empty());
    } else {
        let p = item_place(q, k);
        let x = base + member_front(s, k, q).0.len();
        let name = s[k].0.spec_bytes();
        let w = s[k].1.json(after_key(p)).0;
        encode_utf8_valid_utf8(s[k].0@);
        lemma_member_stands(t, base, s, ts, q, room, k);
        if k + 1 < s.len() {
            lemma_member_stands(t, base, s, ts, q, room, k + 1);
            let p2 = item_place(q, k + 1);
            let y = base + member_front(s, k + 1, q).0.len();
            assert(separator(p2)[0] == COMMA);
            assert(t.subrange(y, y + separator(p2).len())[0] == t[y]);
        }
        lemma_reads_members(t, base, s, ts, q, room, k + 1, end);
        lemma_reads_member(t, x, p, k == 0, name, w, room, end, members(s, ts).skip(k + 1));
        let item = Item { name, value: ts[k] };
        assert(members(s, ts).skip(k) =~= seq![item] + members(s, ts).skip(k + 1));
    }
}

/// The end of an object that stands in a text is read.
pub(crate) proof fn lemma_reads_object_end(t: Seq<u8>, i: int, p: Place, room: int)
    requires
        stands(t, i, close_text(p, BRACE_CLOSE)),
        p.pos == Pos::Start || p.pos == Pos::AfterValue,
    ensures
        left(
            t,
            i,
            if p.pos == Pos::Start {
                State::ObjFirst
            } else {
                State::ObjComma
            },
            room,
        ) == (Ok::<int, Fault>(i + close_text(p, BRACE_CLOSE).len()), Seq::<Item>::empty()),
        ends(t, i),
{
    let w = if p.pos != Pos::Start {
        newline(outside(p))
    } else {
        Seq::empty()
    };
    let state = if p.pos == Pos::Start {
        State::ObjFirst
    } else {
        State::ObjComma
    };
    reveal(left);
    lemma_newline(outside(p));
    assert(close_text(p, BRACE_CLOSE) == w + seq![BRACE_CLOSE]);
    lemma_stands_parts(t, i, w, seq![BRACE_CLOSE]);
    lemma_space_stands(t, i, w);
    let z = i + w.len();
    assert(next_token(t, i, state, false) == Ok::<Met, Fault>(
        Met { token: Token::EndObject, at: z, state },
    ));
    if w.len() > 0 {
        assert(is_space(w[0]));
    }
}

/// An object whose text is read to its end.
pub(crate) proof fn lemma_object_whole(w: Seq<u8>, room: int, its: Seq<Item>)
    requires
        w.len() > 0,
        w[0] == BRACE_OPEN,
        0 <= room,
        left(w, 1, State::ObjFirst, room) == (Ok::<int, Fault>(w.len() as int), its),
    ensures
        is_value(w, room + 1),
        tree(w, 0, room + 1) == Json::Object(its),
{
    reveal(left);
}

/// The members of an object, each written as JSON, are written as an object.
proof fn lemma_object_json<T: ToJson>(s: Seq<(&str, T)>, ts: Seq<Json>, room: int, p: Place)
    requires
        s.len() == ts.len(),
        0 <= room,
        forall|i: int| 0 <= i < s.len() ==> #[trigger] writes(&s[i].1, room, ts[i]),
        p.depth + room + 1 <= u32::MAX,
    ensures
        written_at(object_json(s, p), p, room + 1, Json::Object(members(s, ts))),
{
    let q = inside(p);
    let all = member_front(s, s.len() as int, q);
    assert(s.subrange(0, s.len() as int) =~= s);
    assert(s.subrange(0, 0) =~= Seq::<(&str, T)>::empty());
    lemma_member_place(s, s.len() as int, q, room, ts);
    let close = close_text(all.1, BRACE_CLOSE);
    let w = seq![BRACE_OPEN] + all.0 + close;
    assert(w.subrange(1, 1 + all.0.len() as int) =~= all.0);
    assert(w.subrange(1 + all.0.len() as int, w.len() as int) =~= close);
    lemma_reads_object_end(w, 1 + all.0.len() as int, all.1, room);
    lemma_reads_members(w, 1, s, ts, q, room, 0, w.len() as int);
    assert(member_front(s, 0, q).0 =~= Seq::<u8>::empty());
    assert(members(s, ts).skip(0) =~= members(s, ts));
    lemma_object_whole(w, room, members(s, ts));
    lemma_writes(p, w, room + 1, Json::Object(members(s, ts)));
    assert(object_json(s, p).0 =~= separator(p) + w);
    assert(object_json(s, p).1 == after_value(p));
}

/// An object of values that are written as JSON is written as JSON, compact or indented, with its
/// names.
pub proof fn law_writes_object<'a, T: ToJson>(v: Object<'a, T>, ts: Seq<Json>, room: int)
    requires
        v.0@.len() == ts.len(),
        0 <= room,
        forall|i: int| 0 <= i < v.0@.len() ==> #[trigger] writes(&v.0@[i].1, room, ts[i]),
    ensures
        writes(&v, room + 1, Json::Object(members(v.0@, ts))),
{
    assert forall|p: Place| p.depth + room + 1 <= u32::MAX implies written_at(
        #[trigger] (&v).json(p),
        p,
        room + 1,
        Json::Object(members(v.0@, ts)),
    ) by {
        lemma_object_json(v.0@, ts, room, p);
    }
}

/// How long the encodings of values are, all in all.
pub open spec fn total_len<T: ToJson>(s: Seq<T>) -> nat
    decreases s.len(),
{
    if s.len() == 0 {
        0
    } else {
        total_len(s.drop_last()) + encoding(&s.last()).len()
    }
}

/// A value that is written, anywhere in compact JSON where `room` more levels can be counted, as it
/// is by itself, but for what has to precede it.
pub open spec fn steady<V: ToJson + ?Sized>(v: &V, room: int) -> bool {
    forall|q: Place|
        q.indent == 0 && q.depth + room <= u32::MAX ==> #[trigger] v.json(q) == (
            separator(q) + encoding(v),
            after_value(q),
        )
}

/// A value that is written as one text wherever it is written, but for what has to precede it
/// there, is written so in compact JSON.
pub proof fn law_steady_text<V: ToJson + ?Sized>(v: &V, w: Seq<u8>, room: int)
    requires
        forall|p: Place| #[trigger] v.json(p) == (separator(p) + w, after_value(p)),
    ensures
        steady(v, room),
        encoding(v) == w,
{
    assert(separator(compact()) + w =~= w);
    assert(v.json(compact()) == (separator(compact()) + w, after_value(compact())));
}

/// Text is written the same everywhere.
pub proof fn law_steady_str(v: &str, room: int)
    ensures
        steady(v, room),
{
    let b = v.spec_bytes();
    let w = seq![QUOTE] + escaped(b) + seq![QUOTE];
    assert forall|p: Place| #[trigger] v.json(p) == (separator(p) + w, after_value(p)) by {
        assert(separator(p) + seq![QUOTE] + escaped(b) + seq![QUOTE] =~= separator(p) + w);
    }
    law_steady_text(v, w, room);
}

/// Characters, truth values and `()` are written the same everywhere.
pub proof fn law_steady_scalars(room: int)
    ensures
        forall|v: char| #[trigger] steady(&v, room),
        forall|v: bool| #[trigger] steady(&v, room),
        steady(&(), room),
{
    assert forall|v: char| #[trigger] steady(&v, room) by {
        let b = encode_scalar(v as u32);
        let w = seq![QUOTE] + escaped(b) + seq![QUOTE];
        assert forall|p: Place| #[trigger] (&v).json(p) == (separator(p) + w, after_value(p)) by {
            assert(separator(p) + seq![QUOTE] + escaped(b) + seq![QUOTE] =~= separator(p) + w);
        }
        law_steady_text(&v, w, room);
    }
    assert forall|v: bool| #[trigger] steady(&v, room) by {
        law_steady_text(&v, bool_text(v), room);
    }
    law_steady_text(&(), word_null(), room);
}

/// Integers of every type are written the same everywhere.
pub proof fn law_steady_integer(room: int)
    ensures
        forall|v: u8| #[trigger] steady(&v, room),
        forall|v: u16| #[trigger] steady(&v, room),
        forall|v: u32| #[trigger] steady(&v, room),
        forall|v: u64| #[trigger] steady(&v, room),
        forall|v: u128| #[trigger] steady(&v, room),
        forall|v: usize| #[trigger] steady(&v, room),
        forall|v: i8| #[trigger] steady(&v, room),
        forall|v: i16| #[trigger] steady(&v, room),
        forall|v: i32| #[trigger] steady(&v, room),
        forall|v: i64| #[trigger] steady(&v, room),
        forall|v: i128| #[trigger] steady(&v, room),
        forall|v: isize| #[trigger] steady(&v, room),
{
    assert forall|v: u8| #[trigger] steady(&v, room) by {
        law_steady_text(&v, integer_text(v as int), room);
    }
    assert forall|v: u16| #[trigger] steady(&v, room) by {
        law_steady_text(&v, integer_text(v as int), room);
    }
    assert forall|v: u32| #[trigger] steady(&v, room) by {
        law_steady_text(&v, integer_text(v as int), room);
    }
    assert forall|v: u64| #[trigger] steady(&v, room) by {
        law_steady_text(&v, integer_text(v as int), room);
    }
    assert forall|v: u128| #[trigger] steady(&v, room) by {
        law_steady_text(&v, integer_text(v as int), room);
    }
    assert forall|v: usize| #[trigger] steady(&v, room) by {
        law_steady_text(&v, integer_text(v as int), room);
    }
    assert forall|v: i8| #[trigger] steady(&v, room) by {
        law_steady_text(&v, integer_text(v as int), room);
    }
    assert forall|v: i16| #[trigger] steady(&v, room) by {
        law_steady_text(&v, integer_text(v as int), room);
    }
    assert forall|v: i32| #[trigger] steady(&v, room) by {
        law_steady_text(&v, integer_text(v as int), room);
    }
    assert forall|v: i64| #[trigger] steady(&v, room) by {
        law_steady_text(&v, integer_text(v as int), room);
    }
    assert forall|v: i128| #[trigger] steady(&v, room) by {
        law_steady_text(&v, integer_text(v as int), room);
    }
    assert forall|v: isize| #[trigger] steady(&v, room) by {
        law_steady_text(&v, integer_text(v as int), room);
    }
}

/// Text that is JSON already is written the same everywhere.
pub proof fn law_steady_raw(v: RawJson<'_>, room: int)
    ensures
        steady(&v, room),
{
    law_steady_text(&v, v.0.spec_bytes(), room);
}

/// A reference is written as what it refers to.
pub proof fn law_steady_ref<T: ToJson + ?Sized>(v: &T, room: int)
    requires
        steady(v, room),
    ensures
        steady(&v, room),
{
    assert forall|q: Place| q.indent == 0 && q.depth + room <= u32::MAX implies #[trigger] (
    &v).json(q) == (separator(q) + encoding(&v), after_value(q)) by {
        assert((&v).json(q) == v.json(q));
        assert((&v).json(compact()) == v.json(compact()));
    }
}

/// An optional value is written the same everywhere if the value is.
pub proof fn law_steady_option<T: ToJson>(v: Option<T>, room: int)
    requires
        v matches Some(x) ==> steady(&x, room),
    ensures
        steady(&v, room),
{
    match v {
        Some(x) => {
            assert forall|q: Place| q.indent == 0 && q.depth + room <= u32::MAX implies #[trigger] (
            &v).json(q) == (separator(q) + encoding(&v), after_value(q)) by {
                assert((&v).json(q) == (&x).json(q));
                assert((&v).json(compact()) == (&x).json(compact()));
            }
        },
        None => law_steady_text(&v, word_null(), room),
    }
}

/// The encodings of values, with commas between them.
pub open spec fn joined<T: ToJson>(s: Seq<T>) -> Seq<u8>
    decreases s.len(),
{
    if s.len() == 0 {
        Seq::empty()
    } else if s.len() == 1 {
        encoding(&s[0])
    } else {
        joined(s.drop_last()) + seq![COMMA] + encoding(&s.last())
    }
}

/// The elements of an array in compact JSON are their encodings, with commas between them.
proof fn lemma_joined<T: ToJson>(s: Seq<T>, p: Place, room: int)
    requires
        p.pos == Pos::Start,
        p.indent == 0,
        0 < p.depth,
        p.depth + room <= u32::MAX,
        forall|i: int| 0 <= i < s.len() ==> #[trigger] steady(&s[i], room),
    ensures
        elements_json(s, p) == (
            joined(s),
            if s.len() > 0 {
                after_value(p)
            } else {
                p
            },
        ),
    decreases s.len(),
{
    if s.len() > 0 {
        let init = s.drop_last();
        let x = s[s.len() - 1];
        assert forall|i: int| 0 <= i < init.len() implies #[trigger] steady(&init[i], room) by {
            assert(steady(&s[i], room));
        }
        lemma_joined(init, p, room);
        let q = elements_json(init, p).1;
        assert(steady(&s[s.len() - 1], room));
        assert((&x).json(q) == (separator(q) + encoding(&x), after_value(q)));
        if init.len() == 0 {
            assert(separator(q) =~= Seq::<u8>::empty());
            assert(Seq::<u8>::empty() + (separator(q) + encoding(&x)) =~= encoding(&x));
        } else {
            assert(separator(q) =~= seq![COMMA]);
            assert(joined(init) + (seq![COMMA] + encoding(&x)) =~= joined(init) + seq![COMMA]
                + encoding(&x));
        }
    }
}

/// An array in compact JSON is written the same everywhere.
proof fn lemma_array_steady<T: ToJson>(s: Seq<T>, q: Place, room: int)
    requires
        q.indent == 0,
        q.depth + room + 1 <= u32::MAX,
        0 <= room,
        forall|i: int| 0 <= i < s.len() ==> #[trigger] steady(&s[i], room),
    ensures
        array_json(s, q) == (
            separator(q) + (seq![BRACKET_OPEN] + joined(s) + seq![BRACKET_CLOSE]),
            after_value(q),
        ),
{
    lemma_joined(s, inside(q), room);
    let items = elements_json(s, inside(q));
    assert(close_text(items.1, BRACKET_CLOSE) =~= seq![BRACKET_CLOSE]);
    assert(array_json(s, q).0 =~= separator(q) + (seq![BRACKET_OPEN] + joined(s)
        + seq![BRACKET_CLOSE]));
}

/// A slice of values that are written the same everywhere is.
pub proof fn law_steady_slice<T: ToJson>(v: &[T], room: int)
    requires
        0 <= room,
        forall|i: int| 0 <= i < v@.len() ==> #[trigger] steady(&v@[i], room),
    ensures
        steady(v, room + 1),
{
    let w = seq![BRACKET_OPEN] + joined(v@) + seq![BRACKET_CLOSE];
    assert forall|q: Place| q.indent == 0 && q.depth + room + 1 <= u32::MAX implies #[trigger] v.json(
        q,
    ) == (separator(q) + encoding(v), after_value(q)) by {
        lemma_array_steady(v@, q, room);
        lemma_array_steady(v@, compact(), room);
        assert(separator(compact()) + w =~= w);
    }
}

/// An array of values that are written the same everywhere is.
pub proof fn law_steady_array<T: ToJson, const M: usize>(v: &[T; M], room: int)
    requires
        0 <= room,
        forall|i: int| 0 <= i < v@.len() ==> #[trigger] steady(&v@[i], room),
    ensures
        steady(v, room + 1),
{
    let w = seq![BRACKET_OPEN] + joined(v@) + seq![BRACKET_CLOSE];
    assert forall|q: Place| q.indent == 0 && q.depth + room + 1 <= u32::MAX implies #[trigger] v.json(
        q,
    ) == (separator(q) + encoding(v), after_value(q)) by {
        lemma_array_steady(v@, q, room);
        lemma_array_steady(v@, compact(), room);
        assert(separator(compact()) + w =~= w);
    }
}

/// The members of an object in compact JSON, with commas between them.
pub open spec fn joined_members<T: ToJson>(s: Seq<(&str, T)>) -> Seq<u8>
    decreases s.len(),
{
    if s.len() == 0 {
        Seq::empty()
    } else {
        joined_members(s.drop_last()) + (if s.len() == 1 {
            Seq::empty()
        } else {
            seq![COMMA]
        }) + (seq![QUOTE] + escaped(s.last().0.spec_bytes()) + seq![QUOTE, COLON] + encoding(
            &s.last().1,
        ))
    }
}

proof fn lemma_joined_members<T: ToJson>(s: Seq<(&str, T)>, p: Place, room: int)
    requires
        p.pos == Pos::Start,
        p.indent == 0,
        0 < p.depth,
        p.depth + room <= u32::MAX,
        forall|i: int| 0 <= i < s.len() ==> #[trigger] steady(&s[i].1, room),
    ensures
        members_json(s, p) == (
            joined_members(s),
            if s.len() > 0 {
                after_value(p)
            } else {
                p
            },
        ),
    decreases s.len(),
{
    if s.len() > 0 {
        let init = s.drop_last();
        let x = s[s.len() - 1].1;
        assert forall|i: int| 0 <= i < init.len() implies #[trigger] steady(&init[i].1, room) by {
            assert(steady(&s[i].1, room));
        }
        lemma_joined_members(init, p, room);
        let q = members_json(init, p).1;
        let name = s.last().0.spec_bytes();
        assert(steady(&s[s.len() - 1].1, room));
        let k = after_key(q);
        assert((&x).json(k) == (separator(k) + encoding(&x), after_value(k)));
        assert(separator(k) + encoding(&x) =~= encoding(&x));
        let sep = if s.len() == 1 {
            Seq::<u8>::empty()
        } else {
            seq![COMMA]
        };
        assert(separator(q) =~= sep);
        assert(joined_members(init) + (sep + seq![QUOTE] + escaped(name) + seq![QUOTE, COLON]
            + encoding(&x)) =~= joined_members(init) + sep + (seq![QUOTE] + escaped(name)
            + seq![QUOTE, COLON] + encoding(&x)));
    }
}

proof fn lemma_object_steady<T: ToJson>(s: Seq<(&str, T)>, q: Place, room: int)
    requires
        q.indent == 0,
        q.depth + room + 1 <= u32::MAX,
        0 <= room,
        forall|i: int| 0 <= i < s.len() ==> #[trigger] steady(&s[i].1, room),
    ensures
        object_json(s, q) == (
            separator(q) + (seq![BRACE_OPEN] + joined_members(s) + seq![BRACE_CLOSE]),
            after_value(q),
        ),
{
    lemma_joined_members(s, inside(q), room);
    let items = members_json(s, inside(q));
    assert(close_text(items.1, BRACE_CLOSE) =~= seq![BRACE_CLOSE]);
    assert(object_json(s, q).0 =~= separator(q) + (seq![BRACE_OPEN] + joined_members(s)
        + seq![BRACE_CLOSE]));
}

/// An object of values that are written the same everywhere is.
pub proof fn law_steady_object<'a, T: ToJson>(v: Object<'a, T>, room: int)
    requires
        0 <= room,
        forall|i: int| 0 <= i < v.0@.len() ==> #[trigger] steady(&v.0@[i].1, room),
    ensures
        steady(&v, room + 1),
{
    let w = seq![BRACE_OPEN] + joined_members(v.0@) + seq![BRACE_CLOSE];
    assert forall|q: Place| q.indent == 0 && q.depth + room + 1 <= u32::MAX implies #[trigger] (
    &v).json(q) == (separator(q) + encoding(&v), after_value(q)) by {
        lemma_object_steady(v.0@, q, room);
        lemma_object_steady(v.0@, compact(), room);
        assert(separator(compact()) + w =~= w);
    }
}

/// How long encodings with commas between them are.
proof fn lemma_joined_len<T: ToJson>(s: Seq<T>)
    ensures
        joined(s).len() == total_len(s) + (if s.len() > 0 {
            s.len() - 1
        } else {
            0
        }),
    decreases s.len(),
{
    if s.len() > 0 {
        lemma_joined_len(s.drop_last());
        if s.len() == 1 {
            assert(s[0] == s.last());
        }
    }
}

/// The encoding of a slice is as long as those of its elements, with brackets and commas, where the
/// elements are written the same everywhere (as all that the library writes is: see
/// [`law_steady_str`] and the laws behind it).
pub proof fn law_slice_len<T: ToJson>(v: &[T], room: int)
    requires
        0 <= room < u32::MAX,
        forall|i: int| 0 <= i < v@.len() ==> #[trigger] steady(&v@[i], room),
    ensures
        encoding(v).len() == 2 + total_len(v@) + (if v@.len() > 0 {
            v@.len() - 1
        } else {
            0
        }),
{
    lemma_array_steady(v@, compact(), room);
    lemma_joined_len(v@);
}

/// A value whose JSON is valid UTF-8 wherever it is written. The encoding of such a value is
/// refused by [`to_slice`](crate::to_slice) only if it does not fit.
pub open spec fn utf8<V: ToJson + ?Sized>(v: &V) -> bool {
    forall|p: Place| valid_utf8(#[trigger] v.json(p).0)
}

/// What stands between values is ASCII.
proof fn lemma_space_utf8(p: Place)
    ensures
        valid_utf8(newline(p)),
        valid_utf8(separator(p)),
{
    lemma_ascii_utf8(newline(p));
    lemma_ascii_utf8(separator(p));
}

/// Brackets are ASCII.
proof fn lemma_brackets_utf8(p: Place, q: Place, open: u8, close: u8)
    requires
        open < 0x80,
        close < 0x80,
    ensures
        valid_utf8(separator(p) + seq![open]),
        valid_utf8(close_text(q, close)),
{
    lemma_space_utf8(p);
    lemma_space_utf8(outside(q));
    lemma_ascii_utf8(seq![open]);
    lemma_ascii_utf8(seq![close]);
    valid_utf8_concat(separator(p), seq![open]);
    valid_utf8_concat(newline(outside(q)), seq![close]);
    assert(Seq::<u8>::empty() + seq![close] =~= seq![close]);
}

/// Text is escaped as UTF-8.
proof fn lemma_escaped_utf8(b: Seq<u8>)
    requires
        valid_utf8(b),
    ensures
        valid_utf8(escaped(b)),
    decreases b.len(),
{
    if b.len() > 0 {
        let m = length_of_first_scalar(b);
        let h = take_first_scalar(b);
        let rest = pop_first_scalar(b);
        assert(b =~= h + rest);
        lemma_escaped_utf8(rest);
        law_escaped_parts(h, rest);
        if m == 1 {
            assert(h.drop_last() =~= Seq::<u8>::empty());
            assert(escaped(h.drop_last()) =~= Seq::<u8>::empty());
            assert(escaped(h) =~= escape_byte(b[0]));
            lemma_ascii_utf8(escape_byte(b[0]));
        } else {
            assert forall|k: int| 0 <= k < h.len() implies #[trigger] h[k] >= 0x80 by {
                assert(h[k] == b[k]);
            }
            lemma_escaped_raw(h);
            assert(h[0] == b[0] && h[1] == b[1]);
            if m >= 3 {
                assert(h[2] == b[2]);
            }
            if m >= 4 {
                assert(h[3] == b[3]);
            }
            assert(valid_first_scalar(h));
            assert(pop_first_scalar(h) =~= Seq::<u8>::empty());
            assert(valid_utf8(pop_first_scalar(h)));
        }
        valid_utf8_concat(escaped(h), escaped(rest));
    } else {
        assert(escaped(b) =~= Seq::<u8>::empty());
    }
}

/// A value that is written as one text in UTF-8, but for what has to precede it, is UTF-8.
pub proof fn law_utf8_text<V: ToJson + ?Sized>(v: &V, w: Seq<u8>)
    requires
        valid_utf8(w),
        forall|p: Place| #[trigger] v.json(p) == (separator(p) + w, after_value(p)),
    ensures
        utf8(v),
{
    assert forall|p: Place| valid_utf8(#[trigger] v.json(p).0) by {
        lemma_space_utf8(p);
        valid_utf8_concat(separator(p), w);
    }
}

/// Text is written in UTF-8.
pub proof fn law_utf8_str(v: &str)
    ensures
        utf8(v),
{
    let b = v.spec_bytes();
    encode_utf8_valid_utf8(v@);
    lemma_escaped_utf8(b);
    lemma_ascii_utf8(seq![QUOTE]);
    valid_utf8_concat(seq![QUOTE], escaped(b));
    valid_utf8_concat(seq![QUOTE] + escaped(b), seq![QUOTE]);
    let w = seq![QUOTE] + escaped(b) + seq![QUOTE];
    assert forall|p: Place| #[trigger] v.json(p) == (separator(p) + w, after_value(p)) by {
        assert(separator(p) + seq![QUOTE] + escaped(b) + seq![QUOTE] =~= separator(p) + w);
    }
    law_utf8_text(v, w);
}

/// The text of an integer is UTF-8.
proof fn lemma_integer_utf8(v: int)
    ensures
        valid_utf8(integer_text(v)),
{
    let n = (if v < 0 {
        -v
    } else {
        v
    }) as nat;
    lemma_decimal_index(n);
    let i: int = if v < 0 {
        1
    } else {
        0
    };
    let s = integer_text(v);
    assert forall|k: int| 0 <= k < s.len() implies #[trigger] s[k] < 0x80 by {
        if k >= i {
            assert(s[k] == decimal(n)[k - i]);
        }
    }
    lemma_ascii_utf8(s);
}

/// Integers of every type are written in UTF-8.
pub proof fn law_utf8_integer()
    ensures
        forall|v: u8| #[trigger] utf8(&v),
        forall|v: u16| #[trigger] utf8(&v),
        forall|v: u32| #[trigger] utf8(&v),
        forall|v: u64| #[trigger] utf8(&v),
        forall|v: u128| #[trigger] utf8(&v),
        forall|v: usize| #[trigger] utf8(&v),
        forall|v: i8| #[trigger] utf8(&v),
        forall|v: i16| #[trigger] utf8(&v),
        forall|v: i32| #[trigger] utf8(&v),
        forall|v: i64| #[trigger] utf8(&v),
        forall|v: i128| #[trigger] utf8(&v),
        forall|v: isize| #[trigger] utf8(&v),
{
    assert forall|v: u8| #[trigger] utf8(&v) by {
        lemma_integer_utf8(v as int);
        law_utf8_text(&v, integer_text(v as int));
    }
    assert forall|v: u16| #[trigger] utf8(&v) by {
        lemma_integer_utf8(v as int);
        law_utf8_text(&v, integer_text(v as int));
    }
    assert forall|v: u32| #[trigger] utf8(&v) by {
        lemma_integer_utf8(v as int);
        law_utf8_text(&v, integer_text(v as int));
    }
    assert forall|v: u64| #[trigger] utf8(&v) by {
        lemma_integer_utf8(v as int);
        law_utf8_text(&v, integer_text(v as int));
    }
    assert forall|v: u128| #[trigger] utf8(&v) by {
        lemma_integer_utf8(v as int);
        law_utf8_text(&v, integer_text(v as int));
    }
    assert forall|v: usize| #[trigger] utf8(&v) by {
        lemma_integer_utf8(v as int);
        law_utf8_text(&v, integer_text(v as int));
    }
    assert forall|v: i8| #[trigger] utf8(&v) by {
        lemma_integer_utf8(v as int);
        law_utf8_text(&v, integer_text(v as int));
    }
    assert forall|v: i16| #[trigger] utf8(&v) by {
        lemma_integer_utf8(v as int);
        law_utf8_text(&v, integer_text(v as int));
    }
    assert forall|v: i32| #[trigger] utf8(&v) by {
        lemma_integer_utf8(v as int);
        law_utf8_text(&v, integer_text(v as int));
    }
    assert forall|v: i64| #[trigger] utf8(&v) by {
        lemma_integer_utf8(v as int);
        law_utf8_text(&v, integer_text(v as int));
    }
    assert forall|v: i128| #[trigger] utf8(&v) by {
        lemma_integer_utf8(v as int);
        law_utf8_text(&v, integer_text(v as int));
    }
    assert forall|v: isize| #[trigger] utf8(&v) by {
        lemma_integer_utf8(v as int);
        law_utf8_text(&v, integer_text(v as int));
    }
}

/// Characters, truth values and `()` are written in UTF-8.
pub proof fn law_utf8_scalars()
    ensures
        forall|v: char| #[trigger] utf8(&v),
        forall|v: bool| #[trigger] utf8(&v),
        utf8(&()),
{
    assert forall|v: char| #[trigger] utf8(&v) by {
        let b = encode_scalar(v as u32);
        encode_utf8_valid_utf8(seq![v]);
        reveal_with_fuel(encode_utf8, 2);
        assert(seq![v].drop_first() =~= Seq::<char>::empty());
        assert(encode_utf8(seq![v]) =~= b);
        lemma_escaped_utf8(b);
        lemma_ascii_utf8(seq![QUOTE]);
        valid_utf8_concat(seq![QUOTE], escaped(b));
        valid_utf8_concat(seq![QUOTE] + escaped(b), seq![QUOTE]);
        let w = seq![QUOTE] + escaped(b) + seq![QUOTE];
        assert forall|p: Place| #[trigger] (&v).json(p) == (separator(p) + w, after_value(p)) by {
            assert(separator(p) + seq![QUOTE] + escaped(b) + seq![QUOTE] =~= separator(p) + w);
        }
        law_utf8_text(&v, w);
    }
    assert forall|v: bool| #[trigger] utf8(&v) by {
        lemma_ascii_utf8(bool_text(v));
        law_utf8_text(&v, bool_text(v));
    }
    lemma_ascii_utf8(word_null());
    law_utf8_text(&(), word_null());
}

/// Text that is JSON already is written in UTF-8.
pub proof fn law_utf8_raw(v: RawJson<'_>)
    ensures
        utf8(&v),
{
    encode_utf8_valid_utf8(v.0@);
    law_utf8_text(&v, v.0.spec_bytes());
}

/// A reference is written as what it refers to.
pub proof fn law_utf8_ref<T: ToJson + ?Sized>(v: &T)
    requires
        utf8(v),
    ensures
        utf8(&v),
{
    assert forall|p: Place| valid_utf8(#[trigger] (&v).json(p).0) by {
        assert((&v).json(p) == v.json(p));
    }
}

/// An optional value is written in UTF-8 if the value is.
pub proof fn law_utf8_option<T: ToJson>(v: Option<T>)
    requires
        v matches Some(x) ==> utf8(&x),
    ensures
        utf8(&v),
{
    match v {
        Some(x) => {
            assert forall|p: Place| valid_utf8(#[trigger] (&v).json(p).0) by {
                assert((&v).json(p) == (&x).json(p));
            }
        },
        None => {
            lemma_ascii_utf8(word_null());
            law_utf8_text(&v, word_null());
        },
    }
}

proof fn lemma_elements_utf8<T: ToJson>(s: Seq<T>, p: Place)
    requires
        forall|i: int| 0 <= i < s.len() ==> #[trigger] utf8(&s[i]),
    ensures
        valid_utf8(elements_json(s, p).0),
    decreases s.len(),
{
    if s.len() > 0 {
        let init = s.drop_last();
        assert forall|i: int| 0 <= i < init.len() implies #[trigger] utf8(&init[i]) by {
            assert(utf8(&s[i]));
        }
        lemma_elements_utf8(init, p);
        let x = s[s.len() - 1];
        assert(utf8(&s[s.len() - 1]));
        let last = (&x).json(elements_json(init, p).1);
        valid_utf8_concat(elements_json(init, p).0, last.0);
    }
}

proof fn lemma_array_utf8<T: ToJson>(s: Seq<T>, p: Place)
    requires
        forall|i: int| 0 <= i < s.len() ==> #[trigger] utf8(&s[i]),
    ensures
        valid_utf8(array_json(s, p).0),
{
    let items = elements_json(s, inside(p));
    lemma_elements_utf8(s, inside(p));
    lemma_brackets_utf8(p, items.1, BRACKET_OPEN, BRACKET_CLOSE);
    valid_utf8_concat(separator(p) + seq![BRACKET_OPEN], items.0);
    valid_utf8_concat(
        separator(p) + seq![BRACKET_OPEN] + items.0,
        close_text(items.1, BRACKET_CLOSE),
    );
}

/// A slice of values that are written in UTF-8 is.
pub proof fn law_utf8_slice<T: ToJson>(v: &[T])
    requires
        forall|i: int| 0 <= i < v@.len() ==> #[trigger] utf8(&v@[i]),
    ensures
        utf8(v),
{
    assert forall|p: Place| valid_utf8(#[trigger] v.json(p).0) by {
        lemma_array_utf8(v@, p);
    }
}

/// An array of values that are written in UTF-8 is.
pub proof fn law_utf8_array<T: ToJson, const M: usize>(v: &[T; M])
    requires
        forall|i: int| 0 <= i < v@.len() ==> #[trigger] utf8(&v@[i]),
    ensures
        utf8(v),
{
    assert forall|p: Place| valid_utf8(#[trigger] v.json(p).0) by {
        lemma_array_utf8(v@, p);
    }
}

proof fn lemma_members_utf8<T: ToJson>(s: Seq<(&str, T)>, p: Place)
    requires
        forall|i: int| 0 <= i < s.len() ==> #[trigger] utf8(&s[i].1),
    ensures
        valid_utf8(members_json(s, p).0),
    decreases s.len(),
{
    if s.len() > 0 {
        let init = s.drop_last();
        assert forall|i: int| 0 <= i < init.len() implies #[trigger] utf8(&init[i].1) by {
            assert(utf8(&s[i].1));
        }
        lemma_members_utf8(init, p);
        let x = s[s.len() - 1].1;
        assert(utf8(&s[s.len() - 1].1));
        let q = members_json(init, p).1;
        let name = s.last().0.spec_bytes();
        let last = (&x).json(after_key(q));
        encode_utf8_valid_utf8(s.last().0@);
        lemma_escaped_utf8(name);
        lemma_space_utf8(q);
        lemma_ascii_utf8(seq![QUOTE]);
        lemma_ascii_utf8(key_end(q));
        valid_utf8_concat(separator(q), seq![QUOTE]);
        valid_utf8_concat(separator(q) + seq![QUOTE], escaped(name));
        valid_utf8_concat(separator(q) + seq![QUOTE] + escaped(name), key_end(q));
        valid_utf8_concat(key_text(q, name), last.0);
        valid_utf8_concat(members_json(init, p).0, key_text(q, name) + last.0);
    }
}

/// An object of values that are written in UTF-8 is.
pub proof fn law_utf8_object<'a, T: ToJson>(v: Object<'a, T>)
    requires
        forall|i: int| 0 <= i < v.0@.len() ==> #[trigger] utf8(&v.0@[i].1),
    ensures
        utf8(&v),
{
    assert forall|p: Place| valid_utf8(#[trigger] (&v).json(p).0) by {
        let items = members_json(v.0@, inside(p));
        lemma_members_utf8(v.0@, inside(p));
        lemma_space_utf8(p);
        lemma_brackets_utf8(p, items.1, BRACE_OPEN, BRACE_CLOSE);
        valid_utf8_concat(separator(p) + seq![BRACE_OPEN], items.0);
        valid_utf8_concat(
            separator(p) + seq![BRACE_OPEN] + items.0,
            close_text(items.1, BRACE_CLOSE),
        );
    }
}

} // verus!
