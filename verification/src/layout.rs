//! How values are laid out when they are written: the bytes that the [writer](crate::writer) puts
//! down, told from the value, with laws that it puts down exactly these.

use vstd::prelude::*;
use vstd::string::StringSliceAdditionalSpecFns;
use vstd::utf8::{
    char_is_scalar, decode_utf8, decode_utf8_encode_utf8, encode_scalar, encode_utf8,
    encode_utf8_valid_utf8, valid_utf8,
};

use crate::copied::{lemma_copy_piece, rest_text, value_text};
use crate::grammar::{is_digit, lemma_value, text, value, word_null, word_of, QUOTE};
use crate::notation::{in_parts, is_number, is_whole, lemma_encode_one, lemma_first_byte, parts};
use crate::number::decimal;
use crate::parser::State;
use crate::path::lemma_decimal_index;
use crate::splice::{at_item, behind, left, lemma_piece, piece, read_item};
use crate::string::lemma_chunk;
use crate::tree::{tree, Item, Json};
use crate::util::{rest_copy, scalar_copy, value_copy};
use crate::writer::{
    after_key, after_value, array_json, bool_text, close_text, elements_json, encoding, escape_byte,
    escaped, inside, integer_text, key_text, law_escaped_parts, members_json, newline, object_json,
    open_text, outside, separator, string_text, Object, Place, Pos, RawJson, ToJson,
};
use crate::written::lemma_escaped_raw;

verus! {

/// The number that decimal digits write.
pub open spec fn value_of(w: Seq<u8>) -> int
    decreases w.len(),
{
    if w.len() == 0 {
        0
    } else {
        value_of(w.drop_last()) * 10 + (w.last() - '0' as int)
    }
}

/// Whether `w` is the integer `v`: a minus if it is negative, and the digits of its absolute value,
/// of which the first is no `0` unless it is the only one.
pub open spec fn is_integer(w: Seq<u8>, v: int) -> bool {
    if v < 0 {
        w.len() > 0 && w[0] == '-' as u8 && is_whole(w.skip(1)) && value_of(w.skip(1)) == -v
    } else {
        is_whole(w) && value_of(w) == v
    }
}

/// A number without a sign is written in decimal.
pub proof fn law_decimal(n: nat)
    ensures
        is_integer(decimal(n), n as int),
    decreases n,
{
    lemma_decimal_index(n);
    let w = decimal(n);
    if n < 10 {
        assert(w.drop_last() =~= Seq::<u8>::empty());
        assert(value_of(w.drop_last()) == 0);
    } else {
        law_decimal(n / 10);
        assert(w.drop_last() =~= decimal(n / 10));
    }
    assert forall|k: int| 0 <= k < w.len() implies '0' as u8 <= #[trigger] w[k] <= '9' as u8 by {
        assert(is_digit(w[k]));
    }
    if w[0] == '0' as u8 && w.len() > 1 {
        assert(n > 0);
    }
}

/// An integer is written as itself: with a minus exactly if it is negative, and with digits that
/// have its absolute value.
pub proof fn law_integer_text(v: int)
    ensures
        is_integer(integer_text(v), v),
        is_number(integer_text(v)),
{
    let w = integer_text(v);
    let n = (if v < 0 {
        -v
    } else {
        v
    }) as nat;
    law_decimal(n);
    let d = decimal(n);
    assert(d.subrange(0, d.len() as int) =~= d);
    assert(in_parts(d, d.len() as int, d.len() as int));
    if v < 0 {
        assert(w.skip(1) =~= d);
    }
}

/// No text is that of two integers.
pub proof fn law_integers_differ(w: Seq<u8>, a: int, b: int)
    requires
        is_integer(w, a),
        is_integer(w, b),
    ensures
        a == b,
{
    if a >= 0 && b < 0 {
        assert('0' as u8 <= w[0] <= '9' as u8);
    }
    if a < 0 && b >= 0 {
        assert('0' as u8 <= w[0] <= '9' as u8);
    }
}

/// Integers of every type are encoded as themselves.
pub proof fn law_encodes_integer()
    ensures
        forall|v: u8| is_integer(#[trigger] encoding(&v), v as int),
        forall|v: u16| is_integer(#[trigger] encoding(&v), v as int),
        forall|v: u32| is_integer(#[trigger] encoding(&v), v as int),
        forall|v: u64| is_integer(#[trigger] encoding(&v), v as int),
        forall|v: u128| is_integer(#[trigger] encoding(&v), v as int),
        forall|v: usize| is_integer(#[trigger] encoding(&v), v as int),
        forall|v: i8| is_integer(#[trigger] encoding(&v), v as int),
        forall|v: i16| is_integer(#[trigger] encoding(&v), v as int),
        forall|v: i32| is_integer(#[trigger] encoding(&v), v as int),
        forall|v: i64| is_integer(#[trigger] encoding(&v), v as int),
        forall|v: i128| is_integer(#[trigger] encoding(&v), v as int),
        forall|v: isize| is_integer(#[trigger] encoding(&v), v as int),
{
    assert forall|v: u8| is_integer(#[trigger] encoding(&v), v as int) by {
        law_integer_text(v as int);
        assert(encoding(&v) =~= integer_text(v as int));
    }
    assert forall|v: u16| is_integer(#[trigger] encoding(&v), v as int) by {
        law_integer_text(v as int);
        assert(encoding(&v) =~= integer_text(v as int));
    }
    assert forall|v: u32| is_integer(#[trigger] encoding(&v), v as int) by {
        law_integer_text(v as int);
        assert(encoding(&v) =~= integer_text(v as int));
    }
    assert forall|v: u64| is_integer(#[trigger] encoding(&v), v as int) by {
        law_integer_text(v as int);
        assert(encoding(&v) =~= integer_text(v as int));
    }
    assert forall|v: u128| is_integer(#[trigger] encoding(&v), v as int) by {
        law_integer_text(v as int);
        assert(encoding(&v) =~= integer_text(v as int));
    }
    assert forall|v: usize| is_integer(#[trigger] encoding(&v), v as int) by {
        law_integer_text(v as int);
        assert(encoding(&v) =~= integer_text(v as int));
    }
    assert forall|v: i8| is_integer(#[trigger] encoding(&v), v as int) by {
        law_integer_text(v as int);
        assert(encoding(&v) =~= integer_text(v as int));
    }
    assert forall|v: i16| is_integer(#[trigger] encoding(&v), v as int) by {
        law_integer_text(v as int);
        assert(encoding(&v) =~= integer_text(v as int));
    }
    assert forall|v: i32| is_integer(#[trigger] encoding(&v), v as int) by {
        law_integer_text(v as int);
        assert(encoding(&v) =~= integer_text(v as int));
    }
    assert forall|v: i64| is_integer(#[trigger] encoding(&v), v as int) by {
        law_integer_text(v as int);
        assert(encoding(&v) =~= integer_text(v as int));
    }
    assert forall|v: i128| is_integer(#[trigger] encoding(&v), v as int) by {
        law_integer_text(v as int);
        assert(encoding(&v) =~= integer_text(v as int));
    }
    assert forall|v: isize| is_integer(#[trigger] encoding(&v), v as int) by {
        law_integer_text(v as int);
        assert(encoding(&v) =~= integer_text(v as int));
    }
}

/// What is written in a string for the character `c`: two characters for a quote, a backslash and
/// the control characters that have a letter, six for the other control characters, and else the
/// character itself.
pub open spec fn written_as(c: char) -> Seq<u8> {
    if c == '"' {
        seq!['\\' as u8, '"' as u8]
    } else if c == '\\' {
        seq!['\\' as u8, '\\' as u8]
    } else if c == '\u{8}' {
        seq!['\\' as u8, 'b' as u8]
    } else if c == '\u{c}' {
        seq!['\\' as u8, 'f' as u8]
    } else if c == '\n' {
        seq!['\\' as u8, 'n' as u8]
    } else if c == '\r' {
        seq!['\\' as u8, 'r' as u8]
    } else if c == '\t' {
        seq!['\\' as u8, 't' as u8]
    } else if (c as u32) < 0x20 {
        seq![
            '\\' as u8,
            'u' as u8,
            '0' as u8,
            '0' as u8,
            lower_hex(c as u32 as int / 0x10),
            lower_hex(c as u32 as int % 0x10),
        ]
    } else {
        encode_scalar(c as u32)
    }
}

/// The hexadecimal digit for `n`, in lower case.
pub open spec fn lower_hex(n: int) -> u8 {
    if n < 10 {
        ('0' as int + n) as u8
    } else {
        ('a' as int + (n - 10)) as u8
    }
}

/// What is written in a string for the characters `cs`, one after the other.
pub open spec fn all_written(cs: Seq<char>) -> Seq<u8>
    decreases cs.len(),
{
    if cs.len() == 0 {
        Seq::empty()
    } else {
        written_as(cs[0]) + all_written(cs.skip(1))
    }
}

/// Each character is escaped as it is to be written.
pub proof fn law_written_character(c: char)
    ensures
        escaped(encode_scalar(c as u32)) == written_as(c),
{
    let b = encode_scalar(c as u32);
    let x = c as u32;
    char_is_scalar(c);
    lemma_first_byte(c);
    if x < 0x80 {
        assert(b.drop_last() =~= Seq::<u8>::empty());
        assert(escaped(b.drop_last()) =~= Seq::<u8>::empty());
        assert(escaped(b) =~= escape_byte(x as u8));
        assert(escape_byte(x as u8) =~= written_as(c));
    } else {
        lemma_high_bytes(c);
        lemma_escaped_raw(b);
    }
}

/// Text is escaped as it is to be written.
pub proof fn law_written_text(cs: Seq<char>)
    ensures
        escaped(encode_utf8(cs)) == all_written(cs),
    decreases cs.len(),
{
    if cs.len() == 0 {
        assert(encode_utf8(cs) =~= Seq::<u8>::empty());
    } else {
        law_written_character(cs[0]);
        law_written_text(cs.skip(1));
        assert(cs.skip(1) =~= cs.drop_first());
        law_escaped_parts(encode_scalar(cs[0] as u32), encode_utf8(cs.skip(1)));
    }
}

/// No byte of a character beyond ASCII is ASCII.
proof fn lemma_high_bytes(c: char)
    requires
        c as u32 >= 0x80,
    ensures
        forall|k: int|
            0 <= k < encode_scalar(c as u32).len() ==> #[trigger] encode_scalar(c as u32)[k] >= 0x80,
{
    let x = c as u32;
    assert((0xc0u8 | ((x >> 6) & 0x1f) as u8) >= 0x80) by (bit_vector);
    assert((0xe0u8 | ((x >> 12) & 0x0f) as u8) >= 0x80) by (bit_vector);
    assert((0xf0u8 | ((x >> 18) & 0x07) as u8) >= 0x80) by (bit_vector);
    assert((0x80u8 | (x & 0x3f) as u8) >= 0x80) by (bit_vector);
    assert((0x80u8 | ((x >> 6) & 0x3f) as u8) >= 0x80) by (bit_vector);
    assert((0x80u8 | ((x >> 12) & 0x3f) as u8) >= 0x80) by (bit_vector);
}

/// A line break and the indentation of `depth` levels of `indent` spaces, or nothing if `indent` is
/// 0.
pub open spec fn line(indent: u8, depth: int) -> Seq<u8> {
    if indent == 0 {
        Seq::empty()
    } else {
        seq!['\n' as u8] + Seq::new((indent * depth) as nat, |i: int| ' ' as u8)
    }
}

/// The string for the text `b`.
pub open spec fn quoted(b: Seq<u8>) -> Seq<u8> {
    seq!['"' as u8] + all_written(decode_utf8(b)) + seq!['"' as u8]
}

/// The key of an item, with a colon behind it, and a space if there is indentation. Elements of
/// arrays have none.
pub open spec fn key_of(t: Json, n: int, indent: u8) -> Seq<u8> {
    if t is Object {
        quoted(parts(t)[n].name) + seq![':' as u8] + (if indent == 0 {
            Seq::empty()
        } else {
            seq![' ' as u8]
        })
    } else {
        Seq::empty()
    }
}

/// The JSON text of `t` at `depth` levels: compact, or with each item of a container that has any on
/// a line of its own, which is indented by one level more than the brackets.
pub open spec fn layout(t: Json, indent: u8, depth: int) -> Seq<u8>
    decreases t, parts(t).len() + 1,
{
    match t {
        Json::Null => seq!['n' as u8, 'u' as u8, 'l' as u8, 'l' as u8],
        Json::Bool(true) => seq!['t' as u8, 'r' as u8, 'u' as u8, 'e' as u8],
        Json::Bool(false) => seq!['f' as u8, 'a' as u8, 'l' as u8, 's' as u8, 'e' as u8],
        Json::Number(n) => n,
        Json::Text(b) => quoted(b),
        Json::Array(_) => seq!['[' as u8] + layout_from(t, 0, indent, depth),
        Json::Object(_) => seq!['{' as u8] + layout_from(t, 0, indent, depth),
    }
}

/// The JSON text of a container from its item number `n` on, with the closing bracket.
pub open spec fn layout_from(t: Json, n: int, indent: u8, depth: int) -> Seq<u8>
    decreases t, parts(t).len() - n,
{
    if 0 <= n < parts(t).len() {
        (if n == 0 {
            Seq::empty()
        } else {
            seq![',' as u8]
        }) + line(indent, depth + 1) + key_of(t, n, indent) + layout(
            parts(t)[n].value,
            indent,
            depth + 1,
        ) + layout_from(t, n + 1, indent, depth)
    } else {
        (if n == 0 {
            Seq::empty()
        } else {
            line(indent, depth)
        }) + (if t is Array {
            seq![']' as u8]
        } else {
            seq!['}' as u8]
        })
    }
}

/// Text in UTF-8 is written as its characters are.
proof fn lemma_quoted(b: Seq<u8>)
    requires
        valid_utf8(b),
    ensures
        quoted(b) == seq![QUOTE] + escaped(b) + seq![QUOTE],
{
    decode_utf8_encode_utf8(b);
    law_written_text(decode_utf8(b));
}

/// A line break of the writer.
proof fn lemma_line(p: Place)
    ensures
        newline(p) == line(p.indent, p.depth as int),
{
    assert(p.depth * p.indent == p.indent * p.depth) by (nonlinear_arith);
    assert(newline(p) =~= line(p.indent, p.depth as int));
}

/// What the writer puts between the calls that make up a document, told from where it is: nothing
/// in front of the first value and behind a key; a line break between values that are not in a
/// container; in a container, a comma behind each item but the last, and line breaks around the
/// items. What a container is in is as it was before once it is closed.
pub proof fn law_calls(p: Place, b: u8)
    requires
        p.depth < u32::MAX,
    ensures
        separator(after_key(p)) == Seq::<u8>::empty(),
        p.depth == 0 ==> separator(Place { pos: Pos::Start, ..p }) == Seq::<u8>::empty(),
        p.depth == 0 ==> separator(after_value(p)) == seq!['\n' as u8],
        separator(inside(p)) == line(p.indent, p.depth + 1),
        separator(after_value(inside(p))) == seq![',' as u8] + line(p.indent, p.depth + 1),
        open_text(p, b) == separator(p) + seq![b],
        close_text(inside(p), b) == seq![b],
        close_text(after_value(inside(p)), b) == line(p.indent, p.depth as int) + seq![b],
        outside(inside(p)) == after_value(p),
        outside(after_value(inside(p))) == after_value(p),
{
    lemma_line(p);
    lemma_line(inside(p));
    assert(close_text(inside(p), b) =~= seq![b]);
    let q = after_value(inside(p));
    assert(newline(outside(q)) == newline(p));
}

/// What the writer puts down for a text and for a key.
pub proof fn law_calls_text(p: Place, b: Seq<u8>)
    requires
        valid_utf8(b),
    ensures
        string_text(p, b) == separator(p) + quoted(b),
        key_text(p, b) == separator(p) + quoted(b) + seq![':' as u8] + (if p.indent == 0 {
            Seq::empty()
        } else {
            seq![' ' as u8]
        }),
{
    lemma_quoted(b);
    assert(string_text(p, b) =~= separator(p) + quoted(b));
    assert(key_text(p, b) =~= separator(p) + quoted(b) + seq![':' as u8] + (if p.indent == 0 {
        Seq::empty()
    } else {
        seq![' ' as u8]
    }));
}

/// A value without parts is copied as it is laid out.
proof fn lemma_scalar_layout(s: Seq<u8>, i: int, room: int, p: Place)
    requires
        0 <= i,
        value(s, i, room) is Ok,
        s[i] != '[' as u8,
        s[i] != '{' as u8,
    ensures
        scalar_copy(s, i, p) == (
            separator(p) + layout(tree(s, i, room), p.indent, p.depth as int),
            after_value(p),
        ),
{
    lemma_value(s, i, room);
    if s[i] == '"' as u8 {
        lemma_chunk(s, i + 1, None);
        law_calls_text(p, text(s, i + 1)->Ok_0.1);
    } else if !(s[i] == '-' as u8 || '0' as u8 <= s[i] <= '9' as u8) {
        assert(word_of(s[i]) =~= layout(tree(s, i, room), p.indent, p.depth as int));
    }
}

/// A value is copied as it is laid out.
proof fn lemma_copy_layout(s: Seq<u8>, i: int, room: int, p: Place)
    requires
        0 <= i,
        0 <= room,
        value(s, i, room) is Ok,
        p.depth + room <= u32::MAX,
    ensures
        value_text(s, i, room, p) == (
            separator(p) + layout(tree(s, i, room), p.indent, p.depth as int),
            after_value(p),
        ),
    decreases s.len() - i, 0int,
{
    lemma_value(s, i, room);
    reveal(value_text);
    let t = tree(s, i, room);
    if s[i] == '[' as u8 || s[i] == '{' as u8 {
        let state = if s[i] == '{' as u8 {
            State::ObjFirst
        } else {
            State::ArrFirst
        };
        reveal(left);
        assert(parts(t).skip(0) =~= parts(t));
        lemma_rest_layout(s, i + 1, state, room - 1, inside(p), t, 0);
        reveal(rest_text);
        let r = rest_copy(s, i + 1, state, room - 1, inside(p));
        law_calls(p, s[i]);
        assert(separator(p) + seq![s[i]] + r.0 =~= separator(p) + layout(
            t,
            p.indent,
            p.depth as int,
        ));
    } else {
        lemma_scalar_layout(s, i, room, p);
    }
}

/// What is left of a container is copied as it is laid out.
#[verifier::rlimit(40)]
proof fn lemma_rest_layout(s: Seq<u8>, j: int, state: State, room: int, p: Place, t: Json, n: int)
    requires
        left(s, j, state, room).0 is Ok,
        at_item(state),
        0 <= room,
        0 < p.depth,
        p.depth + room <= u32::MAX,
        0 <= n <= parts(t).len(),
        (n == 0) == (state != behind(state)),
        parts(t).skip(n) == left(s, j, state, room).1,
        t is Array || t is Object,
        t is Array <==> behind(state) == State::ArrComma,
        p.pos == (if n == 0 {
            Pos::Start
        } else {
            Pos::AfterValue
        }),
    ensures
        rest_text(s, j, state, room, p) == (
            layout_from(t, n, p.indent, p.depth - 1),
            outside(p),
        ),
    decreases s.len() - j, 1int,
{
    lemma_piece(s, j, state, room);
    lemma_copy_piece(s, j, state, room, p);
    lemma_line(p);
    lemma_line(outside(p));
    let its = parts(t);
    let depth = p.depth - 1;
    match piece(s, j, state, room) {
        None => {
            assert(its.skip(n).len() == 0);
            assert(rest_text(s, j, state, room, p).0 =~= layout_from(t, n, p.indent, depth));
        },
        Some(a) => {
            assert(its.skip(n).len() > 0);
            assert(its[n] == its.skip(n)[0]);
            assert(its[n] == (Item { name: a.name, value: tree(s, a.at, room) })) by {
                reveal(read_item);
            }
            assert(its.skip(n + 1) =~= left(s, a.end, behind(state), room).1) by {
                assert(its.skip(n + 1) =~= its.skip(n).skip(1));
            }
            let q = if t is Array {
                p
            } else {
                after_key(p)
            };
            lemma_copy_layout(s, a.at, room, q);
            let v = layout(its[n].value, p.indent, p.depth as int);
            let next = after_value(p);
            lemma_rest_layout(s, a.end, behind(state), room, next, t, n + 1);
            let more = layout_from(t, n + 1, p.indent, depth);
            let lead = if n == 0 {
                Seq::<u8>::empty()
            } else {
                seq![',' as u8]
            };
            assert(separator(p) =~= lead + line(p.indent, depth + 1));
            if t is Array {
                assert(key_of(t, n, p.indent) =~= Seq::<u8>::empty());
                assert((separator(p) + v) + more =~= lead + line(p.indent, depth + 1) + key_of(
                    t,
                    n,
                    p.indent,
                ) + v + more);
            } else {
                law_calls_text(p, a.name);
                assert(key_text(p, a.name) =~= separator(p) + key_of(t, n, p.indent));
                assert(separator(q) =~= Seq::<u8>::empty());
                assert(key_text(p, a.name) + ((separator(q) + v) + more) =~= lead + line(
                    p.indent,
                    depth + 1,
                ) + key_of(t, n, p.indent) + v + more);
            }
        },
    }
}

/// A value that is copied is laid out anew: what [`copy_value`](crate::copy_value) writes is told
/// from what the value means, and from the indentation.
pub proof fn law_copy_layout(s: Seq<u8>, i: int, room: int, p: Place)
    requires
        0 <= i,
        0 <= room,
        value(s, i, room) is Ok,
        p.depth + room <= u32::MAX,
    ensures
        value_copy(s, i, room, p) == (
            separator(p) + layout(tree(s, i, room), p.indent, p.depth as int),
            after_value(p),
        ),
{
    lemma_copy_layout(s, i, room, p);
    reveal(value_text);
}

/// Whether a value is laid out as `t` wherever it is written, where `room` more levels can be
/// counted.
pub open spec fn lays_out<V: ToJson + ?Sized>(v: &V, room: int, t: Json) -> bool {
    forall|p: Place|
        p.depth + room <= u32::MAX ==> #[trigger] v.json(p) == (
            separator(p) + layout(t, p.indent, p.depth as int),
            after_value(p),
        )
}

/// Text is laid out as itself.
pub proof fn law_lays_out_str(v: &str, room: int)
    ensures
        lays_out(v, room, Json::Text(v.spec_bytes())),
{
    encode_utf8_valid_utf8(v@);
    assert forall|p: Place| p.depth + room <= u32::MAX implies #[trigger] v.json(p) == (
        separator(p) + layout(Json::Text(v.spec_bytes()), p.indent, p.depth as int),
        after_value(p),
    ) by {
        law_calls_text(p, v.spec_bytes());
    }
}

/// Characters, truth values and `()` are laid out as themselves.
pub proof fn law_lays_out_scalars(room: int)
    ensures
        forall|v: char| #[trigger] lays_out(&v, room, Json::Text(encode_utf8(seq![v]))),
        forall|v: bool| #[trigger] lays_out(&v, room, Json::Bool(v)),
        lays_out(&(), room, Json::Null),
{
    assert forall|v: char| #[trigger] lays_out(&v, room, Json::Text(encode_utf8(seq![v]))) by {
        let b = encode_utf8(seq![v]);
        encode_utf8_valid_utf8(seq![v]);
        lemma_encode_one(v);
        assert forall|p: Place| p.depth + room <= u32::MAX implies #[trigger] (&v).json(p) == (
            separator(p) + layout(Json::Text(b), p.indent, p.depth as int),
            after_value(p),
        ) by {
            law_calls_text(p, b);
        }
    }
    assert forall|v: bool| #[trigger] lays_out(&v, room, Json::Bool(v)) by {
        assert forall|p: Place| p.depth + room <= u32::MAX implies #[trigger] (&v).json(p) == (
            separator(p) + layout(Json::Bool(v), p.indent, p.depth as int),
            after_value(p),
        ) by {
            assert(bool_text(v) =~= layout(Json::Bool(v), p.indent, p.depth as int));
        }
    }
    assert forall|p: Place| p.depth + room <= u32::MAX implies #[trigger] (&()).json(p) == (
        separator(p) + layout(Json::Null, p.indent, p.depth as int),
        after_value(p),
    ) by {
        assert(word_null() =~= layout(Json::Null, p.indent, p.depth as int));
    }
}

/// Integers of every type are laid out as numbers that are these integers.
pub proof fn law_lays_out_integer(room: int)
    ensures
        forall|v: u8|
            {
                &&& #[trigger] lays_out(&v, room, Json::Number(encoding(&v)))
                &&& is_integer(encoding(&v), v as int)
            },
        forall|v: u16|
            {
                &&& #[trigger] lays_out(&v, room, Json::Number(encoding(&v)))
                &&& is_integer(encoding(&v), v as int)
            },
        forall|v: u32|
            {
                &&& #[trigger] lays_out(&v, room, Json::Number(encoding(&v)))
                &&& is_integer(encoding(&v), v as int)
            },
        forall|v: u64|
            {
                &&& #[trigger] lays_out(&v, room, Json::Number(encoding(&v)))
                &&& is_integer(encoding(&v), v as int)
            },
        forall|v: u128|
            {
                &&& #[trigger] lays_out(&v, room, Json::Number(encoding(&v)))
                &&& is_integer(encoding(&v), v as int)
            },
        forall|v: usize|
            {
                &&& #[trigger] lays_out(&v, room, Json::Number(encoding(&v)))
                &&& is_integer(encoding(&v), v as int)
            },
        forall|v: i8|
            {
                &&& #[trigger] lays_out(&v, room, Json::Number(encoding(&v)))
                &&& is_integer(encoding(&v), v as int)
            },
        forall|v: i16|
            {
                &&& #[trigger] lays_out(&v, room, Json::Number(encoding(&v)))
                &&& is_integer(encoding(&v), v as int)
            },
        forall|v: i32|
            {
                &&& #[trigger] lays_out(&v, room, Json::Number(encoding(&v)))
                &&& is_integer(encoding(&v), v as int)
            },
        forall|v: i64|
            {
                &&& #[trigger] lays_out(&v, room, Json::Number(encoding(&v)))
                &&& is_integer(encoding(&v), v as int)
            },
        forall|v: i128|
            {
                &&& #[trigger] lays_out(&v, room, Json::Number(encoding(&v)))
                &&& is_integer(encoding(&v), v as int)
            },
        forall|v: isize|
            {
                &&& #[trigger] lays_out(&v, room, Json::Number(encoding(&v)))
                &&& is_integer(encoding(&v), v as int)
            },
{
    law_encodes_integer();
    assert forall|v: u8| #[trigger] lays_out(&v, room, Json::Number(encoding(&v))) by {
        assert(encoding(&v) =~= integer_text(v as int));
    }
    assert forall|v: u16| #[trigger] lays_out(&v, room, Json::Number(encoding(&v))) by {
        assert(encoding(&v) =~= integer_text(v as int));
    }
    assert forall|v: u32| #[trigger] lays_out(&v, room, Json::Number(encoding(&v))) by {
        assert(encoding(&v) =~= integer_text(v as int));
    }
    assert forall|v: u64| #[trigger] lays_out(&v, room, Json::Number(encoding(&v))) by {
        assert(encoding(&v) =~= integer_text(v as int));
    }
    assert forall|v: u128| #[trigger] lays_out(&v, room, Json::Number(encoding(&v))) by {
        assert(encoding(&v) =~= integer_text(v as int));
    }
    assert forall|v: usize| #[trigger] lays_out(&v, room, Json::Number(encoding(&v))) by {
        assert(encoding(&v) =~= integer_text(v as int));
    }
    assert forall|v: i8| #[trigger] lays_out(&v, room, Json::Number(encoding(&v))) by {
        assert(encoding(&v) =~= integer_text(v as int));
    }
    assert forall|v: i16| #[trigger] lays_out(&v, room, Json::Number(encoding(&v))) by {
        assert(encoding(&v) =~= integer_text(v as int));
    }
    assert forall|v: i32| #[trigger] lays_out(&v, room, Json::Number(encoding(&v))) by {
        assert(encoding(&v) =~= integer_text(v as int));
    }
    assert forall|v: i64| #[trigger] lays_out(&v, room, Json::Number(encoding(&v))) by {
        assert(encoding(&v) =~= integer_text(v as int));
    }
    assert forall|v: i128| #[trigger] lays_out(&v, room, Json::Number(encoding(&v))) by {
        assert(encoding(&v) =~= integer_text(v as int));
    }
    assert forall|v: isize| #[trigger] lays_out(&v, room, Json::Number(encoding(&v))) by {
        assert(encoding(&v) =~= integer_text(v as int));
    }
}

/// An optional value is laid out as the value, or as `null`.
pub proof fn law_lays_out_option<T: ToJson>(v: Option<T>, room: int, t: Json)
    requires
        v matches Some(x) ==> lays_out(&x, room, t),
        v is None ==> t == Json::Null,
    ensures
        lays_out(&v, room, t),
{
    assert forall|p: Place| p.depth + room <= u32::MAX implies #[trigger] (&v).json(p) == (
        separator(p) + layout(t, p.indent, p.depth as int),
        after_value(p),
    ) by {
        match v {
            Some(x) => {
                assert((&v).json(p) == (&x).json(p));
            },
            None => {
                assert(word_null() =~= layout(t, p.indent, p.depth as int));
            },
        }
    }
}

/// A reference is laid out as what it refers to.
pub proof fn law_lays_out_ref<T: ToJson + ?Sized>(v: &T, room: int, t: Json)
    requires
        lays_out(v, room, t),
    ensures
        lays_out(&v, room, t),
{
    assert forall|p: Place| p.depth + room <= u32::MAX implies #[trigger] (&v).json(p) == (
        separator(p) + layout(t, p.indent, p.depth as int),
        after_value(p),
    ) by {
        assert((&v).json(p) == v.json(p));
    }
}

/// Text that is JSON already is put down as it is.
pub proof fn law_raw(v: RawJson<'_>, p: Place)
    ensures
        (&v).json(p) == (separator(p) + v.0.spec_bytes(), after_value(p)),
{
}

/// The elements of an array up to number `n`, in front of what else there is of it.
proof fn lemma_elements_layout<T: ToJson>(s: Seq<T>, t: Json, n: int, p: Place, room: int)
    requires
        t is Array,
        parts(t).len() == s.len(),
        0 <= n <= s.len(),
        0 < p.depth,
        p.pos == Pos::Start,
        p.depth + room <= u32::MAX,
        forall|i: int| 0 <= i < s.len() ==> #[trigger] lays_out(&s[i], room, parts(t)[i].value),
    ensures
        elements_json(s.subrange(0, n), p).0 + layout_from(t, n, p.indent, p.depth - 1)
            == layout_from(t, 0, p.indent, p.depth - 1),
        elements_json(s.subrange(0, n), p).1 == (if n == 0 {
            p
        } else {
            after_value(p)
        }),
    decreases n,
{
    let sub = s.subrange(0, n);
    if n == 0 {
        assert(sub =~= Seq::<T>::empty());
        assert(elements_json(sub, p).0 + layout_from(t, n, p.indent, p.depth - 1) =~= layout_from(
            t,
            0,
            p.indent,
            p.depth - 1,
        ));
    } else {
        lemma_elements_layout(s, t, n - 1, p, room);
        assert(sub.drop_last() =~= s.subrange(0, n - 1));
        let init = elements_json(s.subrange(0, n - 1), p);
        let x = s[n - 1];
        assert(lays_out(&s[n - 1], room, parts(t)[n - 1].value));
        assert((&x).json(init.1) == (
            separator(init.1) + layout(parts(t)[n - 1].value, p.indent, p.depth as int),
            after_value(init.1),
        ));
        lemma_line(p);
        let v = layout(parts(t)[n - 1].value, p.indent, p.depth as int);
        let more = layout_from(t, n, p.indent, p.depth - 1);
        let lead = if n == 1 {
            Seq::<u8>::empty()
        } else {
            seq![',' as u8]
        };
        assert(separator(init.1) =~= lead + line(p.indent, p.depth as int));
        assert(key_of(t, n - 1, p.indent) =~= Seq::<u8>::empty());
        assert(layout_from(t, n - 1, p.indent, p.depth - 1) =~= separator(init.1) + v + more);
        assert(init.0 + (separator(init.1) + v) + more =~= init.0 + (separator(init.1) + v + more));
    }
}

/// An array is laid out with its elements.
proof fn lemma_array_layout<T: ToJson>(s: Seq<T>, ts: Seq<Json>, room: int, p: Place)
    requires
        s.len() == ts.len(),
        0 <= room,
        p.depth + room + 1 <= u32::MAX,
        forall|i: int| 0 <= i < s.len() ==> #[trigger] lays_out(&s[i], room, ts[i]),
    ensures
        array_json(s, p) == (
            separator(p) + layout(Json::Array(unnamed(ts)), p.indent, p.depth as int),
            after_value(p),
        ),
{
    let t = Json::Array(unnamed(ts));
    let n = s.len() as int;
    assert forall|i: int| 0 <= i < s.len() implies #[trigger] lays_out(
        &s[i],
        room,
        parts(t)[i].value,
    ) by {
        assert(parts(t)[i].value == ts[i]);
    }
    lemma_elements_layout(s, t, n, inside(p), room);
    assert(s.subrange(0, n) =~= s);
    let items = elements_json(s, inside(p));
    law_calls(p, ']' as u8);
    assert(close_text(items.1, ']' as u8) =~= layout_from(t, n, p.indent, p.depth as int));
    assert(array_json(s, p).0 =~= separator(p) + layout(t, p.indent, p.depth as int));
}

/// The items of an array of `ts`.
pub open spec fn unnamed(ts: Seq<Json>) -> Seq<Item> {
    Seq::new(ts.len(), |i: int| Item { name: Seq::empty(), value: ts[i] })
}

/// A slice is laid out as an array of what its elements are laid out as.
pub proof fn law_lays_out_slice<T: ToJson>(v: &[T], ts: Seq<Json>, room: int)
    requires
        v@.len() == ts.len(),
        0 <= room,
        forall|i: int| 0 <= i < v@.len() ==> #[trigger] lays_out(&v@[i], room, ts[i]),
    ensures
        lays_out(v, room + 1, Json::Array(unnamed(ts))),
{
    assert forall|p: Place| p.depth + room + 1 <= u32::MAX implies #[trigger] v.json(p) == (
        separator(p) + layout(Json::Array(unnamed(ts)), p.indent, p.depth as int),
        after_value(p),
    ) by {
        lemma_array_layout(v@, ts, room, p);
    }
}

/// An array is laid out as one of what its elements are laid out as.
pub proof fn law_lays_out_array<T: ToJson, const M: usize>(v: &[T; M], ts: Seq<Json>, room: int)
    requires
        v@.len() == ts.len(),
        0 <= room,
        forall|i: int| 0 <= i < v@.len() ==> #[trigger] lays_out(&v@[i], room, ts[i]),
    ensures
        lays_out(v, room + 1, Json::Array(unnamed(ts))),
{
    assert forall|p: Place| p.depth + room + 1 <= u32::MAX implies #[trigger] v.json(p) == (
        separator(p) + layout(Json::Array(unnamed(ts)), p.indent, p.depth as int),
        after_value(p),
    ) by {
        lemma_array_layout(v@, ts, room, p);
    }
}

/// The items of an object of `ts`, with the names that stand beside the values.
pub open spec fn named<T>(s: Seq<(&str, T)>, ts: Seq<Json>) -> Seq<Item> {
    Seq::new(ts.len(), |i: int| Item { name: s[i].0.spec_bytes(), value: ts[i] })
}

/// The members of an object up to number `n`, in front of what else there is of it.
proof fn lemma_members_layout<T: ToJson>(
    s: Seq<(&str, T)>,
    ts: Seq<Json>,
    n: int,
    p: Place,
    room: int,
)
    requires
        ts.len() == s.len(),
        0 <= n <= s.len(),
        0 < p.depth,
        p.pos == Pos::Start,
        p.depth + room <= u32::MAX,
        forall|i: int| 0 <= i < s.len() ==> #[trigger] lays_out(&s[i].1, room, ts[i]),
    ensures
        ({
            let t = Json::Object(named(s, ts));
            &&& members_json(s.subrange(0, n), p).0 + layout_from(t, n, p.indent, p.depth - 1)
                == layout_from(t, 0, p.indent, p.depth - 1)
            &&& members_json(s.subrange(0, n), p).1 == (if n == 0 {
                p
            } else {
                after_value(p)
            })
        }),
    decreases n,
{
    let t = Json::Object(named(s, ts));
    let sub = s.subrange(0, n);
    if n == 0 {
        assert(sub =~= Seq::<(&str, T)>::empty());
        assert(members_json(sub, p).0 + layout_from(t, n, p.indent, p.depth - 1) =~= layout_from(
            t,
            0,
            p.indent,
            p.depth - 1,
        ));
    } else {
        lemma_members_layout(s, ts, n - 1, p, room);
        assert(sub.drop_last() =~= s.subrange(0, n - 1));
        let init = members_json(s.subrange(0, n - 1), p);
        let x = s[n - 1].1;
        let q = after_key(init.1);
        let name = s[n - 1].0.spec_bytes();
        encode_utf8_valid_utf8(s[n - 1].0@);
        assert(lays_out(&s[n - 1].1, room, ts[n - 1]));
        let v = layout(ts[n - 1], p.indent, p.depth as int);
        assert((&x).json(q) == (separator(q) + v, after_value(q)));
        assert(separator(q) =~= Seq::<u8>::empty());
        lemma_line(p);
        law_calls_text(init.1, name);
        let more = layout_from(t, n, p.indent, p.depth - 1);
        let lead = if n == 1 {
            Seq::<u8>::empty()
        } else {
            seq![',' as u8]
        };
        let sep = separator(init.1);
        let key = key_of(t, n - 1, p.indent);
        assert(sep =~= lead + line(p.indent, p.depth as int));
        assert(parts(t)[n - 1].name == name);
        assert(parts(t)[n - 1].value == ts[n - 1]);
        assert(key_text(init.1, name) =~= sep + key);
        assert(layout_from(t, n - 1, p.indent, p.depth - 1) =~= sep + key + v + more);
        assert(init.0 + ((sep + key) + (separator(q) + v)) + more =~= init.0 + (sep + key + v
            + more));
    }
}

/// An object is laid out as one of what its values are laid out as, with their names.
pub proof fn law_lays_out_object<'a, T: ToJson>(v: Object<'a, T>, ts: Seq<Json>, room: int)
    requires
        v.0@.len() == ts.len(),
        0 <= room,
        forall|i: int| 0 <= i < v.0@.len() ==> #[trigger] lays_out(&v.0@[i].1, room, ts[i]),
    ensures
        lays_out(&v, room + 1, Json::Object(named(v.0@, ts))),
{
    let s = v.0@;
    let n = s.len() as int;
    let t = Json::Object(named(s, ts));
    assert forall|p: Place| p.depth + room + 1 <= u32::MAX implies #[trigger] (&v).json(p) == (
        separator(p) + layout(t, p.indent, p.depth as int),
        after_value(p),
    ) by {
        lemma_members_layout(s, ts, n, inside(p), room);
        assert(s.subrange(0, n) =~= s);
        let items = members_json(s, inside(p));
        law_calls(p, '}' as u8);
        assert(close_text(items.1, '}' as u8) =~= layout_from(t, n, p.indent, p.depth as int));
        assert(object_json(s, p).0 =~= separator(p) + layout(t, p.indent, p.depth as int));
    }
}

} // verus!
