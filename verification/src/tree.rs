//! What a JSON document means: a tree of values, and what reading and editing do to it.

use vstd::prelude::*;

use crate::error::ErrorKind;
use crate::grammar::{
    byte, digit_at, escape, exponent, fraction, hex, hex_digit, is_digit, is_exponent_mark,
    is_plain, is_sign, is_space, lemma_escape, lemma_exponent, lemma_fraction, lemma_hex4,
    lemma_next_token, lemma_number, lemma_rest, lemma_skip_digits, lemma_skip_space, lemma_text,
    lemma_unit, lemma_utf8_end, lemma_value, lemma_word_end, next_token, number, rest, separator,
    skip_digits, skip_space, starts_value, text, unit, utf8_end, utf8_len, value, value_end,
    value_token, word_end, word_of, Fault, Met, BACKSLASH, DOT, MINUS, QUOTE,
};
use crate::parser::{State, Token};

verus! {

/// A JSON value. A number is its text; a string is the UTF-8 bytes it stands for.
pub enum Json {
    Null,
    Bool(bool),
    Number(Seq<u8>),
    Text(Seq<u8>),
    /// The elements, in order, with empty names.
    Array(Seq<Item>),
    /// The members, in order.
    Object(Seq<Item>),
}

/// A member of an object, or an element of an array.
pub struct Item {
    pub name: Seq<u8>,
    pub value: Json,
}

/// The value that starts at `i` and may nest `room` levels deep.
pub open spec fn tree(s: Seq<u8>, i: int, room: int) -> Json
    decreases s.len() - i, 0int,
{
    if !(0 <= i < s.len()) {
        Json::Null
    } else {
        match value_token(s[i]) {
            Some(Token::BeginObject) => Json::Object(
                items(s, i + 1, State::ObjFirst, room - 1, Seq::empty()),
            ),
            Some(Token::BeginArray) => Json::Array(
                items(s, i + 1, State::ArrFirst, room - 1, Seq::empty()),
            ),
            Some(Token::String) => Json::Text(text(s, i + 1)->Ok_0.1),
            Some(Token::Number) => Json::Number(s.subrange(i, number(s, i)->Ok_0)),
            Some(Token::Bool) => Json::Bool(s[i] == 0x74),
            _ => Json::Null,
        }
    }
}

/// What is left of the innermost open container, from `i` on, where `state` is what is expected
/// there; `name` is the key that was read before, if any.
pub open spec fn items(s: Seq<u8>, i: int, state: State, room: int, name: Seq<u8>) -> Seq<Item>
    decreases s.len() - i, 1int,
{
    match if 0 <= i <= s.len() {
        next_token(s, i, state, false)
    } else {
        Err(Fault { kind: ErrorKind::UnexpectedEof, at: i })
    } {
        Err(f) => Seq::empty(),
        Ok(m) => {
            proof {
                lemma_next_token(s, i, state, false);
                if m.at < s.len() {
                    lemma_text(s, m.at + 1);
                    lemma_value(s, m.at, room);
                }
            }
            if m.token == Token::Key {
                match text(s, m.at + 1) {
                    Err(f) => Seq::empty(),
                    Ok((k, t)) => items(s, k, State::ObjColon, room, t),
                }
            } else if starts_value(m.token) {
                match value(s, m.at, room) {
                    Err(f) => Seq::empty(),
                    Ok(k) => seq![Item { name, value: tree(s, m.at, room) }] + items(
                        s,
                        k,
                        value_end(m.state),
                        room,
                        Seq::empty(),
                    ),
                }
            } else {
                Seq::empty()
            }
        },
    }
}

/// The bytes of `s` from `i` to `k` stand in `t` too, `d` further on.
pub open spec fn same(s: Seq<u8>, t: Seq<u8>, d: int, i: int, k: int) -> bool {
    &&& 0 <= i <= k <= s.len()
    &&& 0 <= i + d
    &&& k + d <= t.len()
    &&& forall|x: int| i <= x < k ==> #[trigger] s[x] == t[x + d]
}

/// No number that ends at `i` could go on there.
pub open spec fn ends(s: Seq<u8>, i: int) -> bool {
    0 <= i < s.len() ==> !is_digit(s[i]) && s[i] != DOT && !is_exponent_mark(s[i])
}

pub(crate) proof fn lemma_same_space(s: Seq<u8>, t: Seq<u8>, d: int, i: int, k: int)
    requires
        same(s, t, d, i, k),
        skip_space(s, i) < k,
    ensures
        skip_space(t, i + d) == skip_space(s, i) + d,
    decreases k - i,
{
    lemma_skip_space(s, i);
    if i < k {
        assert(s[i] == t[i + d]);
        if is_space(s[i]) {
            lemma_same_space(s, t, d, i + 1, k);
        }
    }
}

/// White space up to `k`, and none there in `t`.
pub(crate) proof fn lemma_same_space_end(s: Seq<u8>, t: Seq<u8>, d: int, i: int, k: int)
    requires
        same(s, t, d, i, k),
        skip_space(s, i) == k,
        k + d < t.len() ==> !is_space(t[k + d]),
    ensures
        skip_space(t, i + d) == k + d,
    decreases k - i,
{
    lemma_skip_space(s, i);
    if i < k {
        assert(s[i] == t[i + d]);
        lemma_same_space_end(s, t, d, i + 1, k);
    }
}

proof fn lemma_same_digits(s: Seq<u8>, t: Seq<u8>, d: int, i: int)
    requires
        same(s, t, d, i, skip_digits(s, i)),
        !digit_at(t, skip_digits(s, i) + d),
    ensures
        skip_digits(t, i + d) == skip_digits(s, i) + d,
    decreases skip_digits(s, i) - i,
{
    lemma_skip_digits(s, i);
    if i < skip_digits(s, i) {
        assert(s[i] == t[i + d]);
        lemma_same_digits(s, t, d, i + 1);
    }
}

proof fn lemma_same_exponent(s: Seq<u8>, t: Seq<u8>, d: int, i: int, k: int)
    requires
        exponent(s, i) == Ok::<int, Fault>(k),
        same(s, t, d, i, k),
        ends(t, k + d),
    ensures
        exponent(t, i + d) == Ok::<int, Fault>(k + d),
{
    lemma_exponent(s, i);
    if i < s.len() && is_exponent_mark(s[i]) {
        let j = if i + 1 < s.len() && is_sign(s[i + 1]) {
            i + 2
        } else {
            i + 1
        };
        lemma_skip_digits(s, j);
        assert(s[i] == t[i + d]);
        assert(s[i + 1] == t[i + 1 + d]);
        assert(s[j] == t[j + d]);
        lemma_same_digits(s, t, d, j);
    }
}

proof fn lemma_same_fraction(s: Seq<u8>, t: Seq<u8>, d: int, i: int, k: int)
    requires
        fraction(s, i) == Ok::<int, Fault>(k),
        same(s, t, d, i, k),
        ends(t, k + d),
    ensures
        fraction(t, i + d) == Ok::<int, Fault>(k + d),
{
    if byte(s, i) != Some(DOT) {
        lemma_exponent(s, i);
        lemma_same_exponent(s, t, d, i, k);
        if i < k {
            assert(s[i] == t[i + d]);
        }
    } else {
        let j = skip_digits(s, i + 1);
        lemma_skip_digits(s, i + 1);
        lemma_exponent(s, j);
        assert(s[i] == t[i + d]);
        assert(s[i + 1] == t[i + 1 + d]);
        if j < k {
            assert(s[j] == t[j + d]);
        }
        lemma_same_exponent(s, t, d, j, k);
        lemma_same_digits(s, t, d, i + 1);
    }
}

proof fn lemma_same_number(s: Seq<u8>, t: Seq<u8>, d: int, i: int, k: int)
    requires
        number(s, i) == Ok::<int, Fault>(k),
        same(s, t, d, i, k),
        ends(t, k + d),
    ensures
        number(t, i + d) == Ok::<int, Fault>(k + d),
{
    lemma_number(s, i);
    assert(s[i] == t[i + d]);
    let a = if byte(s, i) == Some(MINUS) {
        i + 1
    } else {
        i
    };
    assert(digit_at(s, a));
    lemma_skip_digits(s, a);
    let b = if s[a] == 0x30 {
        a + 1
    } else {
        skip_digits(s, a)
    };
    lemma_fraction(s, b);
    assert(s[a] == t[a + d]);
    lemma_same_fraction(s, t, d, b, k);
    if s[a] != 0x30 {
        if b < k {
            assert(s[b] == t[b + d]);
        }
        lemma_same_digits(s, t, d, a);
    }
}

proof fn lemma_same_word(s: Seq<u8>, t: Seq<u8>, d: int, i: int, word: Seq<u8>, k: int)
    requires
        0 <= k <= word.len(),
        word_end(s, i, word, k) is Ok,
        same(s, t, d, i, word_end(s, i, word, k)->Ok_0),
    ensures
        word_end(t, i + d, word, k) == Ok::<int, Fault>(word_end(s, i, word, k)->Ok_0 + d),
    decreases word.len() - k,
{
    lemma_word_end(s, i, word, k);
    if k < word.len() {
        assert(s[i] == t[i + d]);
        lemma_same_word(s, t, d, i + 1, word, k + 1);
    }
}

proof fn lemma_same_hex(s: Seq<u8>, t: Seq<u8>, d: int, i: int, n: nat, v: int)
    requires
        hex(s, i, n, v) is Ok,
        same(s, t, d, i, i + n),
    ensures
        hex(t, i + d, n, v) == hex(s, i, n, v),
    decreases n,
{
    if n > 0 {
        assert(s[i] == t[i + d]);
        lemma_same_hex(s, t, d, i + 1, (n - 1) as nat, v * 16 + hex_digit(s[i])->Some_0);
    }
}

proof fn lemma_same_escape(s: Seq<u8>, t: Seq<u8>, d: int, i: int)
    requires
        0 <= i <= s.len(),
        escape(s, i) is Ok,
        same(s, t, d, i, escape(s, i)->Ok_0.0),
    ensures
        escape(t, i + d) == Ok::<(int, int), Fault>(
            (escape(s, i)->Ok_0.0 + d, escape(s, i)->Ok_0.1),
        ),
{
    lemma_escape(s, i);
    assert(s[i] == t[i + d]);
    if s[i] == 0x75 {
        lemma_hex4(s, i + 1);
        lemma_same_hex(s, t, d, i + 1, 4, 0);
        if escape(s, i)->Ok_0.0 > i + 5 {
            lemma_hex4(s, i + 7);
            assert(s[i + 5] == t[i + 5 + d]);
            assert(s[i + 6] == t[i + 6 + d]);
            lemma_same_hex(s, t, d, i + 7, 4, 0);
        }
    }
}

proof fn lemma_same_utf8(s: Seq<u8>, t: Seq<u8>, d: int, i: int, k: int)
    requires
        0 <= i < s.len(),
        1 <= k <= utf8_len(s[i]),
        i + k <= s.len(),
        utf8_end(s, i, k) is Ok,
        same(s, t, d, i, i + utf8_len(s[i])),
    ensures
        utf8_end(t, i + d, k) == Ok::<int, Fault>(i + utf8_len(s[i]) + d),
        utf8_end(s, i, k) == Ok::<int, Fault>(i + utf8_len(s[i])),
    decreases utf8_len(s[i]) - k,
{
    assert(s[i] == t[i + d]);
    if k < utf8_len(s[i]) {
        assert(s[i + k] == t[i + k + d]);
        lemma_same_utf8(s, t, d, i, k + 1);
    }
}

proof fn lemma_same_unit(s: Seq<u8>, t: Seq<u8>, d: int, i: int)
    requires
        0 <= i < s.len(),
        unit(s, i) is Ok,
        same(s, t, d, i, unit(s, i)->Ok_0.0),
    ensures
        unit(t, i + d) == Ok::<(int, Seq<u8>), Fault>(
            (unit(s, i)->Ok_0.0 + d, unit(s, i)->Ok_0.1),
        ),
{
    lemma_unit(s, i);
    assert(s[i] == t[i + d]);
    if is_plain(s[i]) {
    } else if s[i] == BACKSLASH {
        lemma_same_escape(s, t, d, i + 1);
    } else {
        let k = unit(s, i)->Ok_0.0;
        lemma_utf8_end(s, i, 1);
        lemma_same_utf8(s, t, d, i, 1);
        assert(s.subrange(i, k) =~= t.subrange(i + d, k + d)) by {
            assert forall|x: int| 0 <= x < k - i implies s.subrange(i, k)[x] == t.subrange(
                i + d,
                k + d,
            )[x] by {
                assert(s[i + x] == t[i + x + d]);
            }
        }
    }
}

pub(crate) proof fn lemma_same_text(s: Seq<u8>, t: Seq<u8>, d: int, i: int)
    requires
        text(s, i) is Ok,
        same(s, t, d, i, text(s, i)->Ok_0.0),
    ensures
        text(t, i + d) == Ok::<(int, Seq<u8>), Fault>(
            (text(s, i)->Ok_0.0 + d, text(s, i)->Ok_0.1),
        ),
    decreases s.len() - i,
{
    lemma_text(s, i);
    assert(s[i] == t[i + d]);
    if s[i] != QUOTE {
        lemma_unit(s, i);
        let k = unit(s, i)->Ok_0.0;
        lemma_text(s, k);
        lemma_same_unit(s, t, d, i);
        lemma_same_text(s, t, d, k);
    }
}

/// A token is met again where the same bytes stand.
pub(crate) proof fn lemma_same_token(s: Seq<u8>, t: Seq<u8>, d: int, i: int, state: State)
    requires
        next_token(s, i, state, false) is Ok,
        next_token(s, i, state, false)->Ok_0.token != Token::Eof,
        same(s, t, d, i, next_token(s, i, state, false)->Ok_0.at + 1),
    ensures
        next_token(t, i + d, state, false) == Ok::<Met, Fault>(
            Met {
                at: next_token(s, i, state, false)->Ok_0.at + d,
                ..next_token(s, i, state, false)->Ok_0
            },
        ),
{
    let m = next_token(s, i, state, false)->Ok_0;
    lemma_next_token(s, i, state, false);
    lemma_skip_space(s, i);
    let j = skip_space(s, i);
    if j < s.len() {
        lemma_skip_space(s, j + 1);
    }
    lemma_same_space(s, t, d, i, m.at + 1);
    assert(s[j] == t[j + d]);
    if separator(state, s[j]) is Some {
        lemma_same_space(s, t, d, j + 1, m.at + 1);
    }
    assert(s[m.at] == t[m.at + d]);
}

/// What follows a value in a container does not go on with a number.
proof fn lemma_follows(s: Seq<u8>, k: int, state: State)
    requires
        0 <= k <= s.len(),
        state == State::ArrComma || state == State::ObjComma,
        next_token(s, k, state, false) is Ok,
    ensures
        k < s.len(),
        ends(s, k),
{
    lemma_skip_space(s, k);
    lemma_next_token(s, k, state, false);
}

/// A key in a container, and what follows it.
pub(crate) proof fn lemma_rest_key(s: Seq<u8>, i: int, state: State, room: int, name: Seq<u8>) -> (r: (
    int,
    int,
    Seq<u8>,
))
    requires
        rest(s, i, state, room) is Ok,
        next_token(s, i, state, false)->Ok_0.token == Token::Key,
    ensures
        ({
            let (at, k, n) = r;
            &&& 0 <= i <= at == next_token(s, i, state, false)->Ok_0.at
            &&& at + 1 < k < rest(s, i, state, room)->Ok_0 <= s.len()
            &&& text(s, at + 1) == Ok::<(int, Seq<u8>), Fault>((k, n))
            &&& rest(s, k, State::ObjColon, room) == rest(s, i, state, room)
            &&& items(s, i, state, room, name) == items(s, k, State::ObjColon, room, n)
            &&& forall|x: nat| #[trigger]
                place(s, i, state, room, x) == place(s, k, State::ObjColon, room, x)
        }),
{
    let m = next_token(s, i, state, false)->Ok_0;
    lemma_next_token(s, i, state, false);
    lemma_text(s, m.at + 1);
    let (k, n) = text(s, m.at + 1)->Ok_0;
    lemma_rest(s, k, State::ObjColon, room);
    (m.at, k, n)
}

/// A value in a container, and what follows it.
pub(crate) proof fn lemma_rest_value(s: Seq<u8>, i: int, state: State, room: int, name: Seq<u8>) -> (r: (
    int,
    int,
    State,
))
    requires
        rest(s, i, state, room) is Ok,
        starts_value(next_token(s, i, state, false)->Ok_0.token),
    ensures
        ({
            let (at, k, next) = r;
            &&& 0 <= i <= at == next_token(s, i, state, false)->Ok_0.at
            &&& at < k < rest(s, i, state, room)->Ok_0 <= s.len()
            &&& value(s, at, room) == Ok::<int, Fault>(k)
            &&& next == value_end(next_token(s, i, state, false)->Ok_0.state)
            &&& next == State::ArrComma || next == State::ObjComma
            &&& ends(s, k)
            &&& rest(s, k, next, room) == rest(s, i, state, room)
            &&& items(s, i, state, room, name) == seq![Item { name, value: tree(s, at, room) }]
                + items(s, k, next, room, Seq::empty())
            &&& place(s, i, state, room, 0) == at
            &&& forall|x: nat|
                x > 0 ==> #[trigger] place(s, i, state, room, x) == place(
                    s,
                    k,
                    next,
                    room,
                    (x - 1) as nat,
                )
        }),
{
    let m = next_token(s, i, state, false)->Ok_0;
    lemma_next_token(s, i, state, false);
    lemma_value(s, m.at, room);
    let k = value(s, m.at, room)->Ok_0;
    let next = value_end(m.state);
    lemma_rest(s, k, next, room);
    if next == State::TopDone {
        lemma_next_token(s, k, next, false);
    } else {
        lemma_follows(s, k, next);
    }
    (m.at, k, next)
}

/// A value is the same where the same bytes stand, if no number could go on behind it.
pub proof fn lemma_same_value(s: Seq<u8>, t: Seq<u8>, d: int, i: int, room: int)
    requires
        value(s, i, room) is Ok,
        same(s, t, d, i, value(s, i, room)->Ok_0),
        ends(t, value(s, i, room)->Ok_0 + d),
    ensures
        value(t, i + d, room) == Ok::<int, Fault>(value(s, i, room)->Ok_0 + d),
        tree(t, i + d, room) == tree(s, i, room),
    decreases s.len() - i, 0int,
{
    let k = value(s, i, room)->Ok_0;
    lemma_value(s, i, room);
    assert(s[i] == t[i + d]);
    match value_token(s[i]) {
        Some(Token::BeginObject) => {
            lemma_same_rest(s, t, d, i + 1, State::ObjFirst, room - 1, Seq::empty());
        },
        Some(Token::BeginArray) => {
            lemma_same_rest(s, t, d, i + 1, State::ArrFirst, room - 1, Seq::empty());
        },
        Some(Token::String) => {
            lemma_same_text(s, t, d, i + 1);
        },
        Some(Token::Number) => {
            lemma_same_number(s, t, d, i, k);
            assert(s.subrange(i, k) =~= t.subrange(i + d, k + d)) by {
                assert forall|x: int| 0 <= x < k - i implies s.subrange(i, k)[x] == t.subrange(
                    i + d,
                    k + d,
                )[x] by {
                    assert(s[i + x] == t[i + x + d]);
                }
            }
        },
        _ => {
            lemma_same_word(s, t, d, i, word_of(s[i]), 0);
        },
    }
}

/// The rest of a container is the same where the same bytes stand.
pub proof fn lemma_same_rest(
    s: Seq<u8>,
    t: Seq<u8>,
    d: int,
    i: int,
    state: State,
    room: int,
    name: Seq<u8>,
)
    requires
        rest(s, i, state, room) is Ok,
        same(s, t, d, i, rest(s, i, state, room)->Ok_0),
    ensures
        rest(t, i + d, state, room) == Ok::<int, Fault>(rest(s, i, state, room)->Ok_0 + d),
        items(t, i + d, state, room, name) == items(s, i, state, room, name),
    decreases s.len() - i, 1int,
{
    let m = next_token(s, i, state, false)->Ok_0;
    lemma_rest(s, i, state, room);
    lemma_next_token(s, i, state, false);
    if m.token == Token::EndObject || m.token == Token::EndArray {
        lemma_same_token(s, t, d, i, state);
    } else if m.token == Token::Key {
        let (at, k, n) = lemma_rest_key(s, i, state, room, name);
        lemma_same_token(s, t, d, i, state);
        lemma_same_text(s, t, d, at + 1);
        lemma_same_rest(s, t, d, k, State::ObjColon, room, n);
    } else {
        let (at, k, next) = lemma_rest_value(s, i, state, room, name);
        lemma_same_token(s, t, d, i, state);
        assert(s[k] == t[k + d]);
        lemma_same_value(s, t, d, at, room);
        lemma_same_rest(s, t, d, k, next, room, Seq::empty());
    }
}

/// Where the value number `n` starts in what is left of the innermost open container.
pub open spec fn place(s: Seq<u8>, i: int, state: State, room: int, n: nat) -> int
    decreases s.len() - i,
{
    match if 0 <= i <= s.len() {
        next_token(s, i, state, false)
    } else {
        Err(Fault { kind: ErrorKind::UnexpectedEof, at: i })
    } {
        Err(f) => -1,
        Ok(m) => {
            proof {
                lemma_next_token(s, i, state, false);
                if m.at < s.len() {
                    lemma_text(s, m.at + 1);
                    lemma_value(s, m.at, room);
                }
            }
            if m.token == Token::Key {
                match text(s, m.at + 1) {
                    Err(f) => -1,
                    Ok((k, _)) => place(s, k, State::ObjColon, room, n),
                }
            } else if starts_value(m.token) {
                if n == 0 {
                    m.at
                } else {
                    match value(s, m.at, room) {
                        Err(f) => -1,
                        Ok(k) => place(s, k, value_end(m.state), room, (n - 1) as nat),
                    }
                }
            } else {
                -1
            }
        },
    }
}

/// The value number `n` stands at its place.
pub(crate) proof fn lemma_place(s: Seq<u8>, i: int, state: State, room: int, name: Seq<u8>, n: nat)
    requires
        rest(s, i, state, room) is Ok,
        n < items(s, i, state, room, name).len(),
    ensures
        ({
            let a = place(s, i, state, room, n);
            &&& 0 <= i <= a < s.len()
            &&& value(s, a, room) matches Ok(b) && a < b < rest(s, i, state, room)->Ok_0 && ends(
                s,
                b,
            )
            &&& tree(s, a, room) == items(s, i, state, room, name)[n as int].value
            &&& value_token(s[a]) is Some
        }),
    decreases s.len() - i,
{
    let m = next_token(s, i, state, false)->Ok_0;
    lemma_next_token(s, i, state, false);
    if m.token == Token::Key {
        let (at, k, t) = lemma_rest_key(s, i, state, room, name);
        lemma_place(s, k, State::ObjColon, room, t, n);
    } else if starts_value(m.token) {
        let (at, k, next) = lemma_rest_value(s, i, state, room, name);
        if n > 0 {
            assert(items(s, i, state, room, name)[n as int] == items(
                s,
                k,
                next,
                room,
                Seq::empty(),
            )[n - 1]);
            lemma_place(s, k, next, room, Seq::empty(), (n - 1) as nat);
        }
    }
}

/// A value is met where another stood.
pub(crate) proof fn lemma_other_token(s: Seq<u8>, t: Seq<u8>, i: int, state: State)
    requires
        next_token(s, i, state, false) is Ok,
        starts_value(next_token(s, i, state, false)->Ok_0.token),
        same(s, t, 0, i, next_token(s, i, state, false)->Ok_0.at),
        next_token(s, i, state, false)->Ok_0.at < t.len(),
        value_token(t[next_token(s, i, state, false)->Ok_0.at]) is Some,
    ensures
        next_token(t, i, state, false) == Ok::<Met, Fault>(
            Met {
                token: value_token(t[next_token(s, i, state, false)->Ok_0.at])->Some_0,
                ..next_token(s, i, state, false)->Ok_0
            },
        ),
{
    let m = next_token(s, i, state, false)->Ok_0;
    lemma_next_token(s, i, state, false);
    lemma_skip_space(s, i);
    let j = skip_space(s, i);
    if separator(state, s[j]) is Some {
        lemma_skip_space(s, j + 1);
        assert(s[j] == t[j + 0]);
        lemma_same_space(s, t, 0, i, m.at);
        lemma_same_space_end(s, t, 0, j + 1, m.at);
    } else {
        lemma_same_space_end(s, t, 0, i, m.at);
    }
}

/// `t` is `s` with the bytes from `a` to `b` replaced by those from `a` to `c`.
#[verifier::opaque]
pub open spec fn swapped(s: Seq<u8>, t: Seq<u8>, a: int, b: int, c: int) -> bool {
    &&& 0 <= a <= b <= s.len()
    &&& a <= c
    &&& t.len() == s.len() + c - b
    &&& same(s, t, 0, 0, a)
    &&& same(s, t, c - b, b, s.len() as int)
}

/// `its`, with another value for number `n`.
pub open spec fn with_value(its: Seq<Item>, n: int, v: Json) -> Seq<Item> {
    its.update(n, Item { name: its[n].name, value: v })
}

/// A key in front of what is left of an object.
pub(crate) proof fn lemma_join_key(
    t: Seq<u8>,
    i: int,
    state: State,
    room: int,
    name: Seq<u8>,
    k: int,
    n: Seq<u8>,
)
    requires
        0 <= i <= t.len(),
        next_token(t, i, state, false) is Ok,
        next_token(t, i, state, false)->Ok_0.token == Token::Key,
        text(t, next_token(t, i, state, false)->Ok_0.at + 1) == Ok::<(int, Seq<u8>), Fault>((k, n)),
    ensures
        rest(t, i, state, room) == rest(t, k, State::ObjColon, room),
        items(t, i, state, room, name) == items(t, k, State::ObjColon, room, n),
        forall|x: nat| #[trigger]
            place(t, i, state, room, x) == place(t, k, State::ObjColon, room, x),
{
}

/// A value in front of what is left of a container.
pub(crate) proof fn lemma_join_value(
    t: Seq<u8>,
    i: int,
    state: State,
    room: int,
    name: Seq<u8>,
    k: int,
)
    requires
        0 <= i <= t.len(),
        next_token(t, i, state, false) is Ok,
        starts_value(next_token(t, i, state, false)->Ok_0.token),
        value(t, next_token(t, i, state, false)->Ok_0.at, room) == Ok::<int, Fault>(k),
    ensures
        ({
            let m = next_token(t, i, state, false)->Ok_0;
            let next = value_end(m.state);
            &&& rest(t, i, state, room) == rest(t, k, next, room)
            &&& items(t, i, state, room, name) == seq![
                Item { name, value: tree(t, m.at, room) },
            ] + items(t, k, next, room, Seq::empty())
            &&& place(t, i, state, room, 0) == m.at
            &&& forall|x: nat|
                x > 0 ==> #[trigger] place(t, i, state, room, x) == place(
                    t,
                    k,
                    next,
                    room,
                    (x - 1) as nat,
                )
        }),
{
    lemma_next_token(t, i, state, false);
    lemma_value(t, next_token(t, i, state, false)->Ok_0.at, room);
}

/// Another value, where one was met.
proof fn lemma_swap_here(
    s: Seq<u8>,
    t: Seq<u8>,
    i: int,
    state: State,
    room: int,
    name: Seq<u8>,
    b: int,
    c: int,
)
    requires
        rest(s, i, state, room) is Ok,
        starts_value(next_token(s, i, state, false)->Ok_0.token),
        ({
            let a = next_token(s, i, state, false)->Ok_0.at;
            &&& value(s, a, room) == Ok::<int, Fault>(b)
            &&& swapped(s, t, a, b, c)
            &&& value(t, a, room) == Ok::<int, Fault>(c)
        }),
    ensures
        ({
            let a = next_token(s, i, state, false)->Ok_0.at;
            &&& rest(t, i, state, room) == Ok::<int, Fault>(
                rest(s, i, state, room)->Ok_0 + c - b,
            )
            &&& items(t, i, state, room, name) == with_value(
                items(s, i, state, room, name),
                0,
                tree(t, a, room),
            )
            &&& place(t, i, state, room, 0) == a
        }),
{
    reveal(swapped);
    let (a, k, next) = lemma_rest_value(s, i, state, room, name);
    lemma_value(t, a, room);
    lemma_other_token(s, t, i, state);
    lemma_join_value(t, i, state, room, name, c);
    lemma_same_rest(s, t, c - b, b, next, room, Seq::empty());
    assert(items(t, i, state, room, name) =~= with_value(
        items(s, i, state, room, name),
        0,
        tree(t, a, room),
    ));
}

/// An item in front of others, one of which has another value.
proof fn lemma_with_value(item: Item, more: Seq<Item>, n: int, v: Json)
    requires
        0 <= n < more.len(),
    ensures
        seq![item] + with_value(more, n, v) == with_value(seq![item] + more, n + 1, v),
{
    assert(seq![item] + with_value(more, n, v) =~= with_value(seq![item] + more, n + 1, v));
}

/// Where one value in a container is replaced by another, the others stay as they are.
pub(crate) proof fn lemma_swap_item(
    s: Seq<u8>,
    t: Seq<u8>,
    i: int,
    state: State,
    room: int,
    name: Seq<u8>,
    n: nat,
    b: int,
    c: int,
)
    requires
        rest(s, i, state, room) is Ok,
        n < items(s, i, state, room, name).len(),
        value(s, place(s, i, state, room, n), room) == Ok::<int, Fault>(b),
        swapped(s, t, place(s, i, state, room, n), b, c),
        value(t, place(s, i, state, room, n), room) == Ok::<int, Fault>(c),
    ensures
        rest(t, i, state, room) == Ok::<int, Fault>(rest(s, i, state, room)->Ok_0 + c - b),
        items(t, i, state, room, name) == with_value(
            items(s, i, state, room, name),
            n as int,
            tree(t, place(s, i, state, room, n), room),
        ),
        place(t, i, state, room, n) == place(s, i, state, room, n),
    decreases s.len() - i,
{
    let a = place(s, i, state, room, n);
    let m = next_token(s, i, state, false)->Ok_0;
    lemma_place(s, i, state, room, name, n);
    assert(same(s, t, 0, 0, a)) by {
        reveal(swapped);
    }
    if m.token == Token::Key {
        let (at, k, w) = lemma_rest_key(s, i, state, room, name);
        lemma_place(s, k, State::ObjColon, room, w, n);
        lemma_same_token(s, t, 0, i, state);
        lemma_same_text(s, t, 0, at + 1);
        lemma_swap_item(s, t, k, State::ObjColon, room, w, n, b, c);
        lemma_join_key(t, i, state, room, name, k, w);
    } else {
        lemma_next_token(s, i, state, false);
        let (at, k, next) = lemma_rest_value(s, i, state, room, name);
        if n == 0 {
            lemma_swap_here(s, t, i, state, room, name, b, c);
        } else {
            let more = items(s, k, next, room, Seq::empty());
            let item = Item { name, value: tree(s, at, room) };
            assert((seq![item] + more).len() == more.len() + 1);
            lemma_place(s, k, next, room, Seq::empty(), (n - 1) as nat);
            lemma_same_token(s, t, 0, i, state);
            assert(s[k] == t[k + 0]);
            lemma_same_value(s, t, 0, at, room);
            lemma_swap_item(s, t, k, next, room, Seq::empty(), (n - 1) as nat, b, c);
            lemma_join_value(t, i, state, room, name, k);
            lemma_with_value(item, more, n - 1, tree(t, a, room));
        }
    }
}

/// A deeper limit changes nothing for what stays within a lower one: a value that may nest `room`
/// levels deep ends at the same place, and means the same, where it may nest deeper.
pub proof fn law_wider(s: Seq<u8>, i: int, room: int, more: int)
    requires
        value(s, i, room) is Ok,
        0 <= i,
        room <= more,
    ensures
        value(s, i, more) == value(s, i, room),
        tree(s, i, more) == tree(s, i, room),
    decreases s.len() - i, 0int,
{
    match value_token(s[i]) {
        Some(Token::BeginObject) => {
            lemma_wider_rest(s, i + 1, State::ObjFirst, room - 1, more - 1, Seq::empty());
        },
        Some(Token::BeginArray) => {
            lemma_wider_rest(s, i + 1, State::ArrFirst, room - 1, more - 1, Seq::empty());
        },
        _ => {},
    }
}

proof fn lemma_wider_rest(s: Seq<u8>, i: int, state: State, room: int, more: int, name: Seq<u8>)
    requires
        rest(s, i, state, room) is Ok,
        0 <= i,
        room <= more,
    ensures
        rest(s, i, state, more) == rest(s, i, state, room),
        items(s, i, state, more, name) == items(s, i, state, room, name),
    decreases s.len() - i, 1int,
{
    let m = next_token(s, i, state, false)->Ok_0;
    lemma_next_token(s, i, state, false);
    if m.token == Token::Key {
        let (at, k, n) = lemma_rest_key(s, i, state, room, name);
        lemma_wider_rest(s, k, State::ObjColon, room, more, n);
    } else if starts_value(m.token) {
        let (at, k, next) = lemma_rest_value(s, i, state, room, name);
        law_wider(s, at, room, more);
        lemma_wider_rest(s, k, next, room, more, Seq::empty());
    }
}

} // verus!
