//! What the parser reads where a value stands, told from the [notation](crate::notation) of the
//! value: laws on the steps of a [cursor](crate::cursor).

use vstd::prelude::*;
use vstd::utf8::encode_utf8;

use crate::cursor::{
    begin, coherent, event, find, finish, leave, lemma_look, lemma_step, look, match_key, member,
    past_string, past_value, peek, raw, read_bool, read_key, read_null, read_num, read_number,
    read_str, room, skip, skip_key, span, Cursor, Doc, Happening, Outcome,
};
use crate::edit_laws::{
    between, inside_at, left_at, lemma_container, lemma_meets_end, lemma_meets_item,
    lemma_meets_member, past_piece, piece_at,
};
use crate::error::ErrorKind;
use crate::grammar::{
    chunk, lemma_skip_space, lemma_text, lemma_unit, lemma_value, pour, skip_space, text, unit,
    value, value_token, Fault,
};
use crate::laws::{
    at_whole, end_at, first_named, lemma_at_value, lemma_at_whole, lemma_find_tree, lemma_whole,
    tree_at,
};
use crate::notation::{
    is_blank, is_over, is_string, law_text_reads, lemma_blank, lemma_blank_skip, lemma_first_of,
    lemma_value_reads, nests, notes, parts, spells_all,
};
use crate::parser::{State, Token};
use crate::path::{step_name, Step};
use crate::path_laws::lemma_first;
use crate::read_laws::{lemma_event, lemma_whole_part};
use crate::splice::{behind, left, lemma_piece, lemma_skip_run, piece, read_item, Piece};
use crate::stack::max_levels;
use crate::string::{law_chunks, lemma_chunk};
use crate::tree::{lemma_place, place, tree, Item, Json};

verus! {

/// The token that a value starts with.
pub open spec fn token_of(t: Json) -> Token {
    match t {
        Json::Null => Token::Null,
        Json::Bool(_) => Token::Bool,
        Json::Number(_) => Token::Number,
        Json::Text(_) => Token::String,
        Json::Array(_) => Token::BeginArray,
        Json::Object(_) => Token::BeginObject,
    }
}

/// Whether the cursor stands right in front of the value `t`, which ends at `b`.
pub open spec fn in_front_of(d: Doc, c: Cursor, b: int, t: Json) -> bool {
    &&& coherent(d, c)
    &&& c.state == State::TopValue || c.state == State::ArrFirst || c.state == State::ArrValue
        || c.state == State::ObjValue
    &&& notes(d.bytes, c.at, b, t)
    &&& nests(t, d.limit - c.stack.len())
    &&& is_over(d.bytes, b)
}

/// The cursor behind a value that ends at `b`, in the same containers.
pub open spec fn behind_value(c: Cursor, b: int) -> Cursor {
    Cursor {
        at: b,
        state: if c.stack.len() == 0 {
            State::TopDone
        } else if c.stack.last() {
            State::ObjComma
        } else {
            State::ArrComma
        },
        stack: c.stack,
        stash: Seq::empty(),
    }
}

/// A method that asks for another kind of value: it is refused, with what it asked for and what is
/// there, and the value is still in front of the cursor.
pub open spec fn refused<T>(o: Outcome<T>, expected: Token, found: Token, c: Cursor) -> bool {
    o == Outcome::<T>::Refused(
        Fault { kind: ErrorKind::TypeMismatch { expected, found }, at: c.at },
        c,
    )
}

/// A value is met as what it is.
pub(crate) proof fn lemma_in_front(d: Doc, c: Cursor, b: int, t: Json)
    requires
        in_front_of(d, c, b, t),
    ensures
        look(d, c) == Ok::<(Token, Cursor), Fault>((token_of(t), c)),
        value(d.bytes, c.at, room(d, c)) == Ok::<int, Fault>(b),
        tree(d.bytes, c.at, room(d, c)) == t,
        c.at < b <= d.bytes.len(),
        c.stash == Seq::<u8>::empty(),
{
    lemma_first_of(d.bytes, c.at, b, t);
    lemma_value_reads(d.bytes, c.at, b, t, room(d, c));
    lemma_at_value(d, c);
    lemma_look(d, c);
    assert(c.stash =~= Seq::<u8>::empty());
}

/// In front of a value, its kind is met, and skipping it leads behind it, with its span and its
/// bytes.
pub proof fn law_value_met(d: Doc, c: Cursor, b: int, t: Json)
    requires
        in_front_of(d, c, b, t),
    ensures
        peek(d, c) == Outcome::Done(token_of(t), c),
        skip(d, c) == Outcome::Done((), behind_value(c, b)),
        span(d, c) == Outcome::Done((c.at, b), behind_value(c, b)),
        raw(d, c) == Outcome::Done(d.bytes.subrange(c.at, b), behind_value(c, b)),
{
    lemma_in_front(d, c, b, t);
}

/// In front of a text, it is read as that text, if it fits in the buffer; in front of another value
/// it is refused.
pub proof fn law_reads_text(d: Doc, c: Cursor, b: int, t: Json, size: nat)
    requires
        in_front_of(d, c, b, t),
    ensures
        match t {
            Json::Text(x) => if x.len() <= size {
                read_str(d, c, size) == Outcome::Done(x, behind_value(c, b))
            } else {
                read_str(d, c, size) matches Outcome::Refused(f, _) && f.kind
                    == ErrorKind::BufferTooSmall
            },
            _ => refused(read_str(d, c, size), Token::String, token_of(t), c),
        },
{
    lemma_in_front(d, c, b, t);
    match t {
        Json::Text(x) => lemma_string_part(d.bytes, c.at, b, x, size),
        _ => {},
    }
}

/// A string is read in one part exactly if its text fits.
proof fn lemma_string_part(s: Seq<u8>, a: int, b: int, x: Seq<u8>, size: nat)
    requires
        is_string(s, a, b, x),
    ensures
        text(s, a + 1) == Ok::<(int, Seq<u8>), Fault>((b, x)),
        match chunk(s, a + 1, Some(size)) {
            Err(_) => false,
            Ok(k) => if x.len() <= size {
                k.done && k.at == b && k.out == x && Seq::<u8>::empty() + k.out == x
            } else {
                !k.done
            },
        },
{
    let cs = choose|cs: Seq<char>| #[trigger]
        spells_all(s.subrange(a + 1, b - 1), cs) && x == encode_utf8(cs);
    law_text_reads(s, a + 1, s.subrange(a + 1, b - 1), cs);
    law_chunks(s, a + 1, Some(size));
    lemma_chunk(s, a + 1, Some(size));
    if x.len() <= size {
        lemma_whole_part(s, a + 1, size);
        assert(Seq::<u8>::empty() + x =~= x);
    }
}

/// In front of a number, its text is read, if it fits in the buffer; in front of another value it is
/// refused.
pub proof fn law_reads_number(d: Doc, c: Cursor, b: int, t: Json, size: nat)
    requires
        in_front_of(d, c, b, t),
    ensures
        match t {
            Json::Number(n) => if n.len() <= size {
                read_number(d, c, size) == Outcome::Done(n, behind_value(c, b))
            } else {
                read_number(d, c, size) == Outcome::<Seq<u8>>::Refused(
                    Fault { kind: ErrorKind::BufferTooSmall, at: c.at },
                    behind_value(c, b),
                )
            },
            _ => refused(read_number(d, c, size), Token::Number, token_of(t), c),
        },
{
    lemma_in_front(d, c, b, t);
}

/// In front of a truth value or `null`, it is read as itself; in front of another value it is
/// refused.
pub proof fn law_reads_word(d: Doc, c: Cursor, b: int, t: Json)
    requires
        in_front_of(d, c, b, t),
    ensures
        match t {
            Json::Bool(v) => read_bool(d, c) == Outcome::Done(v, behind_value(c, b)),
            _ => refused(read_bool(d, c), Token::Bool, token_of(t), c),
        },
        match t {
            Json::Null => read_null(d, c) == Outcome::Done((), behind_value(c, b)),
            _ => refused(read_null(d, c), Token::Null, token_of(t), c),
        },
{
    lemma_in_front(d, c, b, t);
}

/// In front of a container, it is entered: the cursor is behind the bracket, one level deeper; in
/// front of another value, or of the other kind of container, that is refused.
pub proof fn law_enters(d: Doc, c: Cursor, b: int, t: Json, object: bool)
    requires
        in_front_of(d, c, b, t),
    ensures
        if object && t is Object {
            begin(d, c, object) == Outcome::Done(
                (),
                Cursor { at: c.at + 1, state: State::ObjFirst, stack: c.stack.push(true), ..c },
            )
        } else if !object && t is Array {
            begin(d, c, object) == Outcome::Done(
                (),
                Cursor { at: c.at + 1, state: State::ArrFirst, stack: c.stack.push(false), ..c },
            )
        } else {
            refused(
                begin(d, c, object),
                if object {
                    Token::BeginObject
                } else {
                    Token::BeginArray
                },
                token_of(t),
                c,
            )
        },
{
    lemma_in_front(d, c, b, t);
}

/// Whether the cursor stands right in front of the key `name`, which ends at `b`.
pub open spec fn in_front_of_key(d: Doc, c: Cursor, b: int, name: Seq<u8>) -> bool {
    &&& coherent(d, c)
    &&& c.state == State::ObjFirst || c.state == State::ObjKey
    &&& is_string(d.bytes, c.at, b, name)
}

/// In front of a key, it is read as that name, compared with a name, or skipped.
pub proof fn law_reads_key(d: Doc, c: Cursor, b: int, name: Seq<u8>, other: Seq<u8>, size: nat)
    requires
        in_front_of_key(d, c, b, name),
    ensures
        ({
            let next = Cursor { at: b, state: State::ObjColon, stack: c.stack, stash: Seq::empty() };
            &&& peek(d, c) == Outcome::Done(Token::Key, c)
            &&& if name.len() <= size {
                read_key(d, c, size) == Outcome::Done(name, next)
            } else {
                read_key(d, c, size) matches Outcome::Refused(f, _) && f.kind
                    == ErrorKind::BufferTooSmall
            }
            &&& match_key(d, c, Step::Key(other)) == Outcome::Done(name == other, next)
            &&& skip_key(d, c) == Outcome::Done((), next)
        }),
{
    lemma_string_part(d.bytes, c.at, b, name, size);
    assert(skip_space(d.bytes, c.at) == c.at);
    lemma_look(d, c);
    assert(c.stash =~= Seq::<u8>::empty());
    assert(look(d, c) == Ok::<(Token, Cursor), Fault>((Token::Key, c)));
}

/// Where a token is looked for, the cursor moves over white space, and over the comma or colon that
/// is due, up to the token.
pub proof fn law_advances(d: Doc, c: Cursor, a: int, x: int)
    requires
        coherent(d, c),
        c.at <= a <= x < d.bytes.len(),
        is_blank(d.bytes, a, x),
        !is_blank(d.bytes, x, x + 1),
        match c.state {
            State::TopValue | State::ArrFirst | State::ObjFirst => a == c.at,
            State::ArrComma | State::ObjComma => c.at < a && is_blank(d.bytes, c.at, a - 1)
                && d.bytes[a - 1] == ',' as u8,
            State::ObjColon => c.at < a && is_blank(d.bytes, c.at, a - 1) && d.bytes[a - 1]
                == ':' as u8,
            _ => false,
        },
    ensures
        ({
            let next = Cursor {
                at: x,
                state: match c.state {
                    State::ArrComma => State::ArrValue,
                    State::ObjComma => State::ObjKey,
                    State::ObjColon => State::ObjValue,
                    s => s,
                },
                ..c
            };
            peek(d, c) == peek(d, next)
        }),
{
    let s = d.bytes;
    lemma_blank(s, a, x);
    lemma_skip_space(s, x);
    assert(skip_space(s, x) == x) by {
        lemma_blank_skip(s, x);
        if skip_space(s, x) > x {
            assert(s[x] == ' ' as u8 || s[x] == '\t' as u8 || s[x] == '\n' as u8 || s[x]
                == '\r' as u8);
        }
    }
    if a > c.at {
        assert(!is_blank(s, a - 1, a)) by {
            assert(s[a - 1] == s[a - 1]);
        }
        lemma_blank(s, c.at, a - 1);
    }
}

/// Behind the last item of a container, or in one that has none, its closing bracket is met.
pub proof fn law_meets_end(d: Doc, c: Cursor, x: int)
    requires
        coherent(d, c),
        is_blank(d.bytes, c.at, x),
        x < d.bytes.len(),
        match c.state {
            State::ArrFirst | State::ArrComma => d.bytes[x] == ']' as u8,
            State::ObjFirst | State::ObjComma => d.bytes[x] == '}' as u8,
            _ => false,
        },
    ensures
        peek(d, c) == Outcome::Done(
            if c.state == State::ArrFirst || c.state == State::ArrComma {
                Token::EndArray
            } else {
                Token::EndObject
            },
            Cursor { at: x, ..c },
        ),
{
    assert(!is_blank(d.bytes, x, x + 1)) by {
        assert(d.bytes[x] == d.bytes[x]);
    }
    lemma_blank(d.bytes, c.at, x);
}

/// Behind the last value, the end is met exactly if nothing but white space is left; anything else
/// is refused there, or read as another value where that is allowed.
pub proof fn law_meets_eof(d: Doc, c: Cursor, x: int)
    requires
        coherent(d, c),
        c.state == State::TopDone,
        is_blank(d.bytes, c.at, x),
        x < d.bytes.len() ==> !is_blank(d.bytes, x, x + 1),
    ensures
        x == d.bytes.len() ==> {
            &&& peek(d, c) == Outcome::Done(Token::Eof, Cursor { at: x, ..c })
            &&& finish(d, c) == Outcome::Done((), Cursor { at: x, ..c })
        },
        x < d.bytes.len() && !d.multi ==> {
            &&& peek(d, c) == Outcome::<Token>::Broken(
                Fault { kind: ErrorKind::TrailingData, at: x },
            )
            &&& finish(d, c) == Outcome::<()>::Broken(
                Fault { kind: ErrorKind::TrailingData, at: x },
            )
        },
        x < d.bytes.len() && d.multi ==> peek(d, c) == peek(
            d,
            Cursor { at: x, state: State::TopValue, ..c },
        ),
{
    let s = d.bytes;
    if x < s.len() {
        lemma_blank(s, c.at, x);
        lemma_skip_space(s, x);
        lemma_blank_skip(s, x);
        if skip_space(s, x) > x {
            assert(s[x] == ' ' as u8 || s[x] == '\t' as u8 || s[x] == '\n' as u8 || s[x]
                == '\r' as u8);
        }
    } else {
        lemma_skip_run(s, c.at, x);
    }
}

/// In front of a number of at most 64 bytes, what its text converts to is given, or it is refused as
/// out of range if that is nothing; a longer one is refused as too long. Both leave it behind.
pub proof fn law_reads_converted<T>(d: Doc, c: Cursor, b: int, t: Json, parsed: Option<T>)
    requires
        in_front_of(d, c, b, t),
    ensures
        match t {
            Json::Number(n) => if n.len() > 64 {
                read_num(d, c, parsed) == Outcome::<T>::Refused(
                    Fault { kind: ErrorKind::NumberTooLong, at: c.at },
                    behind_value(c, b),
                )
            } else {
                read_num(d, c, parsed) == (match parsed {
                    Some(v) => Outcome::Done(v, behind_value(c, b)),
                    None => Outcome::<T>::Refused(
                        Fault { kind: ErrorKind::NumberOutOfRange, at: c.at },
                        behind_value(c, b),
                    ),
                })
            },
            _ => refused(read_num(d, c, parsed), Token::Number, token_of(t), c),
        },
{
    lemma_in_front(d, c, b, t);
}

/// The event of meeting `t`.
pub open spec fn bare(t: Token) -> Happening {
    Happening { token: t, text: None, truth: None }
}

/// The event of meeting `t`, with the text `x`.
pub open spec fn with_text(t: Token, x: Seq<u8>) -> Happening {
    Happening { token: t, text: Some(x), truth: None }
}

/// The events of a value: one for a value without parts; for a container, one for its start, those
/// of its items, each behind one for its key if it has one, and one for its end.
pub open spec fn told(t: Json) -> Seq<Happening>
    decreases t, parts(t).len() + 1,
{
    match t {
        Json::Null => seq![bare(Token::Null)],
        Json::Bool(v) => seq![Happening { token: Token::Bool, text: None, truth: Some(v) }],
        Json::Number(n) => seq![with_text(Token::Number, n)],
        Json::Text(x) => seq![with_text(Token::String, x)],
        Json::Array(_) => seq![bare(Token::BeginArray)] + told_from(t, 0),
        Json::Object(_) => seq![bare(Token::BeginObject)] + told_from(t, 0),
    }
}

/// The events of a container from its item number `n` on.
pub open spec fn told_from(t: Json, n: int) -> Seq<Happening>
    decreases t, parts(t).len() - n,
{
    if 0 <= n < parts(t).len() {
        (if t is Object {
            seq![with_text(Token::Key, parts(t)[n].name)]
        } else {
            Seq::empty()
        }) + told(parts(t)[n].value) + told_from(t, n + 1)
    } else {
        seq![
            bare(
                if t is Object {
                    Token::EndObject
                } else {
                    Token::EndArray
                },
            ),
        ]
    }
}

/// Whether every text, number and key of `t` has at most `size` bytes.
pub open spec fn all_fit(t: Json, size: nat) -> bool
    decreases t,
{
    &&& t matches Json::Text(x) ==> x.len() <= size
    &&& t matches Json::Number(x) ==> x.len() <= size
    &&& forall|n: int|
        0 <= n < parts(t).len() ==> (#[trigger] parts(t)[n]).name.len() <= size && all_fit(
            parts(t)[n].value,
            size,
        )
}

/// The events that are read from `c` on until no more than `depth` containers are open, and where
/// that leads.
pub open spec fn all_events(d: Doc, c: Cursor, depth: int, size: nat) -> Option<
    (Seq<Happening>, Cursor),
>
    decreases d.bytes.len() - c.at,
{
    match event(d, c, size) {
        Outcome::Done(h, c1) => if c1.stack.len() <= depth {
            Some((seq![h], c1))
        } else if c.at < c1.at <= d.bytes.len() {
            match all_events(d, c1, depth, size) {
                Some((hs, c2)) => Some((seq![h] + hs, c2)),
                None => None,
            }
        } else {
            None
        },
        _ => None,
    }
}

/// What is read from `c` on, behind the events `hs`.
spec fn behind_events(hs: Seq<Happening>, d: Doc, c: Cursor, depth: int, size: nat) -> Option<
    (Seq<Happening>, Cursor),
> {
    if c.stack.len() <= depth {
        Some((hs, c))
    } else {
        match all_events(d, c, depth, size) {
            Some((more, c2)) => Some((hs + more, c2)),
            None => None,
        }
    }
}

proof fn lemma_behind_events(
    a: Seq<Happening>,
    b: Seq<Happening>,
    d: Doc,
    c: Cursor,
    depth: int,
    size: nat,
)
    ensures
        behind_events(a + b, d, c, depth, size) == (match behind_events(b, d, c, depth, size) {
            Some((x, y)) => Some((a + x, y)),
            None => None,
        }),
{
    if c.stack.len() > depth {
        match all_events(d, c, depth, size) {
            Some((more, c2)) => {
                assert(a + b + more =~= a + (b + more));
            },
            None => {},
        }
    }
}

/// One event is read.
proof fn lemma_one_event(d: Doc, c: Cursor, h: Happening, c1: Cursor, depth: int, size: nat)
    requires
        event(d, c, size) == Outcome::Done(h, c1),
        c.at < c1.at <= d.bytes.len(),
    ensures
        all_events(d, c, depth, size) == behind_events(seq![h], d, c1, depth, size),
{
}

/// The events of a value are read.
#[verifier::rlimit(40)]
proof fn lemma_value_events(d: Doc, c: Cursor, depth: int, size: nat)
    requires
        at_whole(d, c),
        0 <= depth <= c.stack.len(),
        all_fit(tree_at(d, c), size),
    ensures
        all_events(d, c, depth, size) == behind_events(
            told(tree_at(d, c)),
            d,
            past_value(c, end_at(d, c)->Ok_0),
            depth,
            size,
        ),
    decreases d.bytes.len() - c.at, 0int,
{
    let t = tree_at(d, c);
    let b = end_at(d, c)->Ok_0;
    lemma_whole(d, c);
    lemma_container(d, c);
    lemma_look(d, c);
    let c1 = past_value(c, b);
    if t is Array || t is Object {
        let c0 = inside_at(d, c);
        let h = bare(token_of(t));
        assert(event(d, c, size) == Outcome::Done(h, c0));
        lemma_one_event(d, c, h, c0, depth, size);
        assert(c0.stack.drop_last() =~= c.stack);
        assert(parts(t).skip(0) =~= parts(t));
        lemma_rest_events(d, c0, depth, size, t, 0);
        assert(leave(c0, b) =~= c1);
        let hs = told_from(t, 0);
        lemma_behind_events(seq![h], hs, d, c1, depth, size);
    } else {
        lemma_scalar_event(d, c, size);
        lemma_one_event(d, c, told(t)[0], c1, depth, size);
        assert(told(t) =~= seq![told(t)[0]]);
    }
}

/// The event of a value without parts is read.
proof fn lemma_scalar_event(d: Doc, c: Cursor, size: nat)
    requires
        at_whole(d, c),
        !(tree_at(d, c) is Array),
        !(tree_at(d, c) is Object),
        all_fit(tree_at(d, c), size),
    ensures
        event(d, c, size) == Outcome::Done(
            told(tree_at(d, c))[0],
            past_value(c, end_at(d, c)->Ok_0),
        ),
        told(tree_at(d, c)).len() == 1,
        c.at < end_at(d, c)->Ok_0 <= d.bytes.len(),
{
    lemma_whole(d, c);
    lemma_look(d, c);
    lemma_container(d, c);
    reveal(at_whole);
    reveal(tree_at);
    reveal(end_at);
    let s = d.bytes;
    lemma_value(s, c.at, room(d, c));
    assert(look(d, c) == Ok::<(Token, Cursor), Fault>((value_token(s[c.at])->Some_0, c))) by {
        lemma_at_value(d, c);
    }
    if s[c.at] == '"' as u8 {
        lemma_whole_part(s, c.at + 1, size);
        let x = text(s, c.at + 1)->Ok_0.1;
        assert(Seq::<u8>::empty() + x =~= x);
        assert(c.stash =~= Seq::<u8>::empty());
    }
}

/// The events of what is left of a container are read.
#[verifier::rlimit(60)]
proof fn lemma_rest_events(d: Doc, c: Cursor, depth: int, size: nat, t: Json, n: int)
    requires
        between(d, c),
        0 <= depth < c.stack.len(),
        t is Array || t is Object,
        t is Array <==> behind(c.state) == State::ArrComma,
        0 <= n <= parts(t).len(),
        parts(t).skip(n) == left_at(d, c).1,
        all_fit(t, size),
    ensures
        all_events(d, c, depth, size) == behind_events(
            told_from(t, n),
            d,
            leave(c, left_at(d, c).0->Ok_0),
            depth,
            size,
        ),
    decreases d.bytes.len() - c.at, 3int,
{
    let its = parts(t);
    let last = leave(c, left_at(d, c).0->Ok_0);
    lemma_look(d, c);
    lemma_piece(d.bytes, c.at, c.state, room(d, c));
    match piece_at(d, c) {
        None => {
            assert(its.skip(n).len() == 0);
            lemma_meets_end(d, c);
            let h = told_from(t, n)[0];
            assert(event(d, c, size) == Outcome::Done(h, last));
            lemma_one_event(d, c, h, last, depth, size);
            assert(told_from(t, n) =~= seq![h]);
        },
        Some(p) => {
            assert(its.skip(n).len() > 0);
            assert(its[n] == its.skip(n)[0]);
            assert(its[n] == (Item { name: p.name, value: tree(d.bytes, p.at, room(d, c)) })) by {
                reveal(read_item);
            }
            let c5 = past_piece(c, p);
            assert(its.skip(n + 1) =~= left_at(d, c5).1) by {
                assert(its.skip(n + 1) =~= its.skip(n).skip(1));
            }
            assert(value(d.bytes, p.at, room(d, c)) == Ok::<int, Fault>(p.end)) by {
                reveal(piece);
            }
            if t is Array {
                lemma_meets_item(d, c);
                lemma_element_events(d, c, p, its[n].value, depth, size);
            } else {
                lemma_meets_member(d, c);
                lemma_member_events(d, c, p, its[n].value, depth, size);
            }
            lemma_rest_events(d, c5, depth, size, t, n + 1);
            assert(leave(c5, left_at(d, c5).0->Ok_0) == last);
            let v = told(its[n].value);
            let more = told_from(t, n + 1);
            let front = if t is Object {
                seq![with_text(Token::Key, p.name)]
            } else {
                Seq::empty()
            };
            lemma_behind_events(front + v, more, d, last, depth, size);
        },
    }
}

/// The events of an element are read.
proof fn lemma_element_events(d: Doc, c: Cursor, p: Piece, t: Json, depth: int, size: nat)
    requires
        between(d, c),
        behind(c.state) == State::ArrComma,
        piece_at(d, c) == Some(p),
        0 <= depth < c.stack.len(),
        value(d.bytes, p.at, room(d, c)) == Ok::<int, Fault>(p.end),
        tree(d.bytes, p.at, room(d, c)) == t,
        c.at <= p.at,
        all_fit(t, size),
    ensures
        all_events(d, c, depth, size) == behind_events(
            Seq::<Happening>::empty() + told(t),
            d,
            past_piece(c, p),
            depth,
            size,
        ),
    decreases d.bytes.len() - c.at, 2int,
{
    lemma_meets_item(d, c);
    let c1 = look(d, c)->Ok_0.1;
    lemma_look(d, c);
    lemma_item_events(d, c1, p.end, t, depth, size);
    assert(past_value(c1, p.end) =~= past_piece(c, p));
    lemma_events_look(d, c, depth, size);
    assert(Seq::<Happening>::empty() + told(t) =~= told(t));
}

/// The events of a member are read.
proof fn lemma_member_events(d: Doc, c: Cursor, p: Piece, t: Json, depth: int, size: nat)
    requires
        between(d, c),
        behind(c.state) == State::ObjComma,
        piece_at(d, c) == Some(p),
        0 <= depth < c.stack.len(),
        value(d.bytes, p.at, room(d, c)) == Ok::<int, Fault>(p.end),
        tree(d.bytes, p.at, room(d, c)) == t,
        c.at <= p.front <= p.at,
        p.name.len() <= size,
        all_fit(t, size),
    ensures
        all_events(d, c, depth, size) == behind_events(
            seq![with_text(Token::Key, p.name)] + told(t),
            d,
            past_piece(c, p),
            depth,
            size,
        ),
    decreases d.bytes.len() - c.at, 2int,
{
    lemma_meets_member(d, c);
    lemma_look(d, c);
    let c1 = look(d, c)->Ok_0.1;
    let k = text(d.bytes, p.front + 1)->Ok_0.0;
    let c2 = past_string(c1, true, k);
    let h = with_text(Token::Key, p.name);
    lemma_key_event(d, c, p.name, k, size);
    lemma_one_event(d, c, h, c2, depth, size);
    let c3 = look(d, c2)->Ok_0.1;
    assert(coherent(d, c2)) by {
        lemma_text(d.bytes, p.front + 1);
    }
    lemma_look(d, c2);
    lemma_item_events(d, c3, p.end, t, depth, size);
    assert(past_value(c3, p.end) =~= past_piece(c, p));
    lemma_events_look(d, c2, depth, size);
    lemma_behind_events(seq![h], told(t), d, past_piece(c, p), depth, size);
}

/// Moving up to the next token changes nothing of the events.
proof fn lemma_events_look(d: Doc, c: Cursor, depth: int, size: nat)
    requires
        coherent(d, c),
        0 <= depth < c.stack.len(),
        look(d, c) matches Ok((t, _)) && t != Token::Eof,
    ensures
        all_events(d, c, depth, size) == all_events(d, look(d, c)->Ok_0.1, depth, size),
{
    lemma_look(d, c);
    let (t, c1) = look(d, c)->Ok_0;
    lemma_look(d, c1);
    lemma_event(d, c1, t, size);
    lemma_step(d, c1, t, depth);
    assert(event(d, c, size) == event(d, c1, size));
}

/// The events of an item's value are read.
proof fn lemma_item_events(d: Doc, c: Cursor, b: int, t: Json, depth: int, size: nat)
    requires
        coherent(d, c),
        c.state == State::ArrFirst || c.state == State::ArrValue || c.state == State::ObjValue,
        value(d.bytes, c.at, room(d, c)) == Ok::<int, Fault>(b),
        tree(d.bytes, c.at, room(d, c)) == t,
        0 <= depth <= c.stack.len(),
        all_fit(t, size),
    ensures
        all_events(d, c, depth, size) == behind_events(
            told(t),
            d,
            past_value(c, b),
            depth,
            size,
        ),
    decreases d.bytes.len() - c.at, 1int,
{
    reveal(end_at);
    reveal(tree_at);
    lemma_at_whole(d, c);
    lemma_value_events(d, c, depth, size);
}

/// The event of a key is read.
proof fn lemma_key_event(d: Doc, c: Cursor, name: Seq<u8>, k: int, size: nat)
    requires
        coherent(d, c),
        look(d, c) matches Ok((t, c1)) && t == Token::Key && text(d.bytes, c1.at + 1) == Ok::<
            (int, Seq<u8>),
            Fault,
        >((k, name)),
        name.len() <= size,
    ensures
        event(d, c, size) == Outcome::Done(
            with_text(Token::Key, name),
            past_string(look(d, c)->Ok_0.1, true, k),
        ),
        c.at < k <= d.bytes.len(),
{
    lemma_look(d, c);
    let c1 = look(d, c)->Ok_0.1;
    lemma_look(d, c1);
    lemma_text(d.bytes, c1.at + 1);
    lemma_whole_part(d.bytes, c1.at + 1, size);
    assert(Seq::<u8>::empty() + name =~= name);
    assert(member(d, c1) == look(d, c1));
}

/// The events of a value are read, one after the other, told from what it is, up to where it ends,
/// if the buffer holds each of its texts.
pub proof fn law_events_told(d: Doc, c: Cursor, b: int, t: Json, size: nat)
    requires
        in_front_of(d, c, b, t),
        all_fit(t, size),
    ensures
        all_events(d, c, c.stack.len() as int, size) == Some((told(t), behind_value(c, b))),
{
    lemma_in_front(d, c, b, t);
    reveal(end_at);
    reveal(tree_at);
    lemma_at_whole(d, c);
    lemma_value_events(d, c, c.stack.len() as int, size);
}

/// A part of a string ends where the string does, if what is left of it fits, and is else filled as
/// far as whole characters go.
pub proof fn law_part_full(s: Seq<u8>, i: int, stash: Seq<u8>, size: nat)
    requires
        0 <= i <= s.len(),
    ensures
        pour(s, i, stash, Some(size)) matches Ok(c) ==> {
            &&& c.out.len() <= size
            &&& text(s, i) matches Ok((_, t)) ==> (c.done <==> stash.len() + t.len() <= size)
            &&& !c.done ==> c.out.len() + c.stash.len() > size || (c.stash.len() == 0 && c.out.len()
                == size)
        },
{
    if stash.len() <= size {
        lemma_chunk_full(s, i, (size - stash.len()) as nat);
    }
}

proof fn lemma_chunk_full(s: Seq<u8>, i: int, size: nat)
    requires
        0 <= i <= s.len(),
    ensures
        chunk(s, i, Some(size)) matches Ok(c) ==> {
            &&& c.out.len() <= size
            &&& text(s, i) matches Ok((_, t)) ==> (c.done <==> t.len() <= size)
            &&& !c.done ==> c.out.len() + c.stash.len() > size || (c.stash.len() == 0 && c.out.len()
                == size)
        },
    decreases s.len() - i,
{
    if i < s.len() && s[i] != '"' as u8 && unit(s, i) is Ok {
        let (k, b) = unit(s, i)->Ok_0;
        lemma_unit(s, i);
        if 0 < size && b.len() <= size {
            lemma_chunk_full(s, k, (size - b.len()) as nat);
        }
    }
}

/// One level of nesting takes one bit.
pub proof fn law_levels(n: int)
    requires
        0 <= n,
        8 * n < usize::MAX,
    ensures
        max_levels(n) == 8 * n,
{
}

/// Searching what is left of an object stops in front of the value of the first member with the name.
pub proof fn law_finds(d: Doc, c: Cursor, step: Step, n: nat)
    requires
        between(d, c),
        c.state == State::ObjFirst || c.state == State::ObjComma,
        n < left_at(d, c).1.len(),
        step_name(step) == Some(left_at(d, c).1[n as int].name),
        forall|k: int|
            0 <= k < n ==> step_name(step) != Some((#[trigger] left_at(d, c).1[k]).name),
    ensures
        find(d, c, step) matches Outcome::Done(true, c1) && {
            &&& c1.at == place(d.bytes, c.at, c.state, room(d, c), n)
            &&& c1.state == State::ObjValue
            &&& c1.stack == c.stack
            &&& tree(d.bytes, c1.at, room(d, c)) == left_at(d, c).1[n as int].value
        },
{
    reveal(left);
    let its = left_at(d, c).1;
    lemma_first(its, step_name(step), n);
    lemma_find_tree(d, c, step);
    lemma_place(d.bytes, c.at, c.state, room(d, c), Seq::empty(), n);
}

/// Searching what is left of an object stops at its end if no member has the name.
pub proof fn law_finds_none(d: Doc, c: Cursor, step: Step)
    requires
        between(d, c),
        c.state == State::ObjFirst || c.state == State::ObjComma,
        forall|k: int|
            0 <= k < left_at(d, c).1.len() ==> step_name(step) != Some(
                (#[trigger] left_at(d, c).1[k]).name,
            ),
    ensures
        find(d, c, step) matches Outcome::Done(false, c1) && {
            &&& peek(d, c1) == Outcome::Done(Token::EndObject, c1)
            &&& c1.stack == c.stack
            &&& c1.at + 1 == left_at(d, c).0->Ok_0
        },
{
    reveal(left);
    let its = left_at(d, c).1;
    lemma_find_tree(d, c, step);
    if first_named(its, step_name(step)) is Some {
        lemma_first(its, step_name(step), first_named(its, step_name(step))->Some_0);
    }
}

} // verus!
