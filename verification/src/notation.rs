//! How JSON is noted down: which bytes may stand for a character, a text, a number or a value,
//! told from what they stand for, with laws that the [grammar](crate::grammar) reads exactly these
//! bytes, and as exactly that.

use vstd::prelude::*;
use vstd::utf8::{
    char_is_scalar, decode_first_scalar, decode_utf8_first_scalar, encode_scalar, encode_utf8,
    encode_utf8_first_scalar, length_of_first_scalar, take_first_scalar,
};

use crate::grammar::{
    digit_at, escape, exponent, fraction, hex, hex_digit, integer, is_sign, is_space, lemma_escape,
    lemma_hex4, lemma_next_token, lemma_skip_space, lemma_text, lemma_unit, lemma_utf8_end,
    lemma_value, next_token, number, skip_digits, skip_space, starts_value, text, unit, value,
    value_end, value_token, word_end, word_of, Fault,
};
use crate::laws::meaning;
use crate::parser::{State, Token};
use crate::util::is_document;
use crate::splice::{
    at_item, behind, left, lemma_end_place, lemma_piece, lemma_skip_run, piece, read_item, stands,
};
use crate::tree::{ends, lemma_join_key, lemma_join_value, tree, Item, Json};
use crate::string::{lemma_raw_unit, lemma_unit_utf8};

verus! {

/// Whether `b` is the hexadecimal digit for `n`: a decimal digit, or a letter of either case.
pub open spec fn is_hex(b: u8, n: int) -> bool {
    if 0 <= n < 10 {
        b == '0' as int + n
    } else if 10 <= n < 16 {
        b == 'a' as int + (n - 10) || b == 'A' as int + (n - 10)
    } else {
        false
    }
}

/// Whether `w` is the number `v` of 16 bits, in four hexadecimal digits.
pub open spec fn in_hex(w: Seq<u8>, v: int) -> bool {
    &&& w.len() == 4
    &&& 0 <= v < 0x10000
    &&& is_hex(w[0], v / 0x1000)
    &&& is_hex(w[1], v / 0x100 % 0x10)
    &&& is_hex(w[2], v / 0x10 % 0x10)
    &&& is_hex(w[3], v % 0x10)
}

/// Whether `w` is a backslash, a `u`, and `v` in hexadecimal digits.
pub open spec fn is_u_escape(w: Seq<u8>, v: int) -> bool {
    &&& w.len() == 6
    &&& w[0] == '\\' as u8
    &&& w[1] == 'u' as u8
    &&& in_hex(w.skip(2), v)
}

/// Whether the letter `e`, behind a backslash, stands for the character `c`.
pub open spec fn is_letter_for(e: u8, c: char) -> bool {
    ||| e == '"' as u8 && c == '"'
    ||| e == '\\' as u8 && c == '\\'
    ||| e == '/' as u8 && c == '/'
    ||| e == 'b' as u8 && c == '\u{8}'
    ||| e == 'f' as u8 && c == '\u{c}'
    ||| e == 'n' as u8 && c == '\n'
    ||| e == 'r' as u8 && c == '\r'
    ||| e == 't' as u8 && c == '\t'
}

/// Whether `w` may stand in a string for the character `c`: as itself, in UTF-8, unless it is a
/// quote, a backslash or a control character; as a letter behind a backslash; or as its UTF-16
/// code units, each behind a backslash and a `u`.
pub open spec fn spells(w: Seq<u8>, c: char) -> bool {
    let v = c as u32 as int;
    ||| w == encode_scalar(c as u32) && v >= ' ' as int && c != '"' && c != '\\'
    ||| w.len() == 2 && w[0] == '\\' as u8 && is_letter_for(w[1], c)
    ||| v < 0x10000 && is_u_escape(w, v)
    ||| {
        &&& v >= 0x10000
        &&& w.len() == 12
        &&& is_u_escape(w.subrange(0, 6), 0xd800 + (v - 0x10000) / 0x400)
        &&& is_u_escape(w.skip(6), 0xdc00 + (v - 0x10000) % 0x400)
    }
}

/// Whether `w` may stand in a string for the characters `cs`, one after the other.
pub open spec fn spells_all(w: Seq<u8>, cs: Seq<char>) -> bool
    decreases cs.len(),
{
    if cs.len() == 0 {
        w.len() == 0
    } else {
        exists|n: int| #[trigger] spelled_first(w, n, cs[0]) && spells_all(w.skip(n), cs.skip(1))
    }
}

/// Whether the first `n` bytes of `w` may stand for `c`.
pub open spec fn spelled_first(w: Seq<u8>, n: int, c: char) -> bool {
    0 <= n <= w.len() && spells(w.subrange(0, n), c)
}

/// A hexadecimal digit is read as what it stands for.
proof fn lemma_hex_digit(b: u8)
    ensures
        forall|n: int| #[trigger] is_hex(b, n) ==> hex_digit(b) == Some(n),
        hex_digit(b) matches Some(n) ==> is_hex(b, n) && 0 <= n < 16,
{
}

/// Four hexadecimal digits are read as the number that they write.
pub(crate) proof fn lemma_in_hex(s: Seq<u8>, i: int)
    requires
        0 <= i,
    ensures
        i + 4 <= s.len() ==> forall|v: int| #[trigger]
            in_hex(s.subrange(i, i + 4), v) ==> hex(s, i, 4, 0) == Ok::<int, Fault>(v),
        hex(s, i, 4, 0) matches Ok(v) ==> i + 4 <= s.len() && in_hex(s.subrange(i, i + 4), v),
{
    reveal_with_fuel(hex, 5);
    if i + 4 <= s.len() {
        let w = s.subrange(i, i + 4);
        assert(w[0] == s[i] && w[1] == s[i + 1] && w[2] == s[i + 2] && w[3] == s[i + 3]);
        lemma_hex_digit(s[i]);
        lemma_hex_digit(s[i + 1]);
        lemma_hex_digit(s[i + 2]);
        lemma_hex_digit(s[i + 3]);
        assert forall|v: int| #[trigger] in_hex(w, v) implies hex(s, i, 4, 0) == Ok::<int, Fault>(
            v,
        ) by {
            assert(v == (v / 0x1000) * 0x1000 + (v / 0x100 % 0x10) * 0x100 + (v / 0x10 % 0x10)
                * 0x10 + v % 0x10);
        }
        if hex(s, i, 4, 0) is Ok {
            let (a, b, c, d) = (
                hex_digit(s[i])->Some_0,
                hex_digit(s[i + 1])->Some_0,
                hex_digit(s[i + 2])->Some_0,
                hex_digit(s[i + 3])->Some_0,
            );
            let v = a * 0x1000 + b * 0x100 + c * 0x10 + d;
            assert(hex(s, i, 4, 0) == Ok::<int, Fault>(v));
            assert(v / 0x1000 == a);
            assert(v / 0x100 % 0x10 == b);
            assert(v / 0x10 % 0x10 == c);
            assert(v % 0x10 == d);
        }
    } else {
        lemma_hex4(s, i);
    }
}

/// A `\u` escape is read as the code unit that it writes.
proof fn lemma_u_escape(s: Seq<u8>, i: int, v: int)
    requires
        0 <= i,
        i + 6 <= s.len(),
        is_u_escape(s.subrange(i, i + 6), v),
    ensures
        s[i] == '\\' as u8,
        s[i + 1] == 'u' as u8,
        hex(s, i + 2, 4, 0) == Ok::<int, Fault>(v),
{
    let w = s.subrange(i, i + 6);
    assert(w[0] == s[i] && w[1] == s[i + 1]);
    assert(w.skip(2) =~= s.subrange(i + 2, i + 6));
    lemma_in_hex(s, i + 2);
}

/// What may stand for a character stands for it: each character, in each of its spellings, is read
/// as exactly itself.
pub proof fn law_character(s: Seq<u8>, i: int, w: Seq<u8>, c: char)
    requires
        stands(s, i, w),
        spells(w, c),
    ensures
        unit(s, i) == Ok::<(int, Seq<u8>), Fault>((i + w.len(), encode_scalar(c as u32))),
        w.len() > 0,
        s[i] != '"' as u8,
{
    let v = c as u32 as int;
    char_is_scalar(c);
    let sub = s.subrange(i, i + w.len());
    assert forall|k: int| 0 <= k < w.len() implies s[i + k] == #[trigger] w[k] by {
        assert(sub[k] == s[i + k]);
    }
    if w == encode_scalar(c as u32) && v >= ' ' as int && c != '"' && c != '\\' {
        lemma_first_byte(c);
        encode_utf8_first_scalar(seq![c]);
        lemma_encode_one(c);
        assert(s[i] == w[0]);
        lemma_raw_unit(s, i, w);
    } else if w.len() == 2 && w[0] == '\\' as u8 && is_letter_for(w[1], c) {
        assert(s[i] == w[0] && s[i + 1] == w[1]);
    } else if v < 0x10000 && is_u_escape(w, v) {
        lemma_u_escape(s, i, v);
    } else {
        let hi = 0xd800 + (v - 0x10000) / 0x400;
        let lo = 0xdc00 + (v - 0x10000) % 0x400;
        assert(w.subrange(0, 6) =~= s.subrange(i, i + 6));
        assert(w.skip(6) =~= s.subrange(i + 6, i + 12));
        lemma_u_escape(s, i, hi);
        lemma_u_escape(s, i + 6, lo);
    }
}

/// The UTF-8 encoding of one character.
pub(crate) proof fn lemma_encode_one(c: char)
    ensures
        encode_utf8(seq![c]) == encode_scalar(c as u32),
{
    reveal_with_fuel(encode_utf8, 2);
    assert(seq![c].drop_first() =~= Seq::<char>::empty());
    assert(encode_utf8(seq![c]) =~= encode_scalar(c as u32));
}

/// The first byte of a character in UTF-8.
pub(crate) proof fn lemma_first_byte(c: char)
    ensures
        encode_scalar(c as u32).len() > 0,
        (c as u32) < 0x80 ==> encode_scalar(c as u32) == seq![c as u32 as u8],
        (c as u32) >= 0x80 ==> encode_scalar(c as u32)[0] >= 0x80,
{
    let x = c as u32;
    char_is_scalar(c);
    assert(x < 0x80 ==> (x & 0x7f) == x) by (bit_vector);
    assert((0xc0u8 | ((x >> 6) & 0x1f) as u8) >= 0x80) by (bit_vector);
    assert((0xe0u8 | ((x >> 12) & 0x0f) as u8) >= 0x80) by (bit_vector);
    assert((0xf0u8 | ((x >> 18) & 0x07) as u8) >= 0x80) by (bit_vector);
    if x < 0x80 {
        assert(encode_scalar(x) =~= seq![x as u8]);
    }
}

/// Nothing else stands for a character: what is read as one is one of its spellings.
pub proof fn law_character_only(s: Seq<u8>, i: int)
    requires
        0 <= i < s.len(),
        s[i] != '"' as u8,
    ensures
        unit(s, i) matches Ok((k, b)) ==> i < k <= s.len() && exists|c: char|
            #[trigger] spells(s.subrange(i, k), c) && b == encode_scalar(c as u32),
{
    lemma_unit(s, i);
    if unit(s, i) is Ok {
        let (k, b) = unit(s, i)->Ok_0;
        let w = s.subrange(i, k);
        if s[i] == '\\' as u8 {
            lemma_escape(s, i + 1);
            let v = escape(s, i + 1)->Ok_0.1;
            let c = (v as u32) as char;
            assert(c as u32 == v as u32);
            assert(spells(w, c)) by {
                if s[i + 1] != 'u' as u8 {
                    assert(w.len() == 2 && w[0] == s[i] && w[1] == s[i + 1]);
                } else {
                    lemma_in_hex(s, i + 2);
                    if k == i + 6 {
                        assert(w.skip(2) =~= s.subrange(i + 2, i + 6));
                        assert(w[0] == s[i] && w[1] == s[i + 1]);
                    } else {
                        lemma_in_hex(s, i + 8);
                        let a = w.subrange(0, 6);
                        let z = w.skip(6);
                        assert(a.skip(2) =~= s.subrange(i + 2, i + 6));
                        assert(a[0] == s[i] && a[1] == s[i + 1]);
                        assert(z.skip(2) =~= s.subrange(i + 8, i + 12));
                        assert(z[0] == s[i + 6] && z[1] == s[i + 7]);
                    }
                }
            }
        } else {
            lemma_unit_utf8(s, i);
            lemma_utf8_end(s, i, 1);
            assert(b =~= w);
            assert(w[0] == s[i]);
            let c = decode_first_scalar(b) as char;
            decode_utf8_first_scalar(b);
            lemma_one_character(s, i);
            assert(take_first_scalar(b) =~= b);
            lemma_first_byte(c);
            char_is_scalar(c);
            assert(spells(w, c));
        }
    }
}

/// A character that stands for itself is one character in UTF-8.
proof fn lemma_one_character(s: Seq<u8>, i: int)
    requires
        0 <= i < s.len(),
        s[i] != '\\' as u8,
        unit(s, i) is Ok,
    ensures
        length_of_first_scalar(unit(s, i)->Ok_0.1) == unit(s, i)->Ok_0.1.len(),
{
    lemma_unit_utf8(s, i);
    lemma_utf8_end(s, i, 1);
    let b = unit(s, i)->Ok_0.1;
    let x = s[i];
    assert(b[0] == x);
    assert(0xc2u8 <= x <= 0xdf ==> x & 0xe0 == 0xc0) by (bit_vector);
    assert(0xe0u8 <= x <= 0xef ==> x & 0xf0 == 0xe0 && x & 0xe0 != 0xc0) by (bit_vector);
    assert(0xf0u8 <= x <= 0xf4 ==> x & 0xf8 == 0xf0 && x & 0xf0 != 0xe0 && x & 0xe0 != 0xc0)
        by (bit_vector);
    assert(x >= 0x80u8 ==> x & 0x80 != 0) by (bit_vector);
    assert(x < 0x80u8 ==> x & 0x80 == 0) by (bit_vector);
}

/// What may stand for a text, in front of a quote, is read as exactly that text.
pub proof fn law_text_reads(s: Seq<u8>, i: int, w: Seq<u8>, cs: Seq<char>)
    requires
        stands(s, i, w),
        spells_all(w, cs),
        i + w.len() < s.len(),
        s[i + w.len()] == '"' as u8,
    ensures
        text(s, i) == Ok::<(int, Seq<u8>), Fault>((i + w.len() + 1, encode_utf8(cs))),
    decreases cs.len(),
{
    if cs.len() > 0 {
        let n = choose|n: int| #[trigger]
            spelled_first(w, n, cs[0]) && spells_all(w.skip(n), cs.skip(1));
        assert(s.subrange(i, i + n) =~= w.subrange(0, n));
        law_character(s, i, w.subrange(0, n), cs[0]);
        assert(s.subrange(i + n, i + w.len()) =~= w.skip(n));
        law_text_reads(s, i + n, w.skip(n), cs.skip(1));
        assert(cs.skip(1) =~= cs.drop_first());
    }
}

/// Nothing else is read as a text: a string is a spelling of the text that is read, up to a quote.
pub proof fn law_text_only(s: Seq<u8>, i: int)
    requires
        0 <= i <= s.len(),
    ensures
        text(s, i) matches Ok((k, t)) ==> i < k <= s.len() && s[k - 1] == '"' as u8 && exists|
            cs: Seq<char>,
        | #[trigger] spells_all(s.subrange(i, k - 1), cs) && t == encode_utf8(cs),
    decreases s.len() - i,
{
    lemma_text(s, i);
    if text(s, i) is Ok {
        let (k, t) = text(s, i)->Ok_0;
        let w = s.subrange(i, k - 1);
        if s[i] == '"' as u8 {
            assert(spells_all(w, Seq::empty()));
            assert(t =~= encode_utf8(Seq::empty()));
        } else {
            law_character_only(s, i);
            let (j, b) = unit(s, i)->Ok_0;
            let c = choose|c: char|
                #[trigger] spells(s.subrange(i, j), c) && b == encode_scalar(c as u32);
            law_text_only(s, j);
            let rest = choose|cs: Seq<char>|
                #[trigger] spells_all(s.subrange(j, k - 1), cs) && text(s, j)->Ok_0.1
                    == encode_utf8(cs);
            let cs = seq![c] + rest;
            assert(cs.skip(1) =~= rest);
            assert(cs.drop_first() =~= rest);
            assert(w.subrange(0, j - i) =~= s.subrange(i, j));
            assert(w.skip(j - i) =~= s.subrange(j, k - 1));
            assert(spelled_first(w, j - i, cs[0]));
            assert(spells_all(w, cs));
        }
    }
}

/// Whether `w` is one or more decimal digits.
pub open spec fn is_digits(w: Seq<u8>) -> bool {
    &&& w.len() > 0
    &&& forall|k: int| 0 <= k < w.len() ==> '0' as u8 <= #[trigger] w[k] <= '9' as u8
}

/// Whether `w` is an integer without a sign: `0`, or digits of which the first is no `0`.
pub open spec fn is_whole(w: Seq<u8>) -> bool {
    is_digits(w) && (w[0] == '0' as u8 ==> w.len() == 1)
}

/// Whether `w` is nothing, or a point with digits behind it.
pub open spec fn is_fraction(w: Seq<u8>) -> bool {
    w.len() == 0 || (w[0] == '.' as u8 && is_digits(w.skip(1)))
}

/// Whether `w` is nothing, or an `e` of either case, with digits behind it, which may have a sign.
pub open spec fn is_exponent(w: Seq<u8>) -> bool {
    ||| w.len() == 0
    ||| {
        &&& w[0] == 'e' as u8 || w[0] == 'E' as u8
        &&& is_digits(w.skip(1)) || (w.len() > 1 && (w[1] == '+' as u8 || w[1] == '-' as u8)
            && is_digits(w.skip(2)))
    }
}

/// Whether `w` is an integer up to `a`, a fraction up to `b`, and an exponent.
pub open spec fn in_parts(w: Seq<u8>, a: int, b: int) -> bool {
    &&& 0 <= a <= b <= w.len()
    &&& is_whole(w.subrange(0, a))
    &&& is_fraction(w.subrange(a, b))
    &&& is_exponent(w.skip(b))
}

/// Whether `w` is a number without a sign.
pub open spec fn is_unsigned(w: Seq<u8>) -> bool {
    exists|a: int, b: int| #[trigger] in_parts(w, a, b)
}

/// Whether `w` is a number: it may have a minus in front, an integer, a fraction and an exponent.
pub open spec fn is_number(w: Seq<u8>) -> bool {
    is_unsigned(w) || (w.len() > 0 && w[0] == '-' as u8 && is_unsigned(w.skip(1)))
}

/// Whether no number that ends at `i` could go on there.
pub open spec fn is_over(s: Seq<u8>, i: int) -> bool {
    0 <= i < s.len() ==> !('0' as u8 <= s[i] <= '9' as u8) && s[i] != '.' as u8 && s[i] != 'e' as u8
        && s[i] != 'E' as u8
}

/// Digits are skipped up to where there are no more.
proof fn lemma_digits_run(s: Seq<u8>, i: int, k: int)
    requires
        0 <= i <= k <= s.len(),
        forall|x: int| i <= x < k ==> '0' as u8 <= #[trigger] s[x] <= '9' as u8,
        k < s.len() ==> !('0' as u8 <= s[k] <= '9' as u8),
    ensures
        skip_digits(s, i) == k,
    decreases k - i,
{
    if i < k {
        assert('0' as u8 <= s[i] <= '9' as u8);
        lemma_digits_run(s, i + 1, k);
    }
}

/// Digits end where they are skipped to.
pub(crate) proof fn lemma_digits_skip(s: Seq<u8>, i: int)
    requires
        0 <= i <= s.len(),
    ensures
        i <= skip_digits(s, i) <= s.len(),
        forall|x: int| i <= x < skip_digits(s, i) ==> '0' as u8 <= #[trigger] s[x] <= '9' as u8,
        skip_digits(s, i) < s.len() ==> !('0' as u8 <= s[skip_digits(s, i)] <= '9' as u8),
    decreases s.len() - i,
{
    if digit_at(s, i) {
        lemma_digits_skip(s, i + 1);
    }
}

/// Digits that stand in a text.
proof fn lemma_digits_stand(s: Seq<u8>, i: int, w: Seq<u8>)
    requires
        stands(s, i, w),
        is_digits(w),
        i + w.len() < s.len() ==> !('0' as u8 <= s[i + w.len()] <= '9' as u8),
    ensures
        digit_at(s, i),
        skip_digits(s, i) == i + w.len(),
{
    let sub = s.subrange(i, i + w.len());
    assert forall|x: int| i <= x < i + w.len() implies '0' as u8 <= #[trigger] s[x] <= '9' as u8 by {
        assert(sub[x - i] == s[x]);
        assert('0' as u8 <= w[x - i] <= '9' as u8);
    }
    assert(s[i] == sub[0]);
    lemma_digits_run(s, i, i + w.len());
}

/// An exponent that stands in a text is read to its end.
proof fn lemma_exponent_reads(s: Seq<u8>, i: int, w: Seq<u8>)
    requires
        stands(s, i, w),
        is_exponent(w),
        is_over(s, i + w.len()),
    ensures
        exponent(s, i) == Ok::<int, Fault>(i + w.len()),
        w.len() == 0 ==> is_over(s, i),
        w.len() > 0 ==> s[i] == w[0],
{
    if w.len() > 0 {
        let sub = s.subrange(i, i + w.len());
        assert(sub[0] == s[i]);
        if is_digits(w.skip(1)) {
            assert(w[1] == w.skip(1)[0]);
            assert(sub[1] == s[i + 1]);
            assert(s.subrange(i + 1, i + w.len()) =~= w.skip(1));
            lemma_digits_stand(s, i + 1, w.skip(1));
        } else {
            assert(sub[1] == s[i + 1]);
            assert(s.subrange(i + 2, i + w.len()) =~= w.skip(2));
            lemma_digits_stand(s, i + 2, w.skip(2));
        }
    }
}

/// A number without a sign that stands in a text is read to its end.
proof fn lemma_unsigned_reads(s: Seq<u8>, i: int, w: Seq<u8>)
    requires
        stands(s, i, w),
        is_unsigned(w),
        is_over(s, i + w.len()),
    ensures
        integer(s, i) == Ok::<int, Fault>(i + w.len()),
        '0' as u8 <= s[i] <= '9' as u8,
        w.len() > 0,
{
    let (a, b) = choose|a: int, b: int| #[trigger] in_parts(w, a, b);
    let (x, y, z) = (w.subrange(0, a), w.subrange(a, b), w.skip(b));
    assert(s.subrange(i + b, i + w.len()) =~= z);
    lemma_exponent_reads(s, i + b, z);
    assert(s.subrange(i + a, i + b) =~= y);
    if y.len() > 0 {
        assert(s[i + a] == s.subrange(i + a, i + b)[0]);
        assert(s.subrange(i + a + 1, i + b) =~= y.skip(1));
        lemma_digits_stand(s, i + a + 1, y.skip(1));
    }
    assert(fraction(s, i + a) == Ok::<int, Fault>(i + w.len()));
    assert(s.subrange(i, i + a) =~= x);
    assert(s[i] == s.subrange(i, i + a)[0]);
    assert('0' as u8 <= x[0] <= '9' as u8);
    if x[0] != '0' as u8 {
        lemma_digits_stand(s, i, x);
    }
}

/// A number that stands in a text, where it could not go on, is read to its end.
pub proof fn law_number_reads(s: Seq<u8>, i: int, w: Seq<u8>)
    requires
        stands(s, i, w),
        is_number(w),
        is_over(s, i + w.len()),
    ensures
        number(s, i) == Ok::<int, Fault>(i + w.len()),
        w.len() > 0,
        s[i] == '-' as u8 || '0' as u8 <= s[i] <= '9' as u8,
{
    if is_unsigned(w) {
        lemma_unsigned_reads(s, i, w);
    } else {
        assert(s[i] == s.subrange(i, i + w.len())[0]);
        assert(s.subrange(i + 1, i + w.len()) =~= w.skip(1));
        lemma_unsigned_reads(s, i + 1, w.skip(1));
    }
}

/// What is read as an exponent is one.
proof fn lemma_exponent_only(s: Seq<u8>, i: int)
    requires
        0 <= i <= s.len(),
    ensures
        exponent(s, i) matches Ok(k) ==> i <= k <= s.len() && is_exponent(s.subrange(i, k)),
{
    if exponent(s, i) is Ok {
        let k = exponent(s, i)->Ok_0;
        let w = s.subrange(i, k);
        if i < s.len() && (s[i] == 'e' as u8 || s[i] == 'E' as u8) {
            let j = if i + 1 < s.len() && is_sign(s[i + 1]) {
                i + 2
            } else {
                i + 1
            };
            lemma_digits_skip(s, j);
            assert(w.skip(j - i) =~= s.subrange(j, k));
            assert(w[0] == s[i]);
            assert(is_digits(s.subrange(j, k)));
            if j == i + 2 {
                assert(w[1] == s[i + 1]);
            }
        }
    }
}

/// What is read as a number without a sign is one.
proof fn lemma_unsigned_only(s: Seq<u8>, i: int)
    requires
        0 <= i <= s.len(),
    ensures
        integer(s, i) matches Ok(k) ==> i < k <= s.len() && is_unsigned(s.subrange(i, k)),
{
    if integer(s, i) is Ok {
        let k = integer(s, i)->Ok_0;
        let w = s.subrange(i, k);
        lemma_digits_skip(s, i);
        let a = if s[i] == '0' as u8 {
            i + 1
        } else {
            skip_digits(s, i)
        };
        let b = if a < s.len() && s[a] == '.' as u8 {
            lemma_digits_skip(s, a + 1);
            skip_digits(s, a + 1)
        } else {
            a
        };
        lemma_exponent_only(s, b);
        assert(w.subrange(0, a - i) =~= s.subrange(i, a));
        assert(w.subrange(a - i, b - i) =~= s.subrange(a, b));
        assert(w.skip(b - i) =~= s.subrange(b, k));
        if b > a {
            assert(s.subrange(a, b).skip(1) =~= s.subrange(a + 1, b));
            assert(is_digits(s.subrange(a + 1, b)));
        }
        assert(is_digits(s.subrange(i, a)));
        assert(in_parts(w, a - i, b - i));
    }
}

/// Nothing else is read as a number.
pub proof fn law_number_only(s: Seq<u8>, i: int)
    requires
        0 <= i <= s.len(),
    ensures
        number(s, i) matches Ok(k) ==> i < k <= s.len() && is_number(s.subrange(i, k)),
{
    if i < s.len() && s[i] == '-' as u8 {
        lemma_unsigned_only(s, i + 1);
        if number(s, i) is Ok {
            let k = number(s, i)->Ok_0;
            assert(s.subrange(i, k).skip(1) =~= s.subrange(i + 1, k));
        }
    } else {
        lemma_unsigned_only(s, i);
    }
}

/// Whether `s` holds nothing but white space from `a` to `b`.
pub open spec fn is_blank(s: Seq<u8>, a: int, b: int) -> bool {
    &&& 0 <= a <= b <= s.len()
    &&& forall|x: int|
        a <= x < b ==> #[trigger] s[x] == ' ' as u8 || s[x] == '\t' as u8 || s[x] == '\n' as u8 || s[x]
            == '\r' as u8
}

/// Whether `s` holds, from `a` to `b`, a string for the text `t`.
pub open spec fn is_string(s: Seq<u8>, a: int, b: int, t: Seq<u8>) -> bool {
    &&& 0 <= a
    &&& a + 2 <= b <= s.len()
    &&& s[a] == '"' as u8
    &&& s[b - 1] == '"' as u8
    &&& exists|cs: Seq<char>| #[trigger]
        spells_all(s.subrange(a + 1, b - 1), cs) && t == encode_utf8(cs)
}

/// The items of a container.
pub open spec fn parts(t: Json) -> Seq<Item> {
    match t {
        Json::Array(its) => its,
        Json::Object(its) => its,
        _ => Seq::empty(),
    }
}

/// Whether `s` holds the value `t` from `a` to `b`.
pub open spec fn notes(s: Seq<u8>, a: int, b: int, t: Json) -> bool
    decreases t, parts(t).len() + 2,
{
    &&& 0 <= a <= b <= s.len()
    &&& match t {
        Json::Null => s.subrange(a, b) == seq!['n' as u8, 'u' as u8, 'l' as u8, 'l' as u8],
        Json::Bool(true) => s.subrange(a, b) == seq!['t' as u8, 'r' as u8, 'u' as u8, 'e' as u8],
        Json::Bool(false) => s.subrange(a, b) == seq![
            'f' as u8,
            'a' as u8,
            'l' as u8,
            's' as u8,
            'e' as u8,
        ],
        Json::Number(n) => s.subrange(a, b) == n && is_number(n),
        Json::Text(x) => is_string(s, a, b, x),
        Json::Array(its) => {
            &&& a + 2 <= b
            &&& s[a] == '[' as u8
            &&& s[b - 1] == ']' as u8
            &&& if its.len() == 0 {
                is_blank(s, a + 1, b - 1)
            } else {
                lists(s, a + 1, b - 1, t, 0)
            }
        },
        Json::Object(its) => {
            &&& a + 2 <= b
            &&& s[a] == '{' as u8
            &&& s[b - 1] == '}' as u8
            &&& if its.len() == 0 {
                is_blank(s, a + 1, b - 1)
            } else {
                lists(s, a + 1, b - 1, t, 0)
            }
        },
    }
}

/// Whether `e` lies between `a` and `b`.
pub open spec fn lies_between(a: int, e: int, b: int) -> bool {
    a <= e <= b
}

/// Whether `s` holds, from `a` to `b`, the items of `t` from number `n` on, with commas between them.
pub open spec fn lists(s: Seq<u8>, a: int, b: int, t: Json, n: int) -> bool
    decreases t, parts(t).len() - n + 1,
{
    &&& 0 <= n < parts(t).len()
    &&& exists|e: int|
        {
            &&& #[trigger] lies_between(a, e, b)
            &&& holds_item(s, a, e, t, n)
            &&& if n + 1 == parts(t).len() {
                e == b
            } else {
                e < b && s[e] == ',' as u8 && lists(s, e + 1, b, t, n + 1)
            }
        }
}

/// Whether `s` holds, from `a` to `b`, the item number `n` of `t`, with white space around it.
pub open spec fn holds_item(s: Seq<u8>, a: int, b: int, t: Json, n: int) -> bool
    decreases t, 0int,
{
    &&& 0 <= n < parts(t).len()
    &&& if t is Array {
        parts(t)[n].name == Seq::<u8>::empty() && exists|x: int, y: int| #[trigger]
            around(s, a, b, x, y) && notes(s, x, y, parts(t)[n].value)
    } else {
        exists|k: Colon, x: int, y: int| #[trigger]
            around_member(s, a, b, k, x, y, parts(t)[n].name) && notes(s, x, y, parts(t)[n].value)
    }
}

/// Whether there is only white space from `a` to `b` but from `x` to `y`.
pub open spec fn around(s: Seq<u8>, a: int, b: int, x: int, y: int) -> bool {
    is_blank(s, a, x) && is_blank(s, y, b)
}

/// Where the key of a member starts and ends, and where its colon is.
pub struct Colon {
    pub start: int,
    pub end: int,
    pub at: int,
}

/// Whether there is, from `a` to `b` but from `x` to `y`, only the string `name`, a colon behind it,
/// and white space around them.
pub open spec fn around_member(
    s: Seq<u8>,
    a: int,
    b: int,
    k: Colon,
    x: int,
    y: int,
    name: Seq<u8>,
) -> bool {
    &&& is_blank(s, a, k.start)
    &&& is_string(s, k.start, k.end, name)
    &&& is_blank(s, k.end, k.at)
    &&& k.at < s.len()
    &&& s[k.at] == ':' as u8
    &&& is_blank(s, k.at + 1, x)
    &&& is_blank(s, y, b)
}

/// Whether `t` nests at most `room` containers in each other.
pub open spec fn nests(t: Json, room: int) -> bool
    decreases t,
{
    t is Array || t is Object ==> room > 0 && forall|n: int|
        0 <= n < parts(t).len() ==> nests((#[trigger] parts(t)[n]).value, room - 1)
}

/// White space is skipped.
pub(crate) proof fn lemma_blank(s: Seq<u8>, a: int, b: int)
    requires
        is_blank(s, a, b),
        b < s.len(),
        !is_blank(s, b, b + 1),
    ensures
        skip_space(s, a) == b,
{
    lemma_skip_run(s, a, b);
}

/// What is skipped is white space.
pub(crate) proof fn lemma_blank_skip(s: Seq<u8>, a: int)
    requires
        0 <= a <= s.len(),
    ensures
        is_blank(s, a, skip_space(s, a)),
{
    lemma_skip_space(s, a);
}

/// A word is read as itself, and nothing else is.
proof fn lemma_word(s: Seq<u8>, a: int, word: Seq<u8>)
    requires
        0 <= a <= s.len(),
        word.len() <= 5,
    ensures
        word_end(s, a, word, 0) matches Ok(k) ==> k == a + word.len() <= s.len() && s.subrange(a, k)
            == word,
        stands(s, a, word) ==> word_end(s, a, word, 0) == Ok::<int, Fault>(a + word.len()),
{
    reveal_with_fuel(word_end, 6);
    if word_end(s, a, word, 0) is Ok {
        assert(s.subrange(a, a + word.len()) =~= word);
    }
    if stands(s, a, word) {
        let sub = s.subrange(a, a + word.len());
        assert forall|x: int| 0 <= x < word.len() implies s[a + x] == #[trigger] word[x] by {
            assert(sub[x] == s[a + x]);
        }
    }
}

/// A value without parts is noted down as what is read.
proof fn lemma_scalar_only(s: Seq<u8>, i: int, room: int)
    requires
        0 <= i,
        value(s, i, room) is Ok,
        s[i] != '[' as u8,
        s[i] != '{' as u8,
    ensures
        notes(s, i, value(s, i, room)->Ok_0, tree(s, i, room)),
        nests(tree(s, i, room), room),
{
    lemma_value(s, i, room);
    let k = value(s, i, room)->Ok_0;
    if s[i] == '"' as u8 {
        law_text_only(s, i + 1);
    } else if s[i] == '-' as u8 || '0' as u8 <= s[i] <= '9' as u8 {
        law_number_only(s, i);
    } else {
        lemma_word(s, i, word_of(s[i]));
        assert(s[i] == s.subrange(i, k)[0]);
    }
}

/// A value is noted down as what is read.
pub(crate) proof fn lemma_value_only(s: Seq<u8>, i: int, room: int)
    requires
        0 <= i,
        value(s, i, room) is Ok,
    ensures
        notes(s, i, value(s, i, room)->Ok_0, tree(s, i, room)),
        nests(tree(s, i, room), room),
    decreases s.len() - i, 0int,
{
    lemma_value(s, i, room);
    if s[i] == '[' as u8 || s[i] == '{' as u8 {
        let t = tree(s, i, room);
        let state = if s[i] == '{' as u8 {
            State::ObjFirst
        } else {
            State::ArrFirst
        };
        reveal(left);
        assert(parts(t).skip(0) =~= parts(t));
        lemma_rest_only(s, i + 1, state, room - 1, t, 0);
        assert(nests(t, room));
    } else {
        lemma_scalar_only(s, i, room);
    }
}

/// Where the items of `t` from number `n` on are noted down, in front of `e`.
spec fn lists_on(s: Seq<u8>, j: int, e: int, t: Json, n: int) -> bool {
    if n >= parts(t).len() {
        is_blank(s, j, e)
    } else if n == 0 {
        lists(s, j, e, t, 0)
    } else {
        exists|c: int| #[trigger] comma_at(s, j, c) && c < e && lists(s, c + 1, e, t, n)
    }
}

/// A comma, behind white space.
spec fn comma_at(s: Seq<u8>, j: int, c: int) -> bool {
    is_blank(s, j, c) && c < s.len() && s[c] == ',' as u8
}

/// What is left of a container is noted down as what is read.
#[verifier::rlimit(40)]
proof fn lemma_rest_only(s: Seq<u8>, j: int, state: State, room: int, t: Json, n: int)
    requires
        left(s, j, state, room).0 is Ok,
        at_item(state),
        0 <= n <= parts(t).len(),
        (n == 0) == (state != behind(state)),
        parts(t).skip(n) == left(s, j, state, room).1,
        t is Array || t is Object,
        t is Array <==> behind(state) == State::ArrComma,
    ensures
        ({
            let e = left(s, j, state, room).0->Ok_0 - 1;
            &&& 0 <= j <= e < s.len()
            &&& s[e] == (if t is Array {
                ']' as u8
            } else {
                '}' as u8
            })
            &&& lists_on(s, j, e, t, n)
            &&& forall|k: int|
                n <= k < parts(t).len() ==> nests((#[trigger] parts(t)[k]).value, room)
        }),
    decreases s.len() - j, 1int,
{
    lemma_piece(s, j, state, room);
    let e = left(s, j, state, room).0->Ok_0 - 1;
    match piece(s, j, state, room) {
        None => {
            assert(parts(t).skip(n).len() == 0);
            lemma_end_place(s, j, state);
            lemma_blank_skip(s, j);
        },
        Some(p) => {
            let its = parts(t);
            assert(its.skip(n).len() > 0);
            assert(its[n] == its.skip(n)[0]);
            assert(its[n] == read_item(s, p, room));
            assert(its.skip(n + 1) =~= left(s, p.end, behind(state), room).1) by {
                assert(its.skip(n + 1) =~= its.skip(n).skip(1));
            }
            assert(its[n] == (Item { name: p.name, value: tree(s, p.at, room) })) by {
                reveal(read_item);
            }
            assert(value(s, p.at, room) == Ok::<int, Fault>(p.end)) by {
                reveal(piece);
            }
            lemma_value_only(s, p.at, room);
            lemma_rest_only(s, p.end, behind(state), room, t, n + 1);
            let next = if n + 1 == its.len() {
                e
            } else {
                choose|c: int| #[trigger]
                    comma_at(s, p.end, c) && c < e && lists(s, c + 1, e, t, n + 1)
            };
            lemma_item_marks(s, j, state, room, t, n, next);
            let a = if n == 0 {
                j
            } else {
                skip_space(s, j) + 1
            };
            assert(lies_between(a, next, e));
            assert(lists(s, a, e, t, n));
            if n > 0 {
                assert(comma_at(s, j, a - 1));
            }
        },
    }
}

/// The next item of a container, with what stands around it.
proof fn lemma_item_marks(
    s: Seq<u8>,
    j: int,
    state: State,
    room: int,
    t: Json,
    n: int,
    next: int,
)
    requires
        left(s, j, state, room).0 is Ok,
        at_item(state),
        0 <= n < parts(t).len(),
        (n == 0) == (state != behind(state)),
        t is Array || t is Object,
        t is Array <==> behind(state) == State::ArrComma,
        piece(s, j, state, room) matches Some(p) && {
            &&& parts(t)[n] == Item { name: p.name, value: tree(s, p.at, room) }
            &&& notes(s, p.at, p.end, tree(s, p.at, room))
            &&& is_blank(s, p.end, next)
        },
    ensures
        ({
            let a = if n == 0 {
                j
            } else {
                skip_space(s, j) + 1
            };
            &&& n > 0 ==> comma_at(s, j, a - 1)
            &&& holds_item(s, a, next, t, n)
            &&& a <= piece(s, j, state, room)->Some_0.front
        }),
{
    lemma_piece(s, j, state, room);
    let p = piece(s, j, state, room)->Some_0;
    reveal(piece);
    let m = next_token(s, j, state, false)->Ok_0;
    lemma_next_token(s, j, state, false);
    lemma_blank_skip(s, j);
    lemma_skip_space(s, j);
    let a = if n == 0 {
        j
    } else {
        skip_space(s, j) + 1
    };
    lemma_blank_skip(s, a);
    lemma_skip_space(s, a);
    assert(is_blank(s, a, m.at));
    if n > 0 {
        assert(comma_at(s, j, a - 1));
    }
    if t is Array {
        assert(around(s, a, next, p.at, p.end));
        assert(holds_item(s, a, next, t, n));
    } else {
        law_text_only(s, m.at + 1);
        lemma_text(s, m.at + 1);
        let k = text(s, m.at + 1)->Ok_0.0;
        lemma_next_token(s, k, State::ObjColon, false);
        lemma_blank_skip(s, k);
        lemma_skip_space(s, k);
        let z = skip_space(s, k);
        lemma_blank_skip(s, z + 1);
        lemma_skip_space(s, z + 1);
        let c = Colon { start: m.at, end: k, at: z };
        assert(is_string(s, m.at, k, p.name));
        assert(parts(t)[n].name == p.name);
        assert(around_member(s, a, next, c, p.at, p.end, parts(t)[n].name));
        assert(holds_item(s, a, next, t, n));
    }
}

/// Where no number could go on: white space, a comma, or a closing bracket.
proof fn lemma_over(s: Seq<u8>, y: int, b: int)
    requires
        is_blank(s, y, b),
        b < s.len(),
        s[b] == ',' as u8 || s[b] == ']' as u8 || s[b] == '}' as u8,
    ensures
        is_over(s, y),
        ends(s, y),
        skip_space(s, y) == b,
{
    assert(!is_blank(s, b, b + 1)) by {
        assert(s[b] == s[b]);
    }
    lemma_blank(s, y, b);
    if y < b {
        assert(s[y] == ' ' as u8 || s[y] == '\t' as u8 || s[y] == '\n' as u8 || s[y] == '\r' as u8);
    }
}

/// The first byte of a value is no white space, and tells its kind.
pub(crate) proof fn lemma_first_of(s: Seq<u8>, a: int, b: int, t: Json)
    requires
        notes(s, a, b, t),
    ensures
        a < b,
        value_token(s[a]) is Some,
        !is_space(s[a]),
        s[a] != ',' as u8,
        s[a] != ']' as u8,
        value_token(s[a]) matches Some(k) && starts_value(k),
{
    let w = s.subrange(a, b);
    assert(w.len() == b - a);
    match t {
        Json::Number(n) => {
            assert(w.subrange(0, n.len() as int) =~= n);
            law_number_reads(w, 0, n);
        },
        Json::Null => {
            assert(w.len() == 4);
        },
        Json::Bool(v) => {
            assert(w.len() == 4 || w.len() == 5);
        },
        _ => {},
    }
    assert(w[0] == s[a]);
}

/// A value without parts is read as what is noted down.
proof fn lemma_scalar_reads(s: Seq<u8>, a: int, b: int, t: Json, room: int)
    requires
        notes(s, a, b, t),
        is_over(s, b),
        !(t is Array),
        !(t is Object),
    ensures
        value(s, a, room) == Ok::<int, Fault>(b),
        tree(s, a, room) == t,
{
    lemma_first_of(s, a, b, t);
    let w = s.subrange(a, b);
    assert(s[a] == w[0]);
    match t {
        Json::Number(n) => {
            law_number_reads(s, a, n);
        },
        Json::Text(x) => {
            let cs = choose|cs: Seq<char>| #[trigger]
                spells_all(s.subrange(a + 1, b - 1), cs) && x == encode_utf8(cs);
            law_text_reads(s, a + 1, s.subrange(a + 1, b - 1), cs);
        },
        _ => {
            lemma_word(s, a, w);
            assert(word_of(s[a]) =~= w);
        },
    }
}

/// A value is read as what is noted down.
#[verifier::rlimit(40)]
pub(crate) proof fn lemma_value_reads(s: Seq<u8>, a: int, b: int, t: Json, room: int)
    requires
        notes(s, a, b, t),
        nests(t, room),
        is_over(s, b),
    ensures
        value(s, a, room) == Ok::<int, Fault>(b),
        tree(s, a, room) == t,
    decreases t, parts(t).len() + 2,
{
    if t is Array || t is Object {
        let its = parts(t);
        let state = if t is Array {
            State::ArrFirst
        } else {
            State::ObjFirst
        };
        if its.len() == 0 {
            lemma_end_reads(s, a + 1, b - 1, state, room - 1);
            assert(its =~= Seq::<Item>::empty());
        } else {
            lemma_list_reads(s, a + 1, a + 1, b - 1, t, 0, room - 1);
            assert(its.skip(0) =~= its);
        }
        reveal(left);
    } else {
        lemma_scalar_reads(s, a, b, t, room);
    }
}

/// The end of a container.
proof fn lemma_end_reads(s: Seq<u8>, j: int, b: int, state: State, room: int)
    requires
        is_blank(s, j, b),
        b < s.len(),
        at_item(state),
        s[b] == (if behind(state) == State::ArrComma {
            ']' as u8
        } else {
            '}' as u8
        }),
    ensures
        left(s, j, state, room) == (Ok::<int, Fault>(b + 1), Seq::<Item>::empty()),
{
    lemma_over(s, j, b);
    reveal(left);
}

/// A value met where one may follow.
proof fn lemma_meets(s: Seq<u8>, j: int, a: int, x: int, state: State)
    requires
        0 <= j <= a <= x < s.len(),
        state == State::ArrFirst || state == State::ArrComma || state == State::ObjColon || state
            == State::ObjFirst || state == State::ObjComma,
        if state == State::ArrFirst || state == State::ObjFirst {
            j == a
        } else {
            a > j && is_blank(s, j, a - 1) && s[a - 1] == (if state == State::ObjColon {
                ':' as u8
            } else {
                ',' as u8
            })
        },
        is_blank(s, a, x),
        !is_space(s[x]),
        state == State::ObjFirst || state == State::ObjComma ==> s[x] == '"' as u8,
        state == State::ArrFirst || state == State::ArrComma || state == State::ObjColon ==> (
        value_token(s[x]) matches Some(k) && starts_value(k) && s[x] != ']' as u8),
        s[x] != ',' as u8,
    ensures
        next_token(s, j, state, false) matches Ok(m) && m.at == x && (if state == State::ObjFirst
            || state == State::ObjComma {
            m.token == Token::Key
        } else {
            Some(m.token) == value_token(s[x]) && value_end(m.state) == behind(
                if state == State::ObjColon {
                    State::ObjComma
                } else {
                    state
                },
            )
        }),
{
    assert(!is_blank(s, x, x + 1)) by {
        assert(s[x] == s[x]);
    }
    lemma_blank(s, a, x);
    if a > j {
        assert(!is_blank(s, a - 1, a)) by {
            assert(s[a - 1] == s[a - 1]);
        }
        lemma_blank(s, j, a - 1);
    }
}

/// The items of a container are read as they are noted down.
#[verifier::rlimit(40)]
proof fn lemma_list_reads(s: Seq<u8>, j: int, a: int, b: int, t: Json, n: int, room: int)
    requires
        t is Array || t is Object,
        lists(s, a, b, t, n),
        0 <= j <= a,
        b < s.len(),
        s[b] == (if t is Array {
            ']' as u8
        } else {
            '}' as u8
        }),
        forall|k: int| 0 <= k < parts(t).len() ==> nests((#[trigger] parts(t)[k]).value, room),
        if n == 0 {
            j == a
        } else {
            comma_at(s, j, a - 1) && j < a
        },
    ensures
        left(s, j, item_state(t, n), room) == (Ok::<int, Fault>(b + 1), parts(t).skip(n)),
    decreases t, parts(t).len() - n + 1,
{
    let its = parts(t);
    let e = choose|e: int|
        {
            &&& #[trigger] lies_between(a, e, b)
            &&& holds_item(s, a, e, t, n)
            &&& if n + 1 == parts(t).len() {
                e == b
            } else {
                e < b && s[e] == ',' as u8 && lists(s, e + 1, b, t, n + 1)
            }
        };
    let (k, x, y) = if t is Array {
        let (x, y) = choose|x: int, y: int| #[trigger]
            around(s, a, e, x, y) && notes(s, x, y, parts(t)[n].value);
        (Colon { start: 0, end: 0, at: 0 }, x, y)
    } else {
        choose|k: Colon, x: int, y: int| #[trigger]
            around_member(s, a, e, k, x, y, parts(t)[n].name) && notes(s, x, y, parts(t)[n].value)
    };
    lemma_over(s, y, e);
    lemma_value_reads(s, x, y, its[n].value, room);
    lemma_first_of(s, x, y, its[n].value);
    let next = if t is Array {
        State::ArrComma
    } else {
        State::ObjComma
    };
    if n + 1 == its.len() {
        lemma_end_reads(s, y, b, next, room);
        assert(its.skip(n + 1) =~= Seq::<Item>::empty());
    } else {
        assert(comma_at(s, y, e));
        lemma_list_reads(s, y, e + 1, b, t, n + 1, room);
    }
    let item = Item { name: its[n].name, value: tree(s, x, room) };
    assert(its.skip(n) =~= seq![item] + its.skip(n + 1));
    let state = item_state(t, n);
    reveal(left);
    if t is Array {
        lemma_meets(s, j, a, x, state);
        lemma_join_value(s, j, state, room, Seq::empty(), y);
    } else {
        lemma_meets(s, j, a, k.start, state);
        let cs = choose|cs: Seq<char>| #[trigger]
            spells_all(s.subrange(k.start + 1, k.end - 1), cs) && its[n].name == encode_utf8(cs);
        law_text_reads(s, k.start + 1, s.subrange(k.start + 1, k.end - 1), cs);
        lemma_join_key(s, j, state, room, Seq::empty(), k.end, its[n].name);
        lemma_meets(s, k.end, k.at + 1, x, State::ObjColon);
        lemma_join_value(s, k.end, State::ObjColon, room, its[n].name, y);
    }
}

/// What is expected in front of the item number `n` of `t`.
spec fn item_state(t: Json, n: int) -> State {
    if t is Array {
        if n == 0 {
            State::ArrFirst
        } else {
            State::ArrComma
        }
    } else {
        if n == 0 {
            State::ObjFirst
        } else {
            State::ObjComma
        }
    }
}

/// The grammar reads a value exactly where one is noted down: up to where it ends, as what it
/// stands for, and if it nests no deeper than `room` levels. (A number ends where it could not go
/// on.)
pub proof fn law_value(s: Seq<u8>, a: int, b: int, t: Json, room: int)
    requires
        0 <= a <= s.len(),
        is_over(s, b),
    ensures
        notes(s, a, b, t) && nests(t, room) <==> value(s, a, room) == Ok::<int, Fault>(b) && tree(
            s,
            a,
            room,
        ) == t,
{
    if notes(s, a, b, t) && nests(t, room) {
        lemma_value_reads(s, a, b, t, room);
    }
    if value(s, a, room) == Ok::<int, Fault>(b) {
        lemma_value_only(s, a, room);
    }
}

/// Whether `s` is a document for `t`: the value from `a` to `b`, and white space around it.
pub open spec fn document_at(s: Seq<u8>, t: Json, a: int, b: int) -> bool {
    is_blank(s, 0, a) && notes(s, a, b, t) && is_blank(s, b, s.len() as int)
}

/// A document is one value, with white space around it, that nests no deeper than the limit; it
/// means that value, and no other.
pub proof fn law_document(s: Seq<u8>, t: Json, limit: int)
    requires
        0 <= limit,
    ensures
        is_document(s, 0, limit) && meaning(s, limit) == t <==> nests(t, limit) && exists|
            a: int,
            b: int,
        | #[trigger] document_at(s, t, a, b),
{
    reveal(is_document);
    reveal(meaning);
    let i = skip_space(s, 0);
    lemma_skip_space(s, 0);
    lemma_blank_skip(s, 0);
    if is_document(s, 0, limit) && meaning(s, limit) == t {
        let k = value(s, i, limit)->Ok_0;
        lemma_value(s, i, limit);
        lemma_value_only(s, i, limit);
        lemma_blank_skip(s, k);
        assert(document_at(s, t, i, k));
    }
    if nests(t, limit) && exists|a: int, b: int| #[trigger] document_at(s, t, a, b) {
        let (a, b) = choose|a: int, b: int| #[trigger] document_at(s, t, a, b);
        lemma_first_of(s, a, b, t);
        assert(!is_blank(s, a, a + 1)) by {
            assert(s[a] == s[a]);
        }
        lemma_blank(s, 0, a);
        if b < s.len() {
            assert(s[b] == ' ' as u8 || s[b] == '\t' as u8 || s[b] == '\n' as u8 || s[b]
                == '\r' as u8);
        }
        lemma_value_reads(s, a, b, t, limit);
        lemma_skip_run(s, b, s.len() as int);
    }
}

} // verus!
