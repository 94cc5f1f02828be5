//! What is wrong with a document that is refused: laws on the kinds and the places of syntax errors,
//! told from the bytes.

use vstd::prelude::*;
use vstd::utf8::encode_scalar;

use crate::cursor::{Doc, Outcome};
use crate::error::{ascii, kind_text, ErrorKind};
use crate::grammar::{
    byte, digit_at, escape, exponent, hex, integer, lemma_next_token, lemma_skip_space, lemma_text,
    lemma_unit, lemma_utf8_end, lemma_value, literal, next_token, number, rest, separator,
    skip_digits, skip_space, text, unit, utf8_end, utf8_len, utf8_tail, value, word_end, Fault,
};
use crate::layout::lower_hex;
use crate::notation::{
    in_parts, is_blank, is_digits, is_exponent, is_number, is_string, is_u_escape, is_unsigned,
    law_character, law_character_only, law_text_only, lemma_blank_skip, lemma_digits_skip,
    lemma_first_byte, lemma_in_hex, lemma_value_only, nests, notes, spelled_first, spells,
    spells_all,
};
use crate::parser::{start, State};
use crate::splice::{at_item, behind};
use crate::tree::{tree, Json};
use crate::util::check;
use crate::writer::hex_char;

verus! {

/// Whether `f` is the fault `kind` at `at`.
pub open spec fn is_fault(f: Fault, kind: ErrorKind, at: int) -> bool {
    f.kind == kind && f.at == at
}

/// Whether `b` is a hexadecimal digit.
pub open spec fn is_any_hex(b: u8) -> bool {
    '0' as u8 <= b <= '9' as u8 || 'a' as u8 <= b <= 'f' as u8 || 'A' as u8 <= b <= 'F' as u8
}

/// Whether there are `k` hexadecimal digits from `i` on, and then the fault: the input ends before
/// there are four, or what stands there is none.
pub open spec fn misses_digit(s: Seq<u8>, i: int, k: int, f: Fault) -> bool {
    &&& 0 <= k < 4
    &&& i + k <= s.len()
    &&& forall|j: int| i <= j < i + k ==> is_any_hex(#[trigger] s[j])
    &&& if i + k == s.len() {
        is_fault(f, ErrorKind::UnexpectedEof, i + k)
    } else {
        !is_any_hex(s[i + k]) && is_fault(f, ErrorKind::InvalidEscape, i + k)
    }
}

/// Whether the `\u` escape at `i` lacks digits.
pub open spec fn spoils_digits(s: Seq<u8>, i: int, f: Fault) -> bool {
    &&& i + 1 < s.len()
    &&& s[i] == '\\' as u8
    &&& s[i + 1] == 'u' as u8
    &&& exists|k: int| #[trigger] misses_digit(s, i + 2, k, f)
}

/// Whether there is a `\u` escape for the code unit `v` at `i`.
pub open spec fn unit_at(s: Seq<u8>, i: int, v: int) -> bool {
    0 <= i && i + 6 <= s.len() && is_u_escape(s.subrange(i, i + 6), v)
}

/// Whether the escape for the second half of a surrogate pair, which should be at `i`, is not there.
pub open spec fn spoils_pair(s: Seq<u8>, i: int, f: Fault) -> bool {
    if i == s.len() || s[i] != '\\' as u8 {
        is_fault(f, ErrorKind::InvalidUnicode, i)
    } else if i + 1 == s.len() || s[i + 1] != 'u' as u8 {
        is_fault(f, ErrorKind::InvalidUnicode, i + 1)
    } else {
        ||| spoils_digits(s, i, f)
        ||| exists|v: int| #[trigger]
            unit_at(s, i, v) && !(0xdc00 <= v < 0xe000) && is_fault(
                f,
                ErrorKind::InvalidUnicode,
                i + 6,
            )
    }
}

/// Whether `e`, behind a backslash, stands for a character.
pub open spec fn is_letter(e: u8) -> bool {
    e == '"' as u8 || e == '\\' as u8 || e == '/' as u8 || e == 'b' as u8 || e == 'f' as u8 || e
        == 'n' as u8 || e == 'r' as u8 || e == 't' as u8
}

/// Whether the escape at `i` is none: the input ends there, its letter or its digits are wrong, or it
/// is half of a surrogate pair, without the other half.
pub open spec fn spoils_escape(s: Seq<u8>, i: int, f: Fault) -> bool {
    if i + 1 == s.len() {
        is_fault(f, ErrorKind::UnexpectedEof, i + 1)
    } else if s[i + 1] != 'u' as u8 {
        !is_letter(s[i + 1]) && is_fault(f, ErrorKind::InvalidEscape, i + 1)
    } else {
        ||| spoils_digits(s, i, f)
        ||| exists|v: int| #[trigger]
            unit_at(s, i, v) && 0xdc00 <= v < 0xe000 && is_fault(
                f,
                ErrorKind::InvalidUnicode,
                i + 6,
            )
        ||| exists|v: int| #[trigger]
            unit_at(s, i, v) && 0xd800 <= v < 0xdc00 && spoils_pair(s, i + 6, f)
    }
}

/// Whether the encoding of `c` starts with `w`, and goes on.
pub open spec fn starts_with(c: char, w: Seq<u8>) -> bool {
    w.len() < encode_scalar(c as u32).len() && encode_scalar(c as u32).subrange(
        0,
        w.len() as int,
    ) == w
}

/// Whether the UTF-8 of a character that starts at `i` breaks off after `k` bytes: they could be the
/// start of one, but the input ends, or the next byte cannot follow them.
pub open spec fn breaks_off(s: Seq<u8>, i: int, k: int, f: Fault) -> bool {
    &&& 0 <= k < 4
    &&& i + k <= s.len()
    &&& exists|c: char| #[trigger] starts_with(c, s.subrange(i, i + k))
    &&& if i + k == s.len() {
        is_fault(f, ErrorKind::UnexpectedEof, i + k)
    } else {
        &&& is_fault(f, ErrorKind::InvalidUnicode, i + k)
        &&& forall|c: char| #[trigger]
            starts_with(c, s.subrange(i, i + k)) ==> encode_scalar(c as u32)[k] != s[i + k]
    }
}

/// Whether what stands at `i` in a string is no character, and `f` says why.
pub open spec fn spoils(s: Seq<u8>, i: int, f: Fault) -> bool {
    if s[i] < 0x20 {
        is_fault(f, ErrorKind::ControlCharacter, i)
    } else if s[i] == '\\' as u8 {
        spoils_escape(s, i, f)
    } else {
        s[i] >= 0x80 && exists|k: int| #[trigger] breaks_off(s, i, k, f)
    }
}

/// Digits that are missing.
proof fn lemma_misses(s: Seq<u8>, i: int)
    requires
        0 <= i <= s.len(),
    ensures
        hex(s, i, 4, 0) matches Err(f) ==> exists|k: int| #[trigger] misses_digit(s, i, k, f),
{
    reveal_with_fuel(hex, 5);
    if hex(s, i, 4, 0) is Err {
        let f = hex(s, i, 4, 0)->Err_0;
        assert(misses_digit(s, i, f.at - i, f));
    }
}

/// A `\u` escape, as far as its digits go.
proof fn lemma_spoils_digits(s: Seq<u8>, i: int)
    requires
        0 <= i < s.len(),
        i + 1 < s.len(),
        s[i] == '\\' as u8,
        s[i + 1] == 'u' as u8,
    ensures
        match hex(s, i + 2, 4, 0) {
            Err(f) => spoils_digits(s, i, f),
            Ok(v) => unit_at(s, i, v),
        },
{
    lemma_misses(s, i + 2);
    lemma_in_hex(s, i + 2);
    if hex(s, i + 2, 4, 0) is Ok {
        let w = s.subrange(i, i + 6);
        assert(w.skip(2) =~= s.subrange(i + 2, i + 6));
        assert(w[0] == s[i] && w[1] == s[i + 1]);
    }
}

/// An escape that is refused.
proof fn lemma_spoils_escape(s: Seq<u8>, i: int)
    requires
        0 <= i < s.len(),
        s[i] == '\\' as u8,
    ensures
        escape(s, i + 1) matches Err(f) ==> spoils_escape(s, i, f),
{
    if escape(s, i + 1) is Err && i + 1 < s.len() && s[i + 1] == 'u' as u8 {
        let f = escape(s, i + 1)->Err_0;
        lemma_spoils_digits(s, i);
        if hex(s, i + 2, 4, 0) is Ok {
            let v = hex(s, i + 2, 4, 0)->Ok_0;
            let j = i + 6;
            if 0xd800 <= v < 0xdc00 {
                if j + 1 < s.len() && s[j] == '\\' as u8 && s[j + 1] == 'u' as u8 {
                    lemma_spoils_digits(s, j);
                    assert(hex(s, i + 1 + 1 + 6, 4, 0) == hex(s, j + 2, 4, 0));
                    assert(i + 1 + 1 + 10 == j + 6);
                }
                assert(spoils_pair(s, j, f));
            }
        }
    }
}

/// The bytes of a character beyond ASCII are those that are read as one.
proof fn lemma_character_bytes(c: char)
    requires
        encode_scalar(c as u32)[0] >= 0x80,
    ensures
        ({
            let e = encode_scalar(c as u32);
            &&& utf8_len(e[0]) == e.len()
            &&& 2 <= e.len() <= 4
            &&& forall|k: int| 1 <= k < e.len() ==> #[trigger] utf8_tail(e[0], k, e[k])
        }),
{
    let e = encode_scalar(c as u32);
    lemma_first_byte(c);
    assert(e.subrange(0, e.len() as int) =~= e);
    assert(spells(e, c));
    law_character(e, 0, e, c);
    lemma_utf8_end(e, 0, 1);
    reveal_with_fuel(utf8_end, 5);
    assert forall|k: int| 1 <= k < e.len() implies #[trigger] utf8_tail(e[0], k, e[k]) by {
        assert(byte(e, 1) is Some ==> byte(e, 1) == Some(e[1]));
        assert(k == 1 || k == 2 || k == 3);
    }
}

/// Bytes that are read as the start of a character are the start of one.
proof fn lemma_character_start(w: Seq<u8>)
    requires
        0 < w.len() < utf8_len(w[0]),
        forall|k: int| 1 <= k < w.len() ==> #[trigger] utf8_tail(w[0], k, w[k]),
    ensures
        exists|c: char| #[trigger] starts_with(c, w),
{
    let low = if w[0] == 0xe0 {
        0xa0u8
    } else if w[0] == 0xf0 {
        0x90u8
    } else {
        0x80u8
    };
    let n = utf8_len(w[0]);
    let e = Seq::new(
        n as nat,
        |j: int|
            if j < w.len() {
                w[j]
            } else if j == 1 {
                low
            } else {
                0x80u8
            },
    );
    assert forall|k: int| 1 <= k < n implies #[trigger] utf8_tail(e[0], k, e[k]) by {
        if k < w.len() {
            assert(utf8_tail(w[0], k, w[k]));
        }
    }
    reveal_with_fuel(utf8_end, 5);
    assert(utf8_tail(e[0], 1, e[1]));
    assert(n > 2 ==> utf8_tail(e[0], 2, e[2]));
    assert(n > 3 ==> utf8_tail(e[0], 3, e[3]));
    assert(utf8_end(e, 0, 1) == Ok::<int, Fault>(n));
    assert(unit(e, 0) == Ok::<(int, Seq<u8>), Fault>((n, e.subrange(0, n))));
    law_character_only(e, 0);
    assert(e.subrange(0, n) =~= e);
    let c = choose|c: char| #[trigger] spells(e.subrange(0, n), c) && e == encode_scalar(c as u32);
    assert(e.subrange(0, w.len() as int) =~= w);
    assert(starts_with(c, w));
}

/// A character in UTF-8 that is refused.
proof fn lemma_breaks_off(s: Seq<u8>, i: int, k: int)
    requires
        0 <= i < s.len(),
        s[i] >= 0x80,
        1 <= k <= utf8_len(s[i]),
        i + k <= s.len(),
        forall|j: int| 1 <= j < k ==> #[trigger] utf8_tail(s[i], j, s[i + j]),
    ensures
        utf8_end(s, i, k) matches Err(f) ==> exists|m: int| #[trigger] breaks_off(s, i, m, f),
    decreases utf8_len(s[i]) - k,
{
    if k < utf8_len(s[i]) {
        if i + k < s.len() && utf8_tail(s[i], k, s[i + k]) {
            lemma_breaks_off(s, i, k + 1);
        } else {
            let w = s.subrange(i, i + k);
            let f = utf8_end(s, i, k)->Err_0;
            assert forall|j: int| 1 <= j < w.len() implies #[trigger] utf8_tail(w[0], j, w[j]) by {
                assert(w[j] == s[i + j]);
            }
            lemma_character_start(w);
            if i + k < s.len() {
                assert forall|c: char| #[trigger] starts_with(c, w) implies encode_scalar(
                    c as u32,
                )[k] != s[i + k] by {
                    let e = encode_scalar(c as u32);
                    assert(e[0] == e.subrange(0, k)[0] && w[0] == s[i]);
                    lemma_character_bytes(c);
                    assert(utf8_tail(e[0], k, e[k]));
                }
            }
            assert(breaks_off(s, i, k, f));
        }
    }
}

/// What is no character is refused for what is wrong with it.
pub proof fn law_spoils(s: Seq<u8>, i: int)
    requires
        0 <= i < s.len(),
        s[i] != '"' as u8,
    ensures
        unit(s, i) matches Err(f) ==> spoils(s, i, f),
{
    if unit(s, i) is Err {
        let f = unit(s, i)->Err_0;
        let b = s[i];
        if b == '\\' as u8 {
            lemma_spoils_escape(s, i);
        } else if b >= 0x80 {
            if utf8_len(b) == 0 {
                let w = s.subrange(i, i + 0);
                assert(w =~= Seq::<u8>::empty());
                let e = encode_scalar('a' as u32);
                lemma_first_byte('a');
                assert(e.subrange(0, 0) =~= w);
                assert(starts_with('a', w));
                assert forall|c: char| #[trigger] starts_with(c, w) implies encode_scalar(
                    c as u32,
                )[0] != s[i + 0] by {
                    if encode_scalar(c as u32)[0] == b {
                        lemma_character_bytes(c);
                    }
                }
                assert(breaks_off(s, i, 0, f));
            } else {
                lemma_breaks_off(s, i, 1);
            }
        }
    }
}

/// Whether the characters of a string from `i` on are whole up to `n`, and then the string breaks off:
/// the input ends, or what stands there is no character.
pub open spec fn text_fault(s: Seq<u8>, i: int, n: int, cs: Seq<char>, f: Fault) -> bool {
    &&& i <= n <= s.len()
    &&& spells_all(s.subrange(i, n), cs)
    &&& if n == s.len() {
        is_fault(f, ErrorKind::UnexpectedEof, n)
    } else {
        s[n] != '"' as u8 && spoils(s, n, f)
    }
}

/// A string is refused where its first character is that is none.
pub proof fn law_text_fault(s: Seq<u8>, i: int)
    requires
        0 <= i <= s.len(),
    ensures
        text(s, i) matches Err(f) ==> i <= f.at <= s.len() && exists|n: int, cs: Seq<char>|
            #[trigger] text_fault(s, i, n, cs, f),
    decreases s.len() - i,
{
    lemma_text(s, i);
    if text(s, i) is Err {
        let f = text(s, i)->Err_0;
        if i == s.len() || unit(s, i) is Err {
            if i < s.len() {
                law_spoils(s, i);
            }
            assert(s.subrange(i, i) =~= Seq::<u8>::empty());
            assert(spells_all(s.subrange(i, i), Seq::empty()));
            assert(text_fault(s, i, i, Seq::empty(), f));
        } else {
            let k = unit(s, i)->Ok_0.0;
            law_character_only(s, i);
            let c = choose|c: char| #[trigger]
                spells(s.subrange(i, k), c) && unit(s, i)->Ok_0.1 == encode_scalar(c as u32);
            lemma_unit(s, i);
            law_text_fault(s, k);
            let (n, cs) = choose|n: int, cs: Seq<char>| #[trigger] text_fault(s, k, n, cs, f);
            let all = seq![c] + cs;
            let w = s.subrange(i, n);
            assert(w.subrange(0, k - i) =~= s.subrange(i, k));
            assert(w.skip(k - i) =~= s.subrange(k, n));
            assert(all.skip(1) =~= cs);
            assert(spelled_first(w, k - i, all[0]));
            assert(text_fault(s, i, n, all, f));
        }
    }
}

/// Whether `w` would be a number with one more digit, but not without.
pub open spec fn needs_digit(w: Seq<u8>) -> bool {
    &&& is_number(w.push('0' as u8))
    &&& w.len() == 0 || !('0' as u8 <= w.last() <= '9' as u8)
}

/// Whether the number at `i` breaks off where it needs a digit.
pub open spec fn number_fault(s: Seq<u8>, i: int, f: Fault) -> bool {
    &&& f.kind == ErrorKind::InvalidNumber
    &&& i <= f.at <= s.len()
    &&& needs_digit(s.subrange(i, f.at))
    &&& f.at == s.len() || !('0' as u8 <= s[f.at] <= '9' as u8)
}

/// A number is refused where it needs a digit.
pub proof fn law_number_fault(s: Seq<u8>, i: int)
    requires
        0 <= i <= s.len(),
    ensures
        number(s, i) matches Err(f) ==> number_fault(s, i, f),
{
    if i < s.len() && s[i] == '-' as u8 {
        lemma_unsigned_fault(s, i + 1);
        if number(s, i) is Err {
            let f = number(s, i)->Err_0;
            let w = s.subrange(i, f.at).push('0' as u8);
            assert(w.skip(1) =~= s.subrange(i + 1, f.at).push('0' as u8));
            assert(w[0] == s[i]);
        }
    } else {
        lemma_unsigned_fault(s, i);
    }
}

/// A number without a sign that is refused.
proof fn lemma_unsigned_fault(s: Seq<u8>, i: int)
    requires
        0 <= i <= s.len(),
    ensures
        integer(s, i) matches Err(f) ==> {
            &&& f.kind == ErrorKind::InvalidNumber
            &&& i <= f.at <= s.len()
            &&& is_unsigned(s.subrange(i, f.at).push('0' as u8))
            &&& i < f.at ==> !('0' as u8 <= s[f.at - 1] <= '9' as u8)
            &&& f.at == s.len() || !('0' as u8 <= s[f.at] <= '9' as u8)
        },
{
    if integer(s, i) is Err {
        let f = integer(s, i)->Err_0;
        let w = s.subrange(i, f.at).push('0' as u8);
        if !digit_at(s, i) {
            assert(w.subrange(0, 1) =~= w);
            assert(w.subrange(1, 1) =~= Seq::<u8>::empty());
            assert(w.skip(1) =~= Seq::<u8>::empty());
            assert(in_parts(w, 1, 1));
        } else {
            lemma_digits_skip(s, i);
            let a = if s[i] == '0' as u8 {
                i + 1
            } else {
                skip_digits(s, i)
            };
            assert(is_digits(s.subrange(i, a)));
            if a < s.len() && s[a] == '.' as u8 && !digit_at(s, a + 1) {
                assert(w.subrange(0, a - i) =~= s.subrange(i, a));
                let fr = w.subrange(a - i, a - i + 2);
                assert(fr =~= seq!['.' as u8, '0' as u8]);
                assert(fr.skip(1) =~= seq!['0' as u8]);
                assert(w.skip(a - i + 2) =~= Seq::<u8>::empty());
                assert(in_parts(w, a - i, a - i + 2));
            } else {
                let b = if a < s.len() && s[a] == '.' as u8 {
                    lemma_digits_skip(s, a + 1);
                    skip_digits(s, a + 1)
                } else {
                    a
                };
                assert(exponent(s, b) == Err::<int, Fault>(f));
                assert(w.subrange(0, a - i) =~= s.subrange(i, a));
                assert(w.subrange(a - i, b - i) =~= s.subrange(a, b));
                if b > a {
                    assert(s.subrange(a, b).skip(1) =~= s.subrange(a + 1, b));
                    assert(is_digits(s.subrange(a + 1, b)));
                }
                let e = w.skip(b - i);
                assert(e[0] == s[b]);
                if f.at == b + 2 {
                    assert(e[1] == s[b + 1]);
                    assert(e.skip(2) =~= seq!['0' as u8]);
                } else {
                    assert(e.skip(1) =~= seq!['0' as u8]);
                }
                assert(is_exponent(e));
                assert(in_parts(w, a - i, b - i));
            }
        }
    }
}

/// The word that starts with the letter `b`.
pub open spec fn word_for(b: u8) -> Seq<u8> {
    if b == 't' as u8 {
        seq!['t' as u8, 'r' as u8, 'u' as u8, 'e' as u8]
    } else if b == 'f' as u8 {
        seq!['f' as u8, 'a' as u8, 'l' as u8, 's' as u8, 'e' as u8]
    } else {
        seq!['n' as u8, 'u' as u8, 'l' as u8, 'l' as u8]
    }
}

/// Whether the input ends at `at`, or what stands there is out of place.
pub open spec fn misplaced(s: Seq<u8>, at: int, f: Fault) -> bool {
    if at == s.len() {
        is_fault(f, ErrorKind::UnexpectedEof, at)
    } else {
        is_fault(f, ErrorKind::UnexpectedByte(s[at]), at)
    }
}

/// Whether the word that starts at `i` goes on differently at the fault.
pub open spec fn word_fault(s: Seq<u8>, i: int, f: Fault) -> bool {
    let w = word_for(s[i]);
    &&& i < f.at <= s.len()
    &&& f.at - i < w.len()
    &&& s.subrange(i, f.at) == w.subrange(0, f.at - i)
    &&& misplaced(s, f.at, f)
    &&& f.at < s.len() ==> s[f.at] != w[f.at - i]
}

/// A word is refused where it goes on differently.
pub proof fn law_word_fault(s: Seq<u8>, i: int)
    requires
        0 <= i < s.len(),
        s[i] == 't' as u8 || s[i] == 'f' as u8 || s[i] == 'n' as u8,
    ensures
        literal(s, i) matches Err(f) ==> word_fault(s, i, f),
{
    reveal_with_fuel(word_end, 6);
    if literal(s, i) is Err {
        let f = literal(s, i)->Err_0;
        assert(s.subrange(i, f.at) =~= word_for(s[i]).subrange(0, f.at - i));
    }
}

/// Whether there is only white space from `j` to `m`, and none at `m`.
pub open spec fn blank_to(s: Seq<u8>, j: int, m: int) -> bool {
    is_blank(s, j, m) && (m < s.len() ==> !is_blank(s, m, m + 1))
}

/// Whether what stands at `a` is no value that nests at most `room` containers, and `f` says why.
pub open spec fn value_fault(s: Seq<u8>, a: int, room: int, f: Fault) -> bool
    decreases s.len() - a, 0int,
{
    if !(0 <= a < s.len()) {
        a == s.len() && misplaced(s, a, f)
    } else if s[a] == '"' as u8 {
        exists|n: int, cs: Seq<char>| #[trigger] text_fault(s, a + 1, n, cs, f)
    } else if s[a] == '-' as u8 || '0' as u8 <= s[a] <= '9' as u8 {
        number_fault(s, a, f)
    } else if s[a] == 't' as u8 || s[a] == 'f' as u8 || s[a] == 'n' as u8 {
        word_fault(s, a, f)
    } else if s[a] == '[' as u8 || s[a] == '{' as u8 {
        if room <= 0 {
            is_fault(f, ErrorKind::DepthLimitExceeded, a)
        } else {
            rest_fault(s, a + 1, s[a] == '{' as u8, true, room - 1, f)
        }
    } else {
        misplaced(s, a, f)
    }
}

/// Whether what stands at `j` is not the rest of an object or array, of which nothing was read before
/// if `first`.
pub open spec fn rest_fault(s: Seq<u8>, j: int, object: bool, first: bool, room: int, f: Fault) -> bool
    decreases s.len() - j, 3int,
{
    exists|m: int| #[trigger]
        blank_to(s, j, m) && if first {
            &&& m < s.len() ==> s[m] != (if object {
                '}' as u8
            } else {
                ']' as u8
            })
            &&& item_fault(s, m, object, room, f)
        } else if m == s.len() || s[m] != ',' as u8 {
            &&& m < s.len() ==> s[m] != (if object {
                '}' as u8
            } else {
                ']' as u8
            })
            &&& misplaced(s, m, f)
        } else {
            exists|q: int| #[trigger] blank_to(s, m + 1, q) && item_fault(s, q, object, room, f)
        }
}

/// Whether what stands at `q` is not an item, or what stands behind it is not the rest of its
/// container.
pub open spec fn item_fault(s: Seq<u8>, q: int, object: bool, room: int, f: Fault) -> bool
    decreases s.len() - q, 2int,
{
    if !object {
        element_fault(s, q, object, room, f)
    } else if q == s.len() || s[q] != '"' as u8 {
        misplaced(s, q, f)
    } else {
        ||| exists|n: int, cs: Seq<char>| #[trigger] text_fault(s, q + 1, n, cs, f)
        ||| exists|k: int, name: Seq<u8>| #[trigger]
            is_string(s, q, k, name) && exists|z: int| #[trigger]
                blank_to(s, k, z) && if z == s.len() || s[z] != ':' as u8 {
                    misplaced(s, z, f)
                } else {
                    exists|v: int| #[trigger]
                        blank_to(s, z + 1, v) && element_fault(s, v, object, room, f)
                }
    }
}

/// Whether what stands at `v` is not a value, or what stands behind it is not the rest of its
/// container.
pub open spec fn element_fault(s: Seq<u8>, v: int, object: bool, room: int, f: Fault) -> bool
    decreases s.len() - v, 1int,
{
    ||| value_fault(s, v, room, f)
    ||| exists|b: int, t: Json| #[trigger]
        whole_value(s, v, b, t, room) && rest_fault(s, b, object, false, room, f)
}

/// Whether `t` stands from `v` to `b`, and does not go on.
pub open spec fn whole_value(s: Seq<u8>, v: int, b: int, t: Json, room: int) -> bool {
    &&& 0 <= v < b <= s.len()
    &&& notes(s, v, b, t)
    &&& nests(t, room)
    &&& t matches Json::Number(n) ==> digits_end(s, b, n)
}

/// Whether there is no digit behind the number `n`, which ends at `b`, unless it is a zero.
pub open spec fn digits_end(s: Seq<u8>, b: int, n: Seq<u8>) -> bool {
    b < s.len() && '0' as u8 <= s[b] <= '9' as u8 ==> n == seq!['0' as u8] || n == seq![
        '-' as u8,
        '0' as u8,
    ]
}

/// A value is refused for what is wrong with it: where the first thing is that cannot stand there.
pub proof fn law_value_fault(s: Seq<u8>, a: int, room: int)
    requires
        0 <= a <= s.len(),
    ensures
        value(s, a, room) matches Err(f) ==> value_fault(s, a, room, f),
    decreases s.len() - a, 0int,
{
    if a < s.len() && value(s, a, room) is Err {
        let f = value(s, a, room)->Err_0;
        if s[a] == '"' as u8 {
            law_text_fault(s, a + 1);
        } else if s[a] == '-' as u8 || '0' as u8 <= s[a] <= '9' as u8 {
            law_number_fault(s, a);
        } else if s[a] == 't' as u8 || s[a] == 'f' as u8 || s[a] == 'n' as u8 {
            law_word_fault(s, a);
        } else if s[a] == '[' as u8 && room > 0 {
            lemma_rest_fault(s, a + 1, State::ArrFirst, room - 1);
        } else if s[a] == '{' as u8 && room > 0 {
            lemma_rest_fault(s, a + 1, State::ObjFirst, room - 1);
        }
    }
}

/// White space in front of a token.
proof fn lemma_blank_to(s: Seq<u8>, j: int)
    requires
        0 <= j <= s.len(),
    ensures
        blank_to(s, j, skip_space(s, j)),
        j <= skip_space(s, j) <= s.len(),
        skip_space(s, skip_space(s, j)) == skip_space(s, j),
{
    lemma_blank_skip(s, j);
    lemma_skip_space(s, j);
    let m = skip_space(s, j);
    if m < s.len() {
        assert(s[m] == s[m]);
    }
}

/// The rest of a container that is refused.
proof fn lemma_rest_fault(s: Seq<u8>, j: int, state: State, room: int)
    requires
        0 <= j <= s.len(),
        at_item(state),
    ensures
        rest(s, j, state, room) matches Err(f) ==> rest_fault(
            s,
            j,
            behind(state) == State::ObjComma,
            state != behind(state),
            room,
            f,
        ),
    decreases s.len() - j, 3int,
{
    if rest(s, j, state, room) is Err {
        let f = rest(s, j, state, room)->Err_0;
        let m = skip_space(s, j);
        let object = behind(state) == State::ObjComma;
        let first = state != behind(state);
        lemma_blank_to(s, j);
        lemma_next_token(s, j, state, false);
        if !first && m < s.len() && s[m] == ',' as u8 {
            let q = skip_space(s, m + 1);
            lemma_blank_to(s, m + 1);
            lemma_item_fault(s, j, q, state, room);
            assert(blank_to(s, m + 1, q) && item_fault(s, q, object, room, f));
        } else if first && !(m < s.len() && s[m] == (if object {
            '}' as u8
        } else {
            ']' as u8
        })) {
            lemma_item_fault(s, j, m, state, room);
        }
        assert(rest_fault(s, j, object, first, room, f));
    }
}

/// An item that is refused, or what stands behind it.
proof fn lemma_item_fault(s: Seq<u8>, j: int, q: int, state: State, room: int)
    requires
        0 <= j <= q <= s.len(),
        at_item(state),
        ({
            let m = skip_space(s, j);
            if state == behind(state) {
                m < s.len() && s[m] == ',' as u8 && q == skip_space(s, m + 1) && m < q
            } else {
                q == m && (m < s.len() ==> s[m] != (if state == State::ObjFirst {
                    '}' as u8
                } else {
                    ']' as u8
                }))
            }
        }),
        rest(s, j, state, room) is Err,
    ensures
        item_fault(s, q, behind(state) == State::ObjComma, room, rest(s, j, state, room)->Err_0),
    decreases s.len() - q, 2int,
{
    let f = rest(s, j, state, room)->Err_0;
    let object = behind(state) == State::ObjComma;
    lemma_next_token(s, j, state, false);
    lemma_skip_space(s, j);
    if !object {
        lemma_element_fault(s, j, q, state, room);
    } else if q < s.len() && s[q] == '"' as u8 {
        lemma_text(s, q + 1);
        law_text_fault(s, q + 1);
        if text(s, q + 1) is Ok {
            let (k, name) = text(s, q + 1)->Ok_0;
            law_text_only(s, q + 1);
            assert(is_string(s, q, k, name));
            let z = skip_space(s, k);
            lemma_blank_to(s, k);
            lemma_next_token(s, k, State::ObjColon, false);
            assert(rest(s, k, State::ObjColon, room) == Err::<int, Fault>(f));
            if z < s.len() && s[z] == ':' as u8 {
                let v = skip_space(s, z + 1);
                lemma_blank_to(s, z + 1);
                lemma_element_fault(s, k, v, State::ObjColon, room);
                assert(blank_to(s, z + 1, v) && element_fault(s, v, object, room, f));
            }
            assert(blank_to(s, k, z));
        }
    }
}

/// A value that is refused, or what stands behind it.
proof fn lemma_element_fault(s: Seq<u8>, j: int, v: int, state: State, room: int)
    requires
        0 <= j <= v <= s.len(),
        ({
            let m = skip_space(s, j);
            if state == State::ArrComma {
                m < s.len() && s[m] == ',' as u8 && v == skip_space(s, m + 1) && m < v
            } else if state == State::ObjColon {
                m < s.len() && s[m] == ':' as u8 && v == skip_space(s, m + 1) && m < v
            } else {
                state == State::ArrFirst && v == m && (m < s.len() ==> s[m] != ']' as u8)
            }
        }),
        rest(s, j, state, room) is Err,
    ensures
        element_fault(s, v, state == State::ObjColon, room, rest(s, j, state, room)->Err_0),
    decreases s.len() - v, 1int,
{
    let f = rest(s, j, state, room)->Err_0;
    let object = state == State::ObjColon;
    lemma_next_token(s, j, state, false);
    lemma_skip_space(s, j);
    lemma_skip_space(s, v);
    law_value_fault(s, v, room);
    lemma_value(s, v, room);
    if v < s.len() && value(s, v, room) is Ok {
        let b = value(s, v, room)->Ok_0;
        let t = tree(s, v, room);
        lemma_value_only(s, v, room);
        if t is Number {
            lemma_number_over(s, v);
        }
        assert(whole_value(s, v, b, t, room));
        let after = if object {
            State::ObjComma
        } else {
            State::ArrComma
        };
        assert(rest(s, b, after, room) == Err::<int, Fault>(f));
        lemma_rest_fault(s, b, after, room);
    }
}

/// A number ends where its digits end.
proof fn lemma_number_over(s: Seq<u8>, i: int)
    requires
        0 <= i <= s.len(),
        number(s, i) is Ok,
    ensures
        digits_end(s, number(s, i)->Ok_0, s.subrange(i, number(s, i)->Ok_0)),
{
    let j = if i < s.len() && s[i] == '-' as u8 {
        i + 1
    } else {
        i
    };
    lemma_digits_skip(s, j);
    let a = if s[j] == '0' as u8 {
        j + 1
    } else {
        skip_digits(s, j)
    };
    let b = if a < s.len() && s[a] == '.' as u8 {
        lemma_digits_skip(s, a + 1);
        skip_digits(s, a + 1)
    } else {
        a
    };
    if b < s.len() && (s[b] == 'e' as u8 || s[b] == 'E' as u8) {
        lemma_digits_skip(s, b + 1);
        if b + 1 < s.len() {
            lemma_digits_skip(s, b + 2);
        }
    } else if b == j + 1 && s[j] == '0' as u8 {
        if j == i {
            assert(s.subrange(i, b) =~= seq!['0' as u8]);
        } else {
            assert(s.subrange(i, b) =~= seq!['-' as u8, '0' as u8]);
        }
    }
}

/// Whether `b` may stand where `state` expects no separator.
pub open spec fn welcome(state: State, b: u8) -> bool {
    let starts = b == '{' as u8 || b == '[' as u8 || b == '"' as u8 || b == '-' as u8 || b
        == 't' as u8 || b == 'f' as u8 || b == 'n' as u8 || '0' as u8 <= b <= '9' as u8;
    match state {
        State::TopValue | State::ArrValue | State::ObjValue => starts,
        State::ArrFirst => starts || b == ']' as u8,
        State::ArrComma => b == ']' as u8,
        State::ObjFirst => b == '"' as u8 || b == '}' as u8,
        State::ObjKey => b == '"' as u8,
        State::ObjComma => b == '}' as u8,
        _ => false,
    }
}

/// Whether the separator that `state` expects stands at `m`, and leads to `next`.
pub open spec fn parts_at(s: Seq<u8>, m: int, state: State, next: State) -> bool {
    &&& m < s.len()
    &&& match state {
        State::ArrComma => s[m] == ',' as u8 && next == State::ArrValue,
        State::ObjComma => s[m] == ',' as u8 && next == State::ObjKey,
        State::ObjColon => s[m] == ':' as u8 && next == State::ObjValue,
        _ => false,
    }
}

/// A token is refused where the input ends or where something stands that is not welcome, behind white
/// space and the separator; behind the only value, whatever stands there is refused.
pub proof fn law_token_fault(s: Seq<u8>, i: int, state: State, multi: bool)
    requires
        0 <= i <= s.len(),
    ensures
        next_token(s, i, state, multi) matches Err(f) ==> exists|m: int| #[trigger]
            blank_to(s, i, m) && if state == State::TopDone {
                &&& m < s.len()
                &&& if multi {
                    misplaced(s, m, f) && !welcome(State::TopValue, s[m])
                } else {
                    is_fault(f, ErrorKind::TrailingData, m)
                }
            } else {
                ||| exists|next: State, q: int|
                    #![trigger parts_at(s, m, state, next), blank_to(s, m + 1, q)]
                    parts_at(s, m, state, next) && blank_to(s, m + 1, q) && misplaced(s, q, f) && (q
                        < s.len() ==> !welcome(next, s[q]))
                ||| misplaced(s, m, f) && (m < s.len() ==> !welcome(state, s[m]))
            },
{
    if next_token(s, i, state, multi) is Err {
        let f = next_token(s, i, state, multi)->Err_0;
        let m = skip_space(s, i);
        lemma_blank_to(s, i);
        assert(blank_to(s, i, m));
        if m < s.len() && separator(state, s[m]) is Some {
            let next = separator(state, s[m])->Some_0;
            let q = skip_space(s, m + 1);
            lemma_blank_to(s, m + 1);
            assert(parts_at(s, m, state, next));
            assert(blank_to(s, m + 1, q));
            assert(misplaced(s, q, f));
        }
    }
}

/// Whether a value stands from `m` to `b`, and something else than white space at `z`, behind it.
pub open spec fn goes_on(s: Seq<u8>, m: int, b: int, t: Json, limit: int, z: int) -> bool {
    whole_value(s, m, b, t, limit) && blank_to(s, b, z) && z < s.len()
}

/// A document is refused for what is wrong with its value, or where something stands behind it.
pub proof fn law_validate_fault(s: Seq<u8>, i: int, limit: int)
    requires
        0 <= i <= s.len(),
        0 <= limit,
    ensures
        match check(Doc { bytes: s, limit, multi: false }, start(i)) {
            Outcome::Done(..) => true,
            Outcome::Refused(..) => false,
            Outcome::Broken(f) => exists|m: int| #[trigger]
                blank_to(s, i, m) && (value_fault(s, m, limit, f) || exists|b: int, t: Json, z: int|
                     #[trigger]
                    goes_on(s, m, b, t, limit, z) && is_fault(f, ErrorKind::TrailingData, z)),
        },
{
    let m = skip_space(s, i);
    lemma_blank_to(s, i);
    law_value_fault(s, m, limit);
    lemma_value(s, m, limit);
    if m < s.len() && value(s, m, limit) is Ok {
        let b = value(s, m, limit)->Ok_0;
        let t = tree(s, m, limit);
        lemma_value_only(s, m, limit);
        if t is Number {
            lemma_number_over(s, m);
        }
        let z = skip_space(s, b);
        lemma_blank_to(s, b);
        if z < s.len() {
            assert(goes_on(s, m, b, t, limit, z));
        }
    }
    assert(blank_to(s, i, m));
}

/// A byte that is out of place is shown as the character that it is, if that is a visible one, and else
/// as two hexadecimal digits.
pub proof fn law_byte_text(b: u8)
    ensures
        kind_text(ErrorKind::UnexpectedByte(b)) == if '!' as u8 <= b <= '~' as u8 {
            "unexpected character '"@ + seq![b as char] + "'"@
        } else {
            "unexpected byte 0x"@ + seq![
                lower_hex(b as int / 0x10) as char,
                lower_hex(b as int % 0x10) as char,
            ]
        },
{
    assert(ascii(seq![b]) =~= seq![b as char]);
    let digits = seq![hex_char(b as int / 16), hex_char(b as int % 16)];
    assert(ascii(digits) =~= seq![
        lower_hex(b as int / 0x10) as char,
        lower_hex(b as int % 0x10) as char,
    ]);
}

} // verus!
