//! Number scanning (validation) and integer formatting.

use vstd::prelude::*;
use vstd::slice::slice_subrange;
use vstd::utf8::{pop_first_scalar, valid_utf8};

use crate::cursor::{Cursor, Outcome};
use crate::error::{Error, ErrorKind};
use crate::grammar::{
    digit_at, exponent, fault, fraction, integer, is_sign, lemma_number, less, number, skip_digits,
    Fault, DOT, MINUS, PLUS,
};
use crate::io::Source;
use crate::parser::{Parser, Res};
use crate::string::Sink;

verus! {

/// How much of a number was read.
#[derive(Clone, Copy, PartialEq, Eq, Structural)]
pub(crate) enum Num {
    Start,
    Minus,
    Zero,
    Int,
    Dot,
    Frac,
    Exp,
    ExpSign,
    ExpDigits,
}

impl Num {
    /// The end of a number of which this much was read in front of `i`.
    pub(crate) open(crate) spec fn end(self, s: Seq<u8>, i: int) -> Result<int, Fault> {
        match self {
            Num::Start => number(s, i),
            Num::Minus => integer(s, i),
            Num::Zero => fraction(s, i),
            Num::Int => fraction(s, skip_digits(s, i)),
            Num::Dot => if digit_at(s, i) {
                exponent(s, skip_digits(s, i))
            } else {
                fault(ErrorKind::InvalidNumber, i)
            },
            Num::Frac => exponent(s, skip_digits(s, i)),
            Num::Exp => {
                let k = if 0 <= i < s.len() && is_sign(s[i]) {
                    i + 1
                } else {
                    i
                };
                if digit_at(s, k) {
                    Ok(skip_digits(s, k))
                } else {
                    fault(ErrorKind::InvalidNumber, k)
                }
            },
            Num::ExpSign => if digit_at(s, i) {
                Ok(skip_digits(s, i))
            } else {
                fault(ErrorKind::InvalidNumber, i)
            },
            Num::ExpDigits => Ok(skip_digits(s, i)),
        }
    }

    /// Whether a number may end here.
    pub(crate) open(crate) spec fn complete(self) -> bool {
        self == Num::Zero || self == Num::Int || self == Num::Frac || self == Num::ExpDigits
    }

    /// What was read after `b`, or `None` if `b` does not belong to the number.
    pub(crate) fn step(self, b: u8) -> (r: Option<Self>)
        ensures
            forall|s: Seq<u8>, i: int|
                #![trigger self.end(s, i)]
                0 <= i < s.len() && s[i] == b ==> match r {
                    Some(next) => self.end(s, i) == next.end(s, i + 1),
                    None => self.end(s, i) == (if self.complete() {
                        Ok(i)
                    } else {
                        fault(ErrorKind::InvalidNumber, i)
                    }),
                },
    {
        match (self, b) {
            (Num::Start, MINUS) => Some(Num::Minus),
            (Num::Start | Num::Minus, 0x30) => Some(Num::Zero),
            (Num::Start | Num::Minus, 0x31..=0x39) => Some(Num::Int),
            (Num::Int, 0x30..=0x39) => Some(Num::Int),
            (Num::Zero | Num::Int, DOT) => Some(Num::Dot),
            (Num::Dot | Num::Frac, 0x30..=0x39) => Some(Num::Frac),
            (Num::Zero | Num::Int | Num::Frac, 0x65 | 0x45) => Some(Num::Exp),
            (Num::Exp, PLUS | MINUS) => Some(Num::ExpSign),
            (Num::Exp | Num::ExpSign | Num::ExpDigits, 0x30..=0x39) => Some(Num::ExpDigits),
            _ => None,
        }
    }

    pub(crate) fn is_final(self) -> (r: bool)
        ensures
            r == self.complete(),
    {
        matches!(self, Num::Zero | Num::Int | Num::Frac | Num::ExpDigits)
    }

    /// Reads as much of a number from `buf` as belongs to it. Returns what was read, and how
    /// many bytes it took.
    pub(crate) fn run(self, buf: &[u8]) -> (r: (Num, usize))
        ensures
            r.1 <= buf@.len(),
            forall|s: Seq<u8>, i: int|
                #![trigger self.end(s, i)]
                0 <= i && i + buf@.len() <= s.len() && buf@ == s.subrange(i, i + buf@.len()) ==> {
                    &&& self.end(s, i) == r.0.end(s, i + r.1)
                    &&& r.1 < buf@.len() ==> self.end(s, i) == r.0.stopped(i + r.1)
                },
    {
        let mut st = self;
        let mut i: usize = 0;
        while i < buf.len()
            invariant
                i <= buf@.len(),
                forall|s: Seq<u8>, k: int|
                    #![trigger self.end(s, k)]
                    0 <= k && k + buf@.len() <= s.len() && buf@ == s.subrange(k, k + buf@.len())
                        ==> self.end(s, k) == st.end(s, k + i),
            decreases buf@.len() - i,
        {
            match st.step(buf[i]) {
                Some(next) => {
                    proof {
                        assert forall|s: Seq<u8>, k: int|
                            #![trigger self.end(s, k)]
                            0 <= k && k + buf@.len() <= s.len() && buf@ == s.subrange(
                                k,
                                k + buf@.len(),
                            ) implies self.end(s, k) == next.end(s, k + i + 1) by {
                            assert(s.subrange(k, k + buf@.len())[i as int] == s[k + i]);
                            assert(st.end(s, k + i) == next.end(s, k + i + 1));
                        }
                    }
                    st = next;
                },
                None => {
                    proof {
                        assert forall|s: Seq<u8>, k: int|
                            #![trigger self.end(s, k)]
                            0 <= k && k + buf@.len() <= s.len() && buf@ == s.subrange(
                                k,
                                k + buf@.len(),
                            ) implies self.end(s, k) == st.stopped(k + i) by {
                            assert(s.subrange(k, k + buf@.len())[i as int] == s[k + i]);
                            assert(st.end(s, k + i) == st.stopped(k + i));
                        }
                    }
                    return (st, i);
                },
            }
            i = i + 1;
        }
        (st, i)
    }

    /// The end of a number that stops at `i`.
    pub(crate) open(crate) spec fn stopped(self, i: int) -> Result<int, Fault> {
        if self.complete() {
            Ok(i)
        } else {
            fault(ErrorKind::InvalidNumber, i)
        }
    }
}

/// Reads the number at the cursor, without what follows from it for the state.
pub(crate) open(crate) spec fn scanned(s: Seq<u8>, c: Cursor) -> Outcome<()> {
    match number(s, c.at) {
        Err(f) => Outcome::Broken(f),
        Ok(k) => Outcome::Done((), Cursor { at: k, ..c }),
    }
}

impl<S: Source, const N: usize> Parser<S, N> {
    /// Consumes and validates a number, passing its text to `sink`.
    pub(crate) fn scan_number<K: Sink>(&mut self, sink: &mut K) -> (r: Res<(), S>)
        requires
            old(self).wf(),
            (*old(sink)).wf(),
        ensures
            final(self).did(&*old(self), r, scanned(old(self).doc().bytes, old(self).cursor())),
            (*final(sink)).wf(),
            (*final(sink)).made() == (*old(sink)).made(),
            r is Ok ==> {
                let text = old(self).doc().bytes.subrange(
                    old(self).cursor().at,
                    final(self).cursor().at,
                );
                &&& (*final(sink)).got() == (*old(sink)).got() + text
                &&& (*final(sink)).space() == less((*old(sink)).space(), text.len())
            },
    {
        let ghost s = self.doc().bytes;
        let ghost at = self.src.at();
        let mut st = Num::Start;
        proof {
            assert((*sink).got() =~= (*old(sink)).got() + s.subrange(at, at));
        }
        loop
            invariant_except_break
                number(s, at) == st.end(s, self.src.at()),
            invariant
                self.wf(),
                self.follows(&*old(self)),
                s == old(self).doc().bytes,
                at == old(self).cursor().at,
                at <= self.src.at(),
                self.cursor() == (Cursor { at: self.src.at(), ..old(self).cursor() }),
                (*sink).wf(),
                (*sink).made() == (*old(sink)).made(),
                (*sink).got() == (*old(sink)).got() + s.subrange(at, self.src.at()),
                (*sink).space() == less((*old(sink)).space(), (self.src.at() - at) as nat),
            ensures
                number(s, at) == st.stopped(self.src.at()),
            decreases s.len() - self.src.at(),
        {
            let ghost from = self.src.at();
            proof {
                self.src.bounds();
            }
            let buf = match self.src.fill() {
                Ok(b) => b,
                Err(e) => {
                    proof {
                        self.src.bounds();
                    }
                    return Err(Error::Io(e));
                },
            };
            let (next, i) = st.run(buf);
            let more = i == buf.len() && i > 0;
            sink.put(slice_subrange(buf, 0, i));
            proof {
                assert(st.end(s, from) == next.end(s, from + i));
                assert(buf@.subrange(0, i as int) =~= s.subrange(from, from + i));
                assert(s.subrange(at, from) + s.subrange(from, from + i) =~= s.subrange(
                    at,
                    from + i,
                ));
                assert((*sink).got() =~= (*old(sink)).got() + s.subrange(at, from + i));
            }
            self.src.consume(i);
            st = next;
            proof {
                self.src.bounds();
            }
            if !more {
                break ;
            }
        }
        if st.is_final() {
            Ok(())
        } else {
            self.fail(ErrorKind::InvalidNumber)
        }
    }
}

/// The text of a number is valid UTF-8: it is ASCII.
pub(crate) proof fn lemma_number_ascii(s: Seq<u8>, i: int)
    requires
        0 <= i <= s.len(),
    ensures
        number(s, i) matches Ok(k) ==> valid_utf8(s.subrange(i, k)),
{
    lemma_number(s, i);
    if number(s, i) is Ok {
        let k = number(s, i)->Ok_0;
        lemma_end_ascii(Num::Start, s, i, k);
        lemma_ascii_utf8(s.subrange(i, k));
    }
}

/// A number holds digits, signs, points and letters.
pub(crate) proof fn lemma_number_bytes(s: Seq<u8>, i: int)
    requires
        0 <= i <= s.len(),
    ensures
        number(s, i) matches Ok(k) ==> forall|j: int| i <= j < k ==> 0x2b <= #[trigger] s[j] < 0x80,
{
    lemma_number(s, i);
    if number(s, i) is Ok {
        lemma_end_ascii(Num::Start, s, i, number(s, i)->Ok_0);
    }
}

/// Every byte of a number is ASCII.
proof fn lemma_end_ascii(st: Num, s: Seq<u8>, i: int, k: int)
    requires
        0 <= i <= s.len(),
        st.end(s, i) == Ok::<int, Fault>(k),
    ensures
        i <= k <= s.len(),
        forall|j: int| i <= j < k ==> 0x2b <= #[trigger] s[j] < 0x80,
    decreases s.len() - i,
{
    if i < s.len() {
        let next = match (st, s[i]) {
            (Num::Start, MINUS) => Num::Minus,
            (Num::Start | Num::Minus, 0x30) => Num::Zero,
            (Num::Start | Num::Minus, _) => Num::Int,
            (Num::Zero | Num::Int, DOT) => Num::Dot,
            (Num::Zero | Num::Int | Num::Frac, 0x65 | 0x45) => Num::Exp,
            (Num::Int, _) => Num::Int,
            (Num::Dot | Num::Frac, _) => Num::Frac,
            (Num::Exp, PLUS | MINUS) => Num::ExpSign,
            _ => Num::ExpDigits,
        };
        if st.end(s, i) != Ok::<int, Fault>(i) {
            assert(st.end(s, i) == next.end(s, i + 1));
            lemma_end_ascii(next, s, i + 1, k);
        }
    }
}

/// ASCII bytes are valid UTF-8.
pub(crate) proof fn lemma_ascii_utf8(b: Seq<u8>)
    requires
        forall|j: int| 0 <= j < b.len() ==> #[trigger] b[j] < 0x80,
    ensures
        valid_utf8(b),
    decreases b.len(),
{
    if b.len() > 0 {
        let x = b[0];
        assert(x < 0x80 ==> (x & 0x7f) < 0x80) by (bit_vector);
        assert(pop_first_scalar(b) =~= b.skip(1));
        lemma_ascii_utf8(b.skip(1));
    }
}

/// The decimal digits of `n`.
pub open spec fn decimal(n: nat) -> Seq<u8>
    decreases n,
{
    if n < 10 {
        seq![(0x30 + n) as u8]
    } else {
        decimal(n / 10).push((0x30 + n % 10) as u8)
    }
}

/// Ten to the power `k`.
pub open spec fn power10(k: nat) -> nat
    decreases k,
{
    if k == 0 {
        1
    } else {
        10 * power10((k - 1) as nat)
    }
}

/// A number below ten to the power `k` has at most `k` digits.
pub proof fn lemma_decimal_len(n: nat, k: nat)
    requires
        n < power10(k),
        k >= 1,
    ensures
        1 <= decimal(n).len() <= k,
    decreases k,
{
    if n >= 10 {
        assert(k >= 2) by {
            if k == 1 {
                assert(power10(1) == 10 * power10(0));
            }
        }
        lemma_decimal_len(n / 10, (k - 1) as nat);
    }
}

/// How many digits the integer types can have.
pub proof fn lemma_widths()
    ensures
        power10(10) > u32::MAX,
        power10(20) > u64::MAX,
        power10(39) > u128::MAX,
{
    reveal_with_fuel(power10, 21);
    assert(power10(20) == 100_000_000_000_000_000_000);
    assert(power10(39) == 10_000_000_000_000_000_000 * power10(20)) by {
        reveal_with_fuel(power10, 20);
    }
}

/// Formats `v` in decimal at the end of `buf` (which must be large enough),
/// returning the digits.
pub(crate) fn fmt_u32(v: u32, buf: &mut [u8]) -> (r: &[u8])
    requires
        decimal(v as nat).len() <= old(buf)@.len(),
    ensures
        r@ == decimal(v as nat),
{
    let n = buf.len();
    let mut i: usize = n;
    let mut left: u32 = v;
    proof {
        assert(decimal(v as nat) =~= decimal(v as nat) + buf@.subrange(n as int, n as int));
    }
    loop
        invariant_except_break
            decimal(v as nat) == decimal(left as nat) + buf@.subrange(i as int, n as int),
            decimal(left as nat).len() <= i,
        invariant
            i <= n == buf@.len(),
        ensures
            decimal(v as nat) == buf@.subrange(i as int, n as int),
        decreases i,
    {
        let ghost tail = buf@.subrange(i as int, n as int);
        let d = 0x30 + (left % 10) as u8;
        i = i - 1;
        buf[i] = d;
        proof {
            assert(buf@.subrange(i as int, n as int) =~= seq![d] + tail);
            if left >= 10 {
                assert(decimal(left as nat) + tail =~= decimal((left / 10) as nat) + (seq![d]
                    + tail));
            }
        }
        left = left / 10;
        if left == 0 {
            break ;
        }
    }
    slice_subrange(buf, i, n)
}

/// Formats `v` in decimal at the end of `buf` (which must be large enough),
/// returning the digits.
pub(crate) fn fmt_u64(v: u64, buf: &mut [u8]) -> (r: &[u8])
    requires
        decimal(v as nat).len() <= old(buf)@.len(),
    ensures
        r@ == decimal(v as nat),
{
    let n = buf.len();
    let mut i: usize = n;
    let mut left: u64 = v;
    proof {
        assert(decimal(v as nat) =~= decimal(v as nat) + buf@.subrange(n as int, n as int));
    }
    loop
        invariant_except_break
            decimal(v as nat) == decimal(left as nat) + buf@.subrange(i as int, n as int),
            decimal(left as nat).len() <= i,
        invariant
            i <= n == buf@.len(),
        ensures
            decimal(v as nat) == buf@.subrange(i as int, n as int),
        decreases i,
    {
        let ghost tail = buf@.subrange(i as int, n as int);
        let d = 0x30 + (left % 10) as u8;
        i = i - 1;
        buf[i] = d;
        proof {
            assert(buf@.subrange(i as int, n as int) =~= seq![d] + tail);
            if left >= 10 {
                assert(decimal(left as nat) + tail =~= decimal((left / 10) as nat) + (seq![d]
                    + tail));
            }
        }
        left = left / 10;
        if left == 0 {
            break ;
        }
    }
    slice_subrange(buf, i, n)
}

/// Formats `v` in decimal at the end of `buf` (which must be large enough),
/// returning the digits.
pub(crate) fn fmt_u128(v: u128, buf: &mut [u8]) -> (r: &[u8])
    requires
        decimal(v as nat).len() <= old(buf)@.len(),
    ensures
        r@ == decimal(v as nat),
{
    let n = buf.len();
    let mut i: usize = n;
    let mut left: u128 = v;
    proof {
        assert(decimal(v as nat) =~= decimal(v as nat) + buf@.subrange(n as int, n as int));
    }
    loop
        invariant_except_break
            decimal(v as nat) == decimal(left as nat) + buf@.subrange(i as int, n as int),
            decimal(left as nat).len() <= i,
        invariant
            i <= n == buf@.len(),
        ensures
            decimal(v as nat) == buf@.subrange(i as int, n as int),
        decreases i,
    {
        let ghost tail = buf@.subrange(i as int, n as int);
        let d = 0x30 + (left % 10) as u8;
        i = i - 1;
        buf[i] = d;
        proof {
            assert(buf@.subrange(i as int, n as int) =~= seq![d] + tail);
            if left >= 10 {
                assert(decimal(left as nat) + tail =~= decimal((left / 10) as nat) + (seq![d]
                    + tail));
            }
        }
        left = left / 10;
        if left == 0 {
            break ;
        }
    }
    slice_subrange(buf, i, n)
}

/// Formats a `usize` (`buf` must hold 20 bytes).
pub(crate) fn fmt_usize(v: usize, buf: &mut [u8]) -> (r: &[u8])
    requires
        old(buf)@.len() >= 20,
    ensures
        r@ == decimal(v as nat),
{
    proof {
        lemma_widths();
        lemma_decimal_len(v as nat, 20);
    }
    fmt_u64(v as u64, buf)
}

} // verus!
