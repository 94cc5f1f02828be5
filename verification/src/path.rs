//! Paths to values inside a document.
//!
//! A path is a sequence of [`Seg`]ments. Anything implementing [`Path`] can be used:
//!
//! - `&["foo", "bar"]`: member names (a name made of digits also indexes arrays).
//! - `"/foo/bar/0"`: a JSON Pointer ([RFC 6901](https://www.rfc-editor.org/rfc/rfc6901)),
//!   with `~1` for `/` and `~0` for `~` in names.
//! - `&[Seg::Key("foo"), Seg::Index(0)]`.
//!
//! In an array, the segment `-` designates the position after the last element
//! (for [`Op::Put`](crate::edit::Op::Put) and [`Op::Insert`](crate::edit::Op::Insert)).

use vstd::prelude::*;
use vstd::string::StringSliceAdditionalSpecFns;
use vstd::utf8::{
    encode_utf8_valid_utf8, is_char_boundary, is_char_boundary_iff_not_is_continuation_byte,
    is_char_boundary_start_end_of_seq, pop_first_scalar, valid_utf8, valid_utf8_split,
};

use crate::grammar::{is_digit, MINUS, SLASH, TILDE};
use crate::number::decimal;

verus! {

/// One step of a path, as mathematics: names are their UTF-8 bytes.
pub enum Step {
    Key(Seq<u8>),
    Index(nat),
    Pointer(Seq<u8>),
}

/// What a JSON Pointer reference token stands for: `~0` for `~`, `~1` for `/`, and nothing
/// if another byte (or none) follows a `~`.
pub open spec fn unescape(p: Seq<u8>) -> Option<Seq<u8>>
    decreases p.len(),
{
    if p.len() == 0 {
        Some(Seq::empty())
    } else if p[0] != TILDE {
        in_front(seq![p[0]], unescape(p.skip(1)))
    } else if p.len() >= 2 && p[1] == 0x30 {
        in_front(seq![TILDE], unescape(p.skip(2)))
    } else if p.len() >= 2 && p[1] == 0x31 {
        in_front(seq![SLASH], unescape(p.skip(2)))
    } else {
        None
    }
}

/// `tail`, if any, behind `head`.
pub open spec fn in_front(head: Seq<u8>, tail: Option<Seq<u8>>) -> Option<Seq<u8>> {
    match tail {
        None => None,
        Some(t) => Some(head + t),
    }
}

/// The member name that a step designates.
pub open spec fn step_name(step: Step) -> Option<Seq<u8>> {
    match step {
        Step::Key(k) => Some(k),
        Step::Index(i) => Some(decimal(i)),
        Step::Pointer(p) => unescape(p),
    }
}

/// The array index that a step designates: a name does if it is the decimal form of a
/// number that fits in memory.
pub open spec fn step_index(step: Step) -> Option<nat> {
    match step {
        Step::Index(i) => Some(i),
        Step::Key(s) => read_index(s),
        Step::Pointer(s) => read_index(s),
    }
}

/// The number of which `s` is the decimal form, if there is one that fits in a `usize`.
pub open spec fn read_index(s: Seq<u8>) -> Option<nat> {
    if exists|n: nat| n <= usize::MAX && #[trigger] decimal(n) == s {
        Some(choose|n: nat| n <= usize::MAX && #[trigger] decimal(n) == s)
    } else {
        None
    }
}

/// Whether a step designates the end of an array.
pub open spec fn step_is_end(step: Step) -> bool {
    match step {
        Step::Key(s) => s == seq![MINUS],
        Step::Pointer(s) => s == seq![MINUS],
        Step::Index(_) => false,
    }
}

/// One step of a [`Path`].
#[derive(Debug, Clone, Copy, PartialEq, Eq, Hash)]
pub enum Seg<'a> {
    /// A member name. In an array, a name made only of decimal digits is used as an index.
    Key(&'a str),
    /// An array index. In an object, matches the member whose name is this number.
    Index(usize),
    /// A JSON Pointer reference token, still escaped (`~0` = `~`, `~1` = `/`).
    /// Otherwise like [`Seg::Key`].
    Pointer(&'a str),
}

impl<'a> Seg<'a> {
    /// The step that this segment stands for.
    pub open spec fn view(&self) -> Step {
        match *self {
            Seg::Key(s) => Step::Key(s.spec_bytes()),
            Seg::Index(i) => Step::Index(i as nat),
            Seg::Pointer(s) => Step::Pointer(s.spec_bytes()),
        }
    }
}

/// The number that the digits `s` write.
pub open spec fn digits_value(s: Seq<u8>) -> nat
    decreases s.len(),
{
    if s.len() == 0 {
        0
    } else {
        (digits_value(s.drop_last()) * 10 + (s.last() - 0x30)) as nat
    }
}

/// Digits only, without a leading zero in front of others.
pub open spec fn is_index(s: Seq<u8>) -> bool {
    &&& s.len() > 0
    &&& s.len() > 1 ==> s[0] != 0x30
    &&& forall|i: int| 0 <= i < s.len() ==> is_digit(#[trigger] s[i])
}

/// The decimal form of a number is made of digits that write it.
pub proof fn lemma_decimal_index(n: nat)
    ensures
        is_index(decimal(n)),
        digits_value(decimal(n)) == n,
        decimal(n).len() > 1 ==> n >= 10,
        n > 0 ==> decimal(n)[0] != 0x30,
    decreases n,
{
    if n < 10 {
        let s = decimal(n);
        assert(digits_value(s.drop_last()) == 0);
    } else {
        lemma_decimal_index(n / 10);
        assert(decimal(n).drop_last() =~= decimal(n / 10));
    }
}

/// Digits that write a number are its decimal form.
pub proof fn lemma_index_decimal(s: Seq<u8>)
    requires
        is_index(s),
    ensures
        decimal(digits_value(s)) == s,
        s[0] != 0x30 ==> digits_value(s) > 0,
    decreases s.len(),
{
    let init = s.drop_last();
    if s.len() == 1 {
        assert(digits_value(init) == 0);
        assert(decimal(digits_value(s)) =~= s);
    } else {
        lemma_index_decimal(init);
        assert(digits_value(init) > 0);
        assert(decimal(digits_value(s)) =~= s);
    }
}

/// The index that bytes write is the number of which they are the decimal form.
pub proof fn lemma_read_index(s: Seq<u8>)
    ensures
        read_index(s) == (if is_index(s) && digits_value(s) <= usize::MAX {
            Some(digits_value(s))
        } else {
            None
        }),
{
    if is_index(s) {
        lemma_index_decimal(s);
    }
    if read_index(s) is Some {
        lemma_decimal_index(read_index(s)->Some_0);
    }
}

/// A prefix of digits writes no larger number than all of them.
pub proof fn lemma_digits_prefix(s: Seq<u8>, k: int)
    requires
        0 <= k <= s.len(),
        forall|i: int| 0 <= i < s.len() ==> is_digit(#[trigger] s[i]),
    ensures
        digits_value(s.subrange(0, k)) <= digits_value(s),
    decreases s.len(),
{
    if k == s.len() {
        assert(s.subrange(0, k) =~= s);
    } else {
        lemma_digits_prefix(s.drop_last(), k);
        assert(s.drop_last().subrange(0, k) =~= s.subrange(0, k));
    }
}

fn parse_index(s: &[u8]) -> (r: Option<usize>)
    ensures
        match r {
            Some(n) => read_index(s@) == Some(n as nat),
            None => read_index(s@) is None,
        },
{
    proof {
        lemma_read_index(s@);
    }
    if s.len() == 0 || (s.len() > 1 && s[0] == 0x30) {
        return None;
    }
    let mut acc: usize = 0;
    let mut k: usize = 0;
    assert(s@.subrange(0, 0).len() == 0);
    while k < s.len()
        invariant
            k <= s@.len(),
            acc == digits_value(s@.subrange(0, k as int)),
            forall|i: int| 0 <= i < k ==> is_digit(#[trigger] s@[i]),
            is_index(s@) && digits_value(s@) <= usize::MAX ==> read_index(s@) is Some,
            read_index(s@) == (if is_index(s@) && digits_value(s@) <= usize::MAX {
                Some(digits_value(s@))
            } else {
                None
            }),
        decreases s@.len() - k,
    {
        let b = s[k];
        if b < 0x30 || 0x39 < b {
            assert(!is_digit(s@[k as int]));
            return None;
        }
        let ghost next = s@.subrange(0, k + 1);
        proof {
            assert(next.drop_last() =~= s@.subrange(0, k as int));
            assert(digits_value(next) == acc * 10 + (b - 0x30));
            if is_index(s@) {
                lemma_digits_prefix(s@, k + 1);
            }
        }
        acc = match acc.checked_mul(10) {
            Some(a) => match a.checked_add((b - 0x30) as usize) {
                Some(a) => a,
                None => return None,
            },
            None => return None,
        };
        k = k + 1;
    }
    assert(s@.subrange(0, k as int) =~= s@);
    Some(acc)
}

impl<'a> Seg<'a> {
    /// The array index this segment designates, if any.
    pub fn index(&self) -> (r: Option<usize>)
        ensures
            match r {
                Some(n) => step_index(self@) == Some(n as nat),
                None => step_index(self@) is None,
            },
    {
        match *self {
            Seg::Index(i) => Some(i),
            Seg::Key(s) | Seg::Pointer(s) => parse_index(s.as_bytes()),
        }
    }

    /// Whether this is the `-` segment (past the end of an array).
    pub fn is_end_marker(&self) -> (r: bool)
        ensures
            r == step_is_end(self@),
    {
        match *self {
            Seg::Key(s) | Seg::Pointer(s) => {
                let b = s.as_bytes();
                let r = b.len() == 1 && b[0] == MINUS;
                assert(r ==> b@ =~= seq![MINUS]);
                r
            },
            Seg::Index(_) => false,
        }
    }
}

impl<'a> From<&'a str> for Seg<'a> {
    fn from(s: &'a str) -> (r: Self) {
        Seg::Key(s)
    }
}

impl<'a> vstd::std_specs::convert::FromSpecImpl<&'a str> for Seg<'a> {
    open spec fn obeys_from_spec() -> bool {
        true
    }

    open spec fn from_spec(s: &'a str) -> Self {
        Seg::Key(s)
    }
}

impl<'a> From<usize> for Seg<'a> {
    fn from(i: usize) -> (r: Self) {
        Seg::Index(i)
    }
}

impl<'a> vstd::std_specs::convert::FromSpecImpl<usize> for Seg<'a> {
    open spec fn obeys_from_spec() -> bool {
        true
    }

    open spec fn from_spec(i: usize) -> Self {
        Seg::Index(i)
    }
}

/// The segments of a path, one after the other.
pub trait Segments<'a> {
    /// The iterator's own invariant.
    spec fn wf(&self) -> bool;

    /// The steps that are left.
    spec fn left(&self) -> Seq<Step>;

    /// The next segment, or `None` after the last one.
    fn next(&mut self) -> (r: Option<Seg<'a>>)
        requires
            (*old(self)).wf(),
        ensures
            (*final(self)).wf(),
            match r {
                None => (*old(self)).left().len() == 0 && (*final(self)).left().len() == 0,
                Some(seg) => {
                    &&& (*old(self)).left().len() > 0
                    &&& seg@ == (*old(self)).left()[0]
                    &&& (*final(self)).left() == (*old(self)).left().skip(1)
                },
            },
    ;
}

/// The segments of any path.
#[derive(Debug, Clone)]
pub enum PathIter<'a> {
    /// Those of a slice of segments.
    Segs(SegIter<'a, 'a>),
    /// Those of a slice of names.
    Keys(KeyIter<'a, 'a>),
    /// Those of a JSON Pointer.
    Pointer(PointerIter<'a>),
}

impl<'a> Segments<'a> for PathIter<'a> {
    open spec fn wf(&self) -> bool {
        match *self {
            PathIter::Segs(i) => i.wf(),
            PathIter::Keys(i) => i.wf(),
            PathIter::Pointer(i) => i.wf(),
        }
    }

    open spec fn left(&self) -> Seq<Step> {
        match *self {
            PathIter::Segs(i) => i.left(),
            PathIter::Keys(i) => i.left(),
            PathIter::Pointer(i) => i.left(),
        }
    }

    fn next(&mut self) -> (r: Option<Seg<'a>>) {
        match self {
            PathIter::Segs(i) => i.next(),
            PathIter::Keys(i) => i.next(),
            PathIter::Pointer(i) => i.next(),
        }
    }
}

/// A path to a value: a sequence of [`Seg`]ments.
pub trait Path {
    /// The steps of the path, from the root.
    open spec fn steps(&self) -> Seq<Step> {
        Seq::empty()
    }

    /// Returns the segments, from the root.
    fn segments<'a>(&'a self) -> (r: PathIter<'a>)
        ensures
            r.wf(),
            r.left() == self.steps(),
    ;
}

impl<P: Path + ?Sized> Path for &P {
    open spec fn steps(&self) -> Seq<Step> {
        (**self).steps()
    }

    fn segments<'a>(&'a self) -> (r: PathIter<'a>) {
        (**self).segments()
    }
}

/// The steps that a slice of segments stands for.
pub open spec fn seg_steps(s: Seq<Seg<'_>>) -> Seq<Step> {
    Seq::new(s.len(), |i: int| s[i]@)
}

/// The steps that a slice of names stands for.
pub open spec fn key_steps(s: Seq<&str>) -> Seq<Step> {
    Seq::new(s.len(), |i: int| Step::Key(s[i].spec_bytes()))
}

/// Iterator over a slice of [`Seg`].
#[derive(Debug, Clone)]
pub struct SegIter<'a, 's> {
    segs: &'a [Seg<'s>],
    pos: usize,
}

impl<'a, 's: 'a> Segments<'a> for SegIter<'a, 's> {
    closed spec fn wf(&self) -> bool {
        self.pos <= self.segs@.len()
    }

    closed spec fn left(&self) -> Seq<Step> {
        seg_steps(self.segs@).skip(self.pos as int)
    }

    fn next(&mut self) -> (r: Option<Seg<'a>>) {
        if self.pos >= self.segs.len() {
            return None;
        }
        let seg = self.segs[self.pos];
        self.pos = self.pos + 1;
        assert(self.left() =~= old(self).left().skip(1));
        Some(seg)
    }
}

impl<'s> Path for [Seg<'s>] {
    open spec fn steps(&self) -> Seq<Step> {
        seg_steps(self@)
    }

    fn segments<'a>(&'a self) -> (r: PathIter<'a>) {
        let r = SegIter { segs: self, pos: 0 };
        assert(r.left() =~= seg_steps(self@));
        PathIter::Segs(r)
    }
}

impl<'s, const M: usize> Path for [Seg<'s>; M] {
    open spec fn steps(&self) -> Seq<Step> {
        seg_steps(self@)
    }

    fn segments<'a>(&'a self) -> (r: PathIter<'a>) {
        let r = SegIter { segs: self.as_slice(), pos: 0 };
        assert(r.left() =~= seg_steps(self@));
        PathIter::Segs(r)
    }
}

/// Iterator over a slice of names.
#[derive(Debug, Clone)]
pub struct KeyIter<'a, 's> {
    keys: &'a [&'s str],
    pos: usize,
}

impl<'a, 's: 'a> Segments<'a> for KeyIter<'a, 's> {
    closed spec fn wf(&self) -> bool {
        self.pos <= self.keys@.len()
    }

    closed spec fn left(&self) -> Seq<Step> {
        key_steps(self.keys@).skip(self.pos as int)
    }

    fn next(&mut self) -> (r: Option<Seg<'a>>) {
        if self.pos >= self.keys.len() {
            return None;
        }
        let key = self.keys[self.pos];
        self.pos = self.pos + 1;
        assert(self.left() =~= old(self).left().skip(1));
        Some(Seg::Key(key))
    }
}

impl<'s> Path for [&'s str] {
    open spec fn steps(&self) -> Seq<Step> {
        key_steps(self@)
    }

    fn segments<'a>(&'a self) -> (r: PathIter<'a>) {
        let r = KeyIter { keys: self, pos: 0 };
        assert(r.left() =~= key_steps(self@));
        PathIter::Keys(r)
    }
}

impl<'s, const M: usize> Path for [&'s str; M] {
    open spec fn steps(&self) -> Seq<Step> {
        key_steps(self@)
    }

    fn segments<'a>(&'a self) -> (r: PathIter<'a>) {
        let r = KeyIter { keys: self.as_slice(), pos: 0 };
        assert(r.left() =~= key_steps(self@));
        PathIter::Keys(r)
    }
}

/// The position of the first `/` from `i` on, or the length if there is none.
pub open spec fn slash_from(p: Seq<u8>, i: int) -> int
    decreases p.len() - i,
{
    if 0 <= i < p.len() && p[i] != SLASH {
        slash_from(p, i + 1)
    } else {
        i
    }
}

pub(crate) proof fn lemma_slash_from(p: Seq<u8>, i: int)
    requires
        0 <= i <= p.len(),
    ensures
        i <= slash_from(p, i) <= p.len(),
        slash_from(p, i) < p.len() ==> p[slash_from(p, i)] == SLASH,
        forall|k: int| i <= k < slash_from(p, i) ==> #[trigger] p[k] != SLASH,
    decreases p.len() - i,
{
    if i < p.len() && p[i] != SLASH {
        lemma_slash_from(p, i + 1);
    }
}

/// The reference tokens that `/` separates.
pub open spec fn tokens(p: Seq<u8>) -> Seq<Step>
    decreases p.len(),
{
    let i = slash_from(p, 0);
    if 0 <= i < p.len() {
        seq![Step::Pointer(p.subrange(0, i))] + tokens(p.skip(i + 1))
    } else {
        seq![Step::Pointer(p)]
    }
}

/// The steps of a JSON Pointer: none if it is empty, else the reference tokens behind its
/// leading `/` (which may be missing).
pub open spec fn pointer_steps(p: Seq<u8>) -> Seq<Step> {
    if p.len() == 0 {
        Seq::empty()
    } else if p[0] == SLASH {
        tokens(p.skip(1))
    } else {
        tokens(p)
    }
}

/// Text can be split in front of and behind an ASCII character.
pub(crate) proof fn lemma_ascii_boundary(b: Seq<u8>, i: int)
    requires
        valid_utf8(b),
        0 <= i < b.len(),
        b[i] < 0x80,
    ensures
        is_char_boundary(b, i),
        is_char_boundary(b, i + 1),
{
    is_char_boundary_iff_not_is_continuation_byte(b, i);
    is_char_boundary_start_end_of_seq(b);
    if i + 1 < b.len() {
        valid_utf8_split(b, i);
        let t = b.subrange(i, b.len() as int);
        let u = pop_first_scalar(t);
        assert(u =~= b.skip(i + 1));
        assert(valid_utf8(u));
        is_char_boundary_iff_not_is_continuation_byte(b, i + 1);
    }
}

/// Iterator over the reference tokens of a JSON Pointer.
#[derive(Debug, Clone)]
pub struct PointerIter<'a> {
    rest: Option<&'a str>,
}

impl<'a> PointerIter<'a> {
    /// Splits a JSON Pointer. The empty string is the root; a missing leading `/` is
    /// tolerated.
    pub fn new(pointer: &'a str) -> (r: Self)
        ensures
            r.wf(),
            r.left() == pointer_steps(pointer.spec_bytes()),
    {
        let b = pointer.as_bytes();
        if b.len() == 0 {
            return Self { rest: None };
        }
        if b[0] == SLASH {
            proof {
                lemma_str_utf8(pointer);
                lemma_ascii_boundary(b@, 0);
                assert(b@.subrange(1, b@.len() as int) =~= b@.skip(1));
            }
            let (_, tail) = pointer.split_at(1);
            return Self { rest: Some(tail) };
        }
        Self { rest: Some(pointer) }
    }
}

/// The bytes of a string are valid UTF-8.
pub(crate) proof fn lemma_str_utf8(s: &str)
    ensures
        valid_utf8(s.spec_bytes()),
{
    encode_utf8_valid_utf8(s@);
}

impl<'a> Segments<'a> for PointerIter<'a> {
    open spec fn wf(&self) -> bool {
        true
    }

    closed spec fn left(&self) -> Seq<Step> {
        match self.rest {
            None => Seq::empty(),
            Some(r) => tokens(r.spec_bytes()),
        }
    }

    fn next(&mut self) -> (r: Option<Seg<'a>>) {
        let r = match self.rest {
            None => return None,
            Some(r) => r,
        };
        let b = r.as_bytes();
        let mut i: usize = 0;
        while i < b.len() && b[i] != SLASH
            invariant
                i <= b@.len(),
                slash_from(b@, 0) == slash_from(b@, i as int),
            decreases b@.len() - i,
        {
            i = i + 1;
        }
        if i < b.len() {
            proof {
                lemma_str_utf8(r);
                lemma_ascii_boundary(b@, i as int);
                assert(b@.subrange(i + 1, b@.len() as int) =~= b@.skip(i + 1));
                assert((seq![Step::Pointer(b@.subrange(0, i as int))] + tokens(b@.skip(i + 1))).skip(
                    1,
                ) =~= tokens(b@.skip(i + 1)));
            }
            let (head, _) = r.split_at(i);
            let (_, tail) = r.split_at(i + 1);
            self.rest = Some(tail);
            Some(Seg::Pointer(head))
        } else {
            self.rest = None;
            assert(seq![Step::Pointer(b@)].skip(1) =~= Seq::<Step>::empty());
            Some(Seg::Pointer(r))
        }
    }
}

/// A string is a JSON Pointer.
impl Path for str {
    open spec fn steps(&self) -> Seq<Step> {
        pointer_steps(self.spec_bytes())
    }

    fn segments<'a>(&'a self) -> (r: PathIter<'a>) {
        PathIter::Pointer(PointerIter::new(self))
    }
}

} // verus!
