//! The nesting stack of the parser: one bit per open container.

use vstd::prelude::*;

verus! {

/// Bit `k` of `b`.
pub(crate) open spec fn bit(b: u8, k: int) -> bool {
    b & (1u8 << (k as u8)) != 0
}

/// The deepest nesting that a stack of `n` bytes can hold: one level per bit, as far as a depth
/// can be counted in memory.
pub open spec fn max_levels(n: int) -> int {
    if n * 8 < usize::MAX {
        n * 8
    } else {
        usize::MAX - 1
    }
}

proof fn lemma_set_bit(b: u8, k: u8, j: u8)
    by (bit_vector)
    requires
        k < 8,
        j < 8,
    ensures
        (b | (1u8 << k)) & (1u8 << k) != 0,
        (b & !(1u8 << k)) & (1u8 << k) == 0,
        j != k ==> (b | (1u8 << k)) & (1u8 << j) == b & (1u8 << j),
        j != k ==> (b & !(1u8 << k)) & (1u8 << j) == b & (1u8 << j),
{
}

/// Nesting stack storing one bit per level (1 = object, 0 = array).
#[derive(Debug, Clone)]
pub struct BitStack<const N: usize> {
    pub(crate) bits: [u8; N],
    pub(crate) depth: usize,
}

impl<const N: usize> BitStack<N> {
    /// The open containers, outermost first: `true` for an object, `false` for an array.
    pub open(crate) spec fn view(&self) -> Seq<bool> {
        Seq::new(self.depth as nat, |i: int| bit(self.bits@[i / 8], i % 8))
    }

    /// The depth never exceeds what the bits can hold.
    pub open(crate) spec fn wf(&self) -> bool {
        self.depth <= max_levels(N as int)
    }

    /// The deepest nesting this stack can hold.
    pub(crate) fn max() -> (r: usize)
        ensures
            r == max_levels(N as int),
    {
        if N <= usize::MAX / 8 {
            N * 8
        } else {
            usize::MAX - 1
        }
    }

    /// An empty stack.
    pub(crate) fn new() -> (r: Self)
        ensures
            r.wf(),
            r@ == Seq::<bool>::empty(),
    {
        let r = Self { bits: [0; N], depth: 0 };
        assert(r@ =~= Seq::<bool>::empty());
        r
    }

    /// How many containers are open.
    pub(crate) fn depth(&self) -> (r: usize)
        ensures
            r == self@.len(),
    {
        self.depth
    }

    /// Pushes a level; returns false when the stack is full.
    pub(crate) fn push(&mut self, object: bool) -> (r: bool)
        requires
            old(self).wf(),
        ensures
            final(self).wf(),
            r == (old(self)@.len() < max_levels(N as int)),
            r ==> final(self)@ == old(self)@.push(object),
            !r ==> *final(self) == *old(self),
    {
        let d = self.depth;
        if d >= Self::max() {
            return false;
        }
        let k = (d % 8) as u8;
        let mask = 1u8 << k;
        let ghost before = *self;
        if object {
            self.bits[d / 8] = self.bits[d / 8] | mask;
        } else {
            self.bits[d / 8] = self.bits[d / 8] & !mask;
        }
        self.depth = self.depth + 1;
        proof {
            assert forall|i: int| 0 <= i < before@.len() implies self@[i] == before@[i] by {
                if i / 8 == d / 8 {
                    lemma_set_bit(before.bits@[i / 8], k, (i % 8) as u8);
                }
            }
            lemma_set_bit(before.bits@[(d / 8) as int], k, k);
            assert(self@[d as int] == object);
            assert(self@ =~= before@.push(object));
        }
        true
    }

    /// Leaves the innermost level.
    pub(crate) fn pop(&mut self)
        requires
            old(self).wf(),
            old(self)@.len() > 0,
        ensures
            final(self).wf(),
            final(self)@ == old(self)@.drop_last(),
    {
        self.depth = self.depth - 1;
        assert(self@ =~= old(self)@.drop_last());
    }

    /// `Some(true)` inside an object, `Some(false)` inside an array, `None` at top level.
    pub(crate) fn top(&self) -> (r: Option<bool>)
        requires
            self.wf(),
        ensures
            r == (if self@.len() == 0 {
                None
            } else {
                Some(self@.last())
            }),
    {
        if self.depth == 0 {
            return None;
        }
        let d = self.depth - 1;
        Some(self.bits[d / 8] & (1u8 << ((d % 8) as u8)) != 0)
    }
}

} // verus!
