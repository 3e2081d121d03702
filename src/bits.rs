//! Seed states: one bit per cell, held in a bit vector of the `bitvec` crate and
//! seen by the proofs through the sequence of bits it holds (`s@`).
use bitvec::vec::BitVec;
use vstd::prelude::*;

verus! {

/// A seed configuration, one bit per cell in row-major order (`true` = alive).
#[verifier::external_body]
pub struct State {
    bits: BitVec,
}

/// The bits a state holds, in index order.
pub uninterp spec fn bits_of(s: State) -> Seq<bool>;

impl View for State {
    type V = Seq<bool>;

    open spec fn view(&self) -> Seq<bool> {
        bits_of(*self)
    }
}

impl State {
    /// Relies on `BitVec::repeat`: a bit vector of `len` copies of `false`.
    #[verifier::external_body]
    pub(crate) fn zeros(len: usize) -> (r: State)
        ensures
            bits_of(r) == Seq::new(len as nat, |i: int| false),
    {
        State { bits: BitVec::repeat(false, len) }
    }

    /// Relies on `BitSlice::len`: the number of bits held.
    #[verifier::external_body]
    pub(crate) fn bit_len(&self) -> (r: usize)
        ensures
            r == bits_of(*self).len(),
    {
        self.bits.len()
    }

    /// Relies on `BitSlice`'s `Index<usize>`: the bit at `i`, which must be in bounds.
    #[verifier::external_body]
    pub(crate) fn bit_at(&self, i: usize) -> (r: bool)
        requires
            i < bits_of(*self).len(),
        ensures
            r == bits_of(*self)[i as int],
    {
        self.bits[i]
    }

    /// Relies on `BitSlice::set`: writes one in-bounds bit and leaves the others.
    #[verifier::external_body]
    pub(crate) fn set_bit(&mut self, i: usize, v: bool)
        requires
            i < bits_of(*old(self)).len(),
        ensures
            bits_of(*final(self)) == bits_of(*old(self)).update(i as int, v),
    {
        self.bits.set(i, v)
    }

    /// Relies on `BitVec::clone`: a copy holding the same bits.
    #[verifier::external_body]
    pub(crate) fn copy(&self) -> (r: State)
        ensures
            bits_of(r) == bits_of(*self),
    {
        State { bits: self.bits.clone() }
    }

    /// Relies on `BitVec`'s `PartialEq`: equal lengths and equal bits at every index.
    #[verifier::external_body]
    pub(crate) fn same_bits(&self, other: &State) -> (r: bool)
        ensures
            r == (bits_of(*self) == bits_of(*other)),
    {
        self.bits == other.bits
    }

    /// The state holding exactly the given bits.
    pub fn from_bools(v: &Vec<bool>) -> (r: State)
        ensures
            r@ == v@,
    {
        let mut s = State::zeros(v.len());
        let mut i: usize = 0;
        while i < v.len()
            invariant
                i <= v@.len(),
                s@.len() == v@.len(),
                forall|k: int| 0 <= k < i ==> s@[k] == v@[k],
                forall|k: int| i <= k < v@.len() ==> !s@[k],
            decreases v@.len() - i,
        {
            s.set_bit(i, v[i]);
            i = i + 1;
        }
        assert(s@ =~= v@);
        s
    }

    /// The bits of the state as a vector.
    pub fn to_bools(&self) -> (r: Vec<bool>)
        ensures
            r@ == self@,
    {
        let n = self.bit_len();
        let mut r: Vec<bool> = Vec::new();
        let mut i: usize = 0;
        while i < n
            invariant
                n == self@.len(),
                i <= n,
                r@ == self@.take(i as int),
            decreases n - i,
        {
            r.push(self.bit_at(i));
            i = i + 1;
            assert(r@ =~= self@.take(i as int));
        }
        assert(r@ =~= self@);
        r
    }
}

} // verus!
