//! Several wrapping 32-bit channels side by side.

use vstd::prelude::*;
use crate::traits::StackBlurrable;
use crate::color::serial::StackBlurrableU32;
use crate::arrays::{array_prefix, lemma_array_prefix};

verus! {

/// `N` lanes of 32 bits. Each lane wraps around on overflow by itself, and
/// behaves as a [`StackBlurrableU32`] does.
#[derive(Copy, Clone, Eq, PartialEq, Debug)]
pub struct StackBlurrableU32xN<const N: usize>(pub [u32; N]);

impl<const N: usize> StackBlurrableU32xN<N> {
    /// The value whose lanes are the `N` numbers of `lanes`.
    pub open spec fn of(lanes: Seq<u32>) -> Self {
        StackBlurrableU32xN(array_prefix::<u32, N>(lanes, 0, N as nat))
    }

    /// Lane `i` as a single channel.
    pub open spec fn lane(self, i: int) -> StackBlurrableU32 {
        StackBlurrableU32(self.0@[i])
    }

    /// The lanes of `of(lanes)` are `lanes`.
    pub proof fn lemma_of(lanes: Seq<u32>)
        requires
            lanes.len() == N,
        ensures
            Self::of(lanes).0@ == lanes,
    {
        broadcast use vstd::array::group_array_axioms;

        lemma_array_prefix::<u32, N>(lanes, 0, N as nat);
        assert(Self::of(lanes).0@ =~= lanes);
    }

    /// Two values with the same lanes are the same value.
    pub proof fn lemma_ext(a: Self, b: Self)
        requires
            forall|i: int| 0 <= i < N ==> a.0@[i] == b.0@[i],
        ensures
            a == b,
    {
        broadcast use vstd::array::group_array_axioms;

        assert(a.0 =~= b.0);
    }

    /// Returns `self - rhs`, lane by lane.
    pub fn sub(self, rhs: Self) -> (difference: Self)
        ensures
            difference == self.sub_spec(rhs),
    {
        let mut difference = self;
        difference.sub_assign(rhs);
        difference
    }
}

impl<const N: usize> StackBlurrable for StackBlurrableU32xN<N> {
    open spec fn zero_spec() -> Self {
        Self::of(Seq::new(N as nat, |i: int| 0u32))
    }

    open spec fn add_spec(self, rhs: Self) -> Self {
        Self::of(Seq::new(N as nat, |i: int| self.lane(i).add_spec(rhs.lane(i)).0))
    }

    open spec fn sub_spec(self, rhs: Self) -> Self {
        Self::of(Seq::new(N as nat, |i: int| self.lane(i).sub_spec(rhs.lane(i)).0))
    }

    open spec fn mul_spec(self, n: nat) -> Self {
        Self::of(Seq::new(N as nat, |i: int| self.lane(i).mul_spec(n).0))
    }

    open spec fn div_spec(self, n: nat) -> Self {
        Self::of(Seq::new(N as nat, |i: int| self.lane(i).div_spec(n).0))
    }

    proof fn lemma_clone(a: Self, b: Self) {
    }

    proof fn lemma_add_commutative(a: Self, b: Self) {
        let ab = Seq::new(N as nat, |i: int| a.lane(i).add_spec(b.lane(i)).0);
        let ba = Seq::new(N as nat, |i: int| b.lane(i).add_spec(a.lane(i)).0);
        Self::lemma_of(ab);
        Self::lemma_of(ba);
        assert forall|i: int| 0 <= i < N implies ab[i] == ba[i] by {
            StackBlurrableU32::lemma_add_commutative(a.lane(i), b.lane(i));
        }
        Self::lemma_ext(a.add_spec(b), b.add_spec(a));
    }

    proof fn lemma_add_associative(a: Self, b: Self, c: Self) {
        let ab = Seq::new(N as nat, |i: int| a.lane(i).add_spec(b.lane(i)).0);
        let bc = Seq::new(N as nat, |i: int| b.lane(i).add_spec(c.lane(i)).0);
        Self::lemma_of(ab);
        Self::lemma_of(bc);
        let left = Seq::new(N as nat, |i: int| a.add_spec(b).lane(i).add_spec(c.lane(i)).0);
        let right = Seq::new(N as nat, |i: int| a.lane(i).add_spec(b.add_spec(c).lane(i)).0);
        Self::lemma_of(left);
        Self::lemma_of(right);
        assert forall|i: int| 0 <= i < N implies left[i] == right[i] by {
            StackBlurrableU32::lemma_add_associative(a.lane(i), b.lane(i), c.lane(i));
        }
        Self::lemma_ext(a.add_spec(b).add_spec(c), a.add_spec(b.add_spec(c)));
    }

    proof fn lemma_add_zero(a: Self) {
        broadcast use vstd::array::group_array_axioms;

        let zeros = Seq::new(N as nat, |i: int| 0u32);
        Self::lemma_of(zeros);
        let sum = Seq::new(N as nat, |i: int| a.lane(i).add_spec(Self::zero_spec().lane(i)).0);
        Self::lemma_of(sum);
        assert forall|i: int| 0 <= i < N implies sum[i] == a.0@[i] by {
            StackBlurrableU32::lemma_add_zero(a.lane(i));
        }
        Self::lemma_ext(a.add_spec(Self::zero_spec()), a);
    }

    proof fn lemma_add_sub(a: Self, b: Self) {
        broadcast use vstd::array::group_array_axioms;

        let ab = Seq::new(N as nat, |i: int| a.lane(i).add_spec(b.lane(i)).0);
        Self::lemma_of(ab);
        let back = Seq::new(N as nat, |i: int| a.add_spec(b).lane(i).sub_spec(b.lane(i)).0);
        Self::lemma_of(back);
        assert forall|i: int| 0 <= i < N implies back[i] == a.0@[i] by {
            StackBlurrableU32::lemma_add_sub(a.lane(i), b.lane(i));
        }
        Self::lemma_ext(a.add_spec(b).sub_spec(b), a);
    }

    proof fn lemma_sub_add(a: Self, b: Self) {
        broadcast use vstd::array::group_array_axioms;

        let ab = Seq::new(N as nat, |i: int| a.lane(i).sub_spec(b.lane(i)).0);
        Self::lemma_of(ab);
        let back = Seq::new(N as nat, |i: int| a.sub_spec(b).lane(i).add_spec(b.lane(i)).0);
        Self::lemma_of(back);
        assert forall|i: int| 0 <= i < N implies back[i] == a.0@[i] by {
            StackBlurrableU32::lemma_sub_add(a.lane(i), b.lane(i));
        }
        Self::lemma_ext(a.sub_spec(b).add_spec(b), a);
    }

    proof fn lemma_mul_zero(a: Self) {
        let zeros = Seq::new(N as nat, |i: int| 0u32);
        let product = Seq::new(N as nat, |i: int| a.lane(i).mul_spec(0).0);
        Self::lemma_of(zeros);
        Self::lemma_of(product);
        assert forall|i: int| 0 <= i < N implies product[i] == zeros[i] by {
            StackBlurrableU32::lemma_mul_zero(a.lane(i));
        }
        Self::lemma_ext(a.mul_spec(0), Self::zero_spec());
    }

    proof fn lemma_mul_succ(a: Self, n: nat) {
        let more = Seq::new(N as nat, |i: int| a.lane(i).mul_spec(n + 1).0);
        let less = Seq::new(N as nat, |i: int| a.lane(i).mul_spec(n).0);
        Self::lemma_of(more);
        Self::lemma_of(less);
        let sum = Seq::new(N as nat, |i: int| a.mul_spec(n).lane(i).add_spec(a.lane(i)).0);
        Self::lemma_of(sum);
        assert forall|i: int| 0 <= i < N implies more[i] == sum[i] by {
            StackBlurrableU32::lemma_mul_succ(a.lane(i), n);
        }
        Self::lemma_ext(a.mul_spec(n + 1), a.mul_spec(n).add_spec(a));
    }

    proof fn lemma_div_one(a: Self) {
        broadcast use vstd::array::group_array_axioms;

        let quotient = Seq::new(N as nat, |i: int| a.lane(i).div_spec(1).0);
        Self::lemma_of(quotient);
        assert forall|i: int| 0 <= i < N implies quotient[i] == a.0@[i] by {
            StackBlurrableU32::lemma_div_one(a.lane(i));
        }
        Self::lemma_ext(a.div_spec(1), a);
    }

    fn zero() -> (z: Self) {
        let z = StackBlurrableU32xN([0u32;N]);
        proof {
            broadcast use vstd::array::group_array_axioms;

            Self::lemma_of(Seq::new(N as nat, |i: int| 0u32));
            Self::lemma_ext(z, Self::zero_spec());
        }
        z
    }

    fn add(self, rhs: Self) -> (sum: Self) {
        let mut sum = self;
        sum.add_assign(rhs);
        sum
    }

    fn add_assign(&mut self, rhs: Self) {
        let mut i: usize = 0;
        while i < N
            invariant
                i <= N,
                forall|k: int|
                    0 <= k < i ==> self.0@[k] == old(self).lane(k).add_spec(rhs.lane(k)).0,
                forall|k: int| i <= k < N ==> self.0@[k] == old(self).0@[k],
            decreases N - i,
        {
            self.0[i] = StackBlurrableU32(self.0[i]).add(StackBlurrableU32(rhs.0[i])).0;
            i += 1;
        }
        proof {
            Self::lemma_of(Seq::new(N as nat, |i: int| old(self).lane(i).add_spec(rhs.lane(i)).0));
            Self::lemma_ext(*self, old(self).add_spec(rhs));
        }
    }

    fn sub_assign(&mut self, rhs: Self) {
        let mut i: usize = 0;
        while i < N
            invariant
                i <= N,
                forall|k: int|
                    0 <= k < i ==> self.0@[k] == old(self).lane(k).sub_spec(rhs.lane(k)).0,
                forall|k: int| i <= k < N ==> self.0@[k] == old(self).0@[k],
            decreases N - i,
        {
            self.0[i] = StackBlurrableU32(self.0[i]).sub(StackBlurrableU32(rhs.0[i])).0;
            i += 1;
        }
        proof {
            Self::lemma_of(Seq::new(N as nat, |i: int| old(self).lane(i).sub_spec(rhs.lane(i)).0));
            Self::lemma_ext(*self, old(self).sub_spec(rhs));
        }
    }

    fn mul(self, n: usize) -> (product: Self) {
        let mut product = self;
        let mut i: usize = 0;
        while i < N
            invariant
                i <= N,
                forall|k: int| 0 <= k < i ==> product.0@[k] == self.lane(k).mul_spec(n as nat).0,
                forall|k: int| i <= k < N ==> product.0@[k] == self.0@[k],
            decreases N - i,
        {
            product.0[i] = StackBlurrableU32(self.0[i]).mul(n).0;
            i += 1;
        }
        proof {
            Self::lemma_of(Seq::new(N as nat, |i: int| self.lane(i).mul_spec(n as nat).0));
            Self::lemma_ext(product, self.mul_spec(n as nat));
        }
        product
    }

    fn div(self, n: usize) -> (quotient: Self) {
        let mut quotient = self;
        let mut i: usize = 0;
        while i < N
            invariant
                i <= N,
                n > 0,
                forall|k: int| 0 <= k < i ==> quotient.0@[k] == self.lane(k).div_spec(n as nat).0,
                forall|k: int| i <= k < N ==> quotient.0@[k] == self.0@[k],
            decreases N - i,
        {
            quotient.0[i] = StackBlurrableU32(self.0[i]).div(n).0;
            i += 1;
        }
        proof {
            Self::lemma_of(Seq::new(N as nat, |i: int| self.lane(i).div_spec(n as nat).0));
            Self::lemma_ext(quotient, self.div_spec(n as nat));
        }
        quotient
    }
}

} // verus!
