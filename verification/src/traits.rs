//! The home of [`StackBlurrable`].

use vstd::prelude::*;

verus! {

/// The trait for values that can be blurred.
///
/// A blurrable value stands for one pixel, or one group of channels, at a
/// precision well above that of the pixel format: the generator multiplies
/// values by weights in the hundreds or thousands before it divides again.
/// The generator clones the values it is given, so cloning should be cheap;
/// ideally the type is `Copy`.
///
/// The values form a commutative group under `add_spec`, with `zero_spec` as
/// the neutral element and `sub_spec` undoing an addition. Sums are allowed
/// to wrap around: the generator never looks at an intermediate sum, only at
/// sums in which each addition it ever undid has cancelled exactly.
/// `mul_spec` is repeated addition, and `div_spec` is a division by a
/// positive whole number of which this trait only asks that dividing by one
/// changes nothing. A clone is the value over again.
pub trait StackBlurrable: Clone {
    /// The neutral value.
    spec fn zero_spec() -> Self;

    /// The sum of two values.
    spec fn add_spec(self, rhs: Self) -> Self;

    /// The value that gives `self` back when `rhs` is added to it.
    spec fn sub_spec(self, rhs: Self) -> Self;

    /// `self` added up `n` times.
    spec fn mul_spec(self, n: nat) -> Self;

    /// `self` divided by `n`, which is meant to be positive.
    spec fn div_spec(self, n: nat) -> Self;

    proof fn lemma_clone(a: Self, b: Self)
        requires
            cloned(a, b),
        ensures
            a == b,
    ;

    proof fn lemma_add_commutative(a: Self, b: Self)
        ensures
            a.add_spec(b) == b.add_spec(a),
    ;

    proof fn lemma_add_associative(a: Self, b: Self, c: Self)
        ensures
            a.add_spec(b).add_spec(c) == a.add_spec(b.add_spec(c)),
    ;

    proof fn lemma_add_zero(a: Self)
        ensures
            a.add_spec(Self::zero_spec()) == a,
    ;

    proof fn lemma_add_sub(a: Self, b: Self)
        ensures
            a.add_spec(b).sub_spec(b) == a,
    ;

    proof fn lemma_sub_add(a: Self, b: Self)
        ensures
            a.sub_spec(b).add_spec(b) == a,
    ;

    proof fn lemma_mul_zero(a: Self)
        ensures
            a.mul_spec(0) == Self::zero_spec(),
    ;

    proof fn lemma_mul_succ(a: Self, n: nat)
        ensures
            a.mul_spec(n + 1) == a.mul_spec(n).add_spec(a),
    ;

    proof fn lemma_div_one(a: Self)
        ensures
            a.div_spec(1) == a,
    ;

    /// Returns the neutral value.
    fn zero() -> (z: Self)
        ensures
            z == Self::zero_spec(),
    ;

    /// Returns `self + rhs`.
    fn add(self, rhs: Self) -> (sum: Self)
        ensures
            sum == self.add_spec(rhs),
    ;

    /// `self += rhs`.
    fn add_assign(&mut self, rhs: Self)
        ensures
            *final(self) == old(self).add_spec(rhs),
    ;

    /// `self -= rhs`.
    fn sub_assign(&mut self, rhs: Self)
        ensures
            *final(self) == old(self).sub_spec(rhs),
    ;

    /// Returns `self * n`.
    fn mul(self, n: usize) -> (product: Self)
        ensures
            product == self.mul_spec(n as nat),
    ;

    /// Returns `self / n`.
    fn div(self, n: usize) -> (quotient: Self)
        requires
            n > 0,
        ensures
            quotient == self.div_spec(n as nat),
    ;
}

} // verus!
