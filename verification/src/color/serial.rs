//! A single wrapping 32-bit channel.

use vstd::prelude::*;
use vstd::arithmetic::div_mod::*;
use vstd::arithmetic::mul::*;
use crate::traits::StackBlurrable;
use crate::kernel::{
    blurred_at, divisor, lemma_blurred_constant, lemma_weight_total_tent, tent, weight_total,
    weighted_sum,
};

verus! {

/// One channel, held in 32 bits that wrap around on overflow.
#[derive(Copy, Clone, Eq, PartialEq, Debug, Default)]
pub struct StackBlurrableU32(pub u32);

impl StackBlurrableU32 {
    /// The difference `self - rhs`, wrapping around below zero.
    pub fn sub(self, rhs: Self) -> (difference: Self)
        ensures
            difference == self.sub_spec(rhs),
    {
        StackBlurrableU32(self.0.wrapping_sub(rhs.0))
    }
}

impl StackBlurrable for StackBlurrableU32 {
    open spec fn zero_spec() -> Self {
        StackBlurrableU32(0)
    }

    open spec fn add_spec(self, rhs: Self) -> Self {
        StackBlurrableU32(((self.0 + rhs.0) % 0x1_0000_0000) as u32)
    }

    open spec fn sub_spec(self, rhs: Self) -> Self {
        StackBlurrableU32(((self.0 - rhs.0) % 0x1_0000_0000) as u32)
    }

    open spec fn mul_spec(self, n: nat) -> Self {
        StackBlurrableU32(((self.0 * n) % 0x1_0000_0000) as u32)
    }

    open spec fn div_spec(self, n: nat) -> Self {
        StackBlurrableU32((self.0 as nat / n) as u32)
    }

    proof fn lemma_clone(a: Self, b: Self) {
    }

    proof fn lemma_add_commutative(a: Self, b: Self) {
    }

    proof fn lemma_add_associative(a: Self, b: Self, c: Self) {
    }

    proof fn lemma_add_zero(a: Self) {
    }

    proof fn lemma_add_sub(a: Self, b: Self) {
    }

    proof fn lemma_sub_add(a: Self, b: Self) {
    }

    proof fn lemma_mul_zero(a: Self) {
    }

    proof fn lemma_mul_succ(a: Self, n: nat) {
        let x: int = a.0 as int;
        assert(x * (n + 1) == x * n + x) by (nonlinear_arith);
        lemma_add_mod_noop(x * n, x, 0x1_0000_0000);
        lemma_small_mod(a.0 as nat, 0x1_0000_0000);
    }

    proof fn lemma_div_one(a: Self) {
    }

    fn zero() -> (z: Self) {
        StackBlurrableU32(0)
    }

    fn add(self, rhs: Self) -> (sum: Self) {
        StackBlurrableU32(self.0.wrapping_add(rhs.0))
    }

    fn add_assign(&mut self, rhs: Self) {
        self.0 = self.0.wrapping_add(rhs.0);
    }

    fn sub_assign(&mut self, rhs: Self) {
        self.0 = self.0.wrapping_sub(rhs.0);
    }

    fn mul(self, n: usize) -> (product: Self) {
        let wide: u64 = n as u64;
        let low: u32 = (wide % 0x1_0000_0000) as u32;
        proof {
            let x: int = self.0 as int;
            lemma_mul_mod_noop_right(x, n as int, 0x1_0000_0000);
        }
        StackBlurrableU32(self.0.wrapping_mul(low))
    }

    fn div(self, n: usize) -> (quotient: Self) {
        if n > 0xFFFF_FFFF {
            proof {
                lemma_basic_div(self.0 as int, n as int);
            }
            StackBlurrableU32(0)
        } else {
            StackBlurrableU32(self.0 / (n as u32))
        }
    }
}

/// The first `n` channels of `xs`, each multiplied by its weight, added up
/// as whole numbers, with nothing wrapping around.
pub open spec fn plain_sum(xs: Seq<StackBlurrableU32>, weight: spec_fn(int) -> nat, n: nat) -> nat
    decreases n,
{
    if n == 0 {
        0
    } else {
        plain_sum(xs, weight, (n - 1) as nat) + (xs[n - 1].0 as nat) * weight(n - 1)
    }
}

/// The wrapping weighted sum is the plain one, taken modulo two to the 32.
pub proof fn lemma_weighted_sum_wraps(
    xs: Seq<StackBlurrableU32>,
    weight: spec_fn(int) -> nat,
    n: nat,
)
    ensures
        weighted_sum(xs, weight, n).0 == plain_sum(xs, weight, n) % 0x1_0000_0000,
    decreases n,
{
    if n > 0 {
        let m: nat = (n - 1) as nat;
        lemma_weighted_sum_wraps(xs, weight, m);
        let before: int = plain_sum(xs, weight, m) as int;
        let term: int = ((xs[n - 1].0 as nat) * weight(n - 1)) as int;
        lemma_mul_nonnegative(xs[n - 1].0 as int, weight(n - 1) as int);
        lemma_add_mod_noop(before, term, 0x1_0000_0000);
    }
}

/// Each output is the plain weighted sum of the inputs under the tent,
/// wrapped to 32 bits and divided by the weight of the inputs that exist.
/// Where the plain sum fits in 32 bits nothing wraps, and the output times
/// its divisor falls short of the sum by less than the divisor.
pub proof fn lemma_blurred_exact(xs: Seq<StackBlurrableU32>, radius: nat, i: int)
    requires
        0 <= i < xs.len(),
    ensures
        blurred_at(xs, radius, i).0 == (plain_sum(xs, tent(radius, i), xs.len()) % 0x1_0000_0000)
            / divisor(radius, xs.len(), i),
        plain_sum(xs, tent(radius, i), xs.len()) < 0x1_0000_0000 ==> {
            let sum = plain_sum(xs, tent(radius, i), xs.len());
            let out = blurred_at(xs, radius, i).0;
            out * divisor(radius, xs.len(), i) <= sum < (out + 1) * divisor(radius, xs.len(), i)
        },
{
    let d: int = divisor(radius, xs.len(), i) as int;
    let sum: int = plain_sum(xs, tent(radius, i), xs.len()) as int;
    lemma_weighted_sum_wraps(xs, tent(radius, i), xs.len());
    lemma_weight_total_tent(radius, xs.len(), i);
    if sum < 0x1_0000_0000 {
        lemma_small_mod(sum as nat, 0x1_0000_0000);
        lemma_fundamental_div_mod(sum, d);
        lemma_mod_bound(sum, d);
        let out: int = sum / d;
        assert((out + 1) * d == out * d + d) by (nonlinear_arith);
        assert(d * out == out * d) by (nonlinear_arith);
    }
}

/// Where the channels that carry weight lie between `lo` and `hi`, the
/// plain weighted sum lies between `lo` and `hi` times the total weight.
pub proof fn lemma_plain_sum_between(
    xs: Seq<StackBlurrableU32>,
    weight: spec_fn(int) -> nat,
    n: nat,
    lo: nat,
    hi: nat,
)
    requires
        forall|j: int| 0 <= j < n && #[trigger] weight(j) > 0 ==> lo <= xs[j].0 <= hi,
    ensures
        lo * weight_total(weight, n) <= plain_sum(xs, weight, n) <= hi * weight_total(weight, n),
    decreases n,
{
    if n == 0 {
        assert(lo * 0 == 0 && hi * 0 == 0) by (nonlinear_arith);
    } else {
        let m: nat = (n - 1) as nat;
        lemma_plain_sum_between(xs, weight, m, lo, hi);
        let w = weight(n - 1);
        let x = xs[n - 1].0 as nat;
        let t = weight_total(weight, m);
        assert(lo * (t + w) == lo * t + lo * w && hi * (t + w) == hi * t + hi * w)
            by (nonlinear_arith);
        if w > 0 {
            assert(lo * w <= x * w <= hi * w) by (nonlinear_arith)
                requires
                    lo <= x <= hi,
                    w >= 0,
            ;
        } else {
            assert(lo * w == 0 && x * w == 0 && hi * w == 0) by (nonlinear_arith)
                requires
                    w == 0,
            ;
        }
    }
}

/// An output lies between the smallest and the largest of the inputs within
/// `radius` of it, where the plain sum of those inputs under the tent fits in
/// 32 bits.
pub proof fn lemma_blurred_between(
    xs: Seq<StackBlurrableU32>,
    radius: nat,
    i: int,
    lo: nat,
    hi: nat,
)
    requires
        0 <= i < xs.len(),
        forall|j: int|
            0 <= j < xs.len() && i - radius <= j <= i + radius ==> lo <= (#[trigger] xs[j]).0 <= hi,
        plain_sum(xs, tent(radius, i), xs.len()) < 0x1_0000_0000,
    ensures
        lo <= blurred_at(xs, radius, i).0 <= hi,
{
    let total: int = divisor(radius, xs.len(), i) as int;
    let sum: int = plain_sum(xs, tent(radius, i), xs.len()) as int;
    lemma_blurred_exact(xs, radius, i);
    lemma_weight_total_tent(radius, xs.len(), i);
    assert forall|j: int| 0 <= j < xs.len() && #[trigger] tent(radius, i)(j) > 0 implies lo
        <= xs[j].0 <= hi by {}
    lemma_plain_sum_between(xs, tent(radius, i), xs.len(), lo, hi);
    let out: int = blurred_at(xs, radius, i).0 as int;
    assert(lo <= out <= hi) by (nonlinear_arith)
        requires
            total > 0,
            lo * total <= sum <= hi * total,
            out * total <= sum < (out + 1) * total,
    ;
}

/// Multiplying a channel by `d` and dividing by `d` again gives the channel
/// back, as long as the product fits in 32 bits.
pub proof fn lemma_mul_div(c: StackBlurrableU32, d: nat)
    requires
        d > 0,
        c.0 * d <= u32::MAX,
    ensures
        c.mul_spec(d).div_spec(d) == c,
{
    let v: int = c.0 as int;
    lemma_mul_nonnegative(v, d as int);
    lemma_small_mod((v * d) as nat, 0x1_0000_0000);
    lemma_div_by_multiple(v, d as int);
}

/// A flat signal stays flat exactly where the value times the divisor still
/// fits in 32 bits; a larger product wraps around, and what is divided is
/// no longer a multiple of the divisor.
pub proof fn lemma_blurred_flat(
    xs: Seq<StackBlurrableU32>,
    c: StackBlurrableU32,
    radius: nat,
    i: int,
)
    requires
        0 <= i < xs.len(),
        forall|j: int| 0 <= j < xs.len() ==> xs[j] == c,
    ensures
        blurred_at(xs, radius, i) == c <==> c.0 * divisor(radius, xs.len(), i) <= u32::MAX,
{
    let d: int = divisor(radius, xs.len(), i) as int;
    let v: int = c.0 as int;
    lemma_blurred_constant(xs, c, radius, i);
    lemma_mul_nonnegative(v, d);
    if v * d <= u32::MAX {
        lemma_small_mod((v * d) as nat, 0x1_0000_0000);
        lemma_div_by_multiple(v, d);
    } else {
        let wrapped: int = (v * d) % 0x1_0000_0000;
        lemma_fundamental_div_mod(v * d, 0x1_0000_0000);
        lemma_mod_bound(v * d, 0x1_0000_0000);
        let turns: int = (v * d) / 0x1_0000_0000;
        assert(turns >= 1);
        assert(wrapped <= v * d - 0x1_0000_0000) by (nonlinear_arith)
            requires
                v * d == 0x1_0000_0000 * turns + wrapped,
                turns >= 1,
        ;
        // what is left after wrapping is less than `v` times the divisor,
        // so `v` does not go into it
        assert(wrapped < v * d);
        lemma_fundamental_div_mod(wrapped, d);
        lemma_mod_bound(wrapped, d);
        assert(wrapped / d < v) by (nonlinear_arith)
            requires
                wrapped == d * (wrapped / d) + wrapped % d,
                0 <= wrapped % d,
                wrapped < v * d,
                d > 0,
        ;
    }
}

} // verus!
