//! Blurrable values for pixels of several channels.

pub mod serial;
pub mod simd;

use vstd::prelude::*;
use crate::traits::StackBlurrable;
use crate::arrays::{array_prefix, lemma_array_prefix};
use crate::kernel::preserves;
use serial::StackBlurrableU32;
use simd::StackBlurrableU32xN;

verus! {

/// Several channels of one pixel, blurred side by side.
#[derive(Copy, Eq, PartialEq, Debug)]
pub struct Argb<T: StackBlurrable, const N: usize>(pub [T; N]);

impl<T: StackBlurrable + Copy, const N: usize> Default for Argb<T, N> {
    fn default() -> (z: Self)
        ensures
            z == Self::zero_spec(),
    {
        Self::zero()
    }
}

impl<T: StackBlurrable + Copy, const N: usize> Clone for Argb<T, N> {
    fn clone(&self) -> (copy: Self)
        ensures
            copy == *self,
    {
        *self
    }
}

impl<T: StackBlurrable + Copy, const N: usize> Argb<T, N> {
    /// The pixel whose channels are the `N` values of `channels`.
    pub open spec fn of(channels: Seq<T>) -> Self {
        Argb(array_prefix::<T, N>(channels, T::zero_spec(), N as nat))
    }

    /// The channels of `of(channels)` are `channels`.
    pub proof fn lemma_of(channels: Seq<T>)
        requires
            channels.len() == N,
        ensures
            Self::of(channels).0@ == channels,
    {
        broadcast use vstd::array::group_array_axioms;

        lemma_array_prefix::<T, N>(channels, T::zero_spec(), N as nat);
        assert(Self::of(channels).0@ =~= channels);
    }

    /// Two pixels with the same channels are the same pixel.
    pub proof fn lemma_ext(a: Self, b: Self)
        requires
            forall|i: int| 0 <= i < N ==> a.0@[i] == b.0@[i],
        ensures
            a == b,
    {
        broadcast use vstd::array::group_array_axioms;

        assert(a.0 =~= b.0);
    }
}

impl<T: StackBlurrable + Copy, const N: usize> Argb<T, N> {
    /// Taking channel `k`, as a function.
    pub open spec fn channel_of(k: int) -> spec_fn(Self) -> T {
        |pixel: Self| pixel.0@[k]
    }

    /// The channels do not mix: the arithmetic of a pixel is, in each
    /// channel, the arithmetic of that channel's values. So the blur of a
    /// line of pixels is, in each channel, the blur of that channel.
    pub proof fn lemma_channel_preserves(k: int)
        requires
            0 <= k < N,
        ensures
            preserves(Self::channel_of(k)),
    {
        let p = Self::channel_of(k);
        Self::lemma_of(Seq::new(N as nat, |i: int| T::zero_spec()));
        assert forall|a: Self, b: Self| #[trigger] p(a.add_spec(b)) == p(a).add_spec(p(b)) by {
            Self::lemma_of(Seq::new(N as nat, |i: int| a.0@[i].add_spec(b.0@[i])));
        }
        assert forall|a: Self, n: nat| #[trigger] p(a.mul_spec(n)) == p(a).mul_spec(n) by {
            Self::lemma_of(Seq::new(N as nat, |i: int| a.0@[i].mul_spec(n)));
        }
        assert forall|a: Self, n: nat| #[trigger] p(a.div_spec(n)) == p(a).div_spec(n) by {
            Self::lemma_of(Seq::new(N as nat, |i: int| a.0@[i].div_spec(n)));
        }
    }

    /// Returns `self - rhs`, channel by channel.
    pub fn sub(self, rhs: Self) -> (difference: Self)
        ensures
            difference == self.sub_spec(rhs),
    {
        let mut difference = self;
        difference.sub_assign(rhs);
        difference
    }
}

impl<T: StackBlurrable + Copy, const N: usize> StackBlurrable for Argb<T, N> {
    open spec fn zero_spec() -> Self {
        Self::of(Seq::new(N as nat, |i: int| T::zero_spec()))
    }

    open spec fn add_spec(self, rhs: Self) -> Self {
        Self::of(Seq::new(N as nat, |i: int| self.0@[i].add_spec(rhs.0@[i])))
    }

    open spec fn sub_spec(self, rhs: Self) -> Self {
        Self::of(Seq::new(N as nat, |i: int| self.0@[i].sub_spec(rhs.0@[i])))
    }

    open spec fn mul_spec(self, n: nat) -> Self {
        Self::of(Seq::new(N as nat, |i: int| self.0@[i].mul_spec(n)))
    }

    open spec fn div_spec(self, n: nat) -> Self {
        Self::of(Seq::new(N as nat, |i: int| self.0@[i].div_spec(n)))
    }

    proof fn lemma_clone(a: Self, b: Self) {
    }

    proof fn lemma_add_commutative(a: Self, b: Self) {
        let ab = Seq::new(N as nat, |i: int| a.0@[i].add_spec(b.0@[i]));
        let ba = Seq::new(N as nat, |i: int| b.0@[i].add_spec(a.0@[i]));
        Self::lemma_of(ab);
        Self::lemma_of(ba);
        assert forall|i: int| 0 <= i < N implies ab[i] == ba[i] by {
            T::lemma_add_commutative(a.0@[i], b.0@[i]);
        }
        Self::lemma_ext(a.add_spec(b), b.add_spec(a));
    }

    proof fn lemma_add_associative(a: Self, b: Self, c: Self) {
        let ab = Seq::new(N as nat, |i: int| a.0@[i].add_spec(b.0@[i]));
        let bc = Seq::new(N as nat, |i: int| b.0@[i].add_spec(c.0@[i]));
        Self::lemma_of(ab);
        Self::lemma_of(bc);
        let left = Seq::new(N as nat, |i: int| a.add_spec(b).0@[i].add_spec(c.0@[i]));
        let right = Seq::new(N as nat, |i: int| a.0@[i].add_spec(b.add_spec(c).0@[i]));
        Self::lemma_of(left);
        Self::lemma_of(right);
        assert forall|i: int| 0 <= i < N implies left[i] == right[i] by {
            T::lemma_add_associative(a.0@[i], b.0@[i], c.0@[i]);
        }
        Self::lemma_ext(a.add_spec(b).add_spec(c), a.add_spec(b.add_spec(c)));
    }

    proof fn lemma_add_zero(a: Self) {
        broadcast use vstd::array::group_array_axioms;

        let zeros = Seq::new(N as nat, |i: int| T::zero_spec());
        Self::lemma_of(zeros);
        let sum = Seq::new(N as nat, |i: int| a.0@[i].add_spec(Self::zero_spec().0@[i]));
        Self::lemma_of(sum);
        assert forall|i: int| 0 <= i < N implies sum[i] == a.0@[i] by {
            T::lemma_add_zero(a.0@[i]);
        }
        Self::lemma_ext(a.add_spec(Self::zero_spec()), a);
    }

    proof fn lemma_add_sub(a: Self, b: Self) {
        broadcast use vstd::array::group_array_axioms;

        let ab = Seq::new(N as nat, |i: int| a.0@[i].add_spec(b.0@[i]));
        Self::lemma_of(ab);
        let back = Seq::new(N as nat, |i: int| a.add_spec(b).0@[i].sub_spec(b.0@[i]));
        Self::lemma_of(back);
        assert forall|i: int| 0 <= i < N implies back[i] == a.0@[i] by {
            T::lemma_add_sub(a.0@[i], b.0@[i]);
        }
        Self::lemma_ext(a.add_spec(b).sub_spec(b), a);
    }

    proof fn lemma_sub_add(a: Self, b: Self) {
        broadcast use vstd::array::group_array_axioms;

        let ab = Seq::new(N as nat, |i: int| a.0@[i].sub_spec(b.0@[i]));
        Self::lemma_of(ab);
        let back = Seq::new(N as nat, |i: int| a.sub_spec(b).0@[i].add_spec(b.0@[i]));
        Self::lemma_of(back);
        assert forall|i: int| 0 <= i < N implies back[i] == a.0@[i] by {
            T::lemma_sub_add(a.0@[i], b.0@[i]);
        }
        Self::lemma_ext(a.sub_spec(b).add_spec(b), a);
    }

    proof fn lemma_mul_zero(a: Self) {
        let zeros = Seq::new(N as nat, |i: int| T::zero_spec());
        let product = Seq::new(N as nat, |i: int| a.0@[i].mul_spec(0));
        Self::lemma_of(zeros);
        Self::lemma_of(product);
        assert forall|i: int| 0 <= i < N implies product[i] == zeros[i] by {
            T::lemma_mul_zero(a.0@[i]);
        }
        Self::lemma_ext(a.mul_spec(0), Self::zero_spec());
    }

    proof fn lemma_mul_succ(a: Self, n: nat) {
        let more = Seq::new(N as nat, |i: int| a.0@[i].mul_spec(n + 1));
        let less = Seq::new(N as nat, |i: int| a.0@[i].mul_spec(n));
        Self::lemma_of(more);
        Self::lemma_of(less);
        let sum = Seq::new(N as nat, |i: int| a.mul_spec(n).0@[i].add_spec(a.0@[i]));
        Self::lemma_of(sum);
        assert forall|i: int| 0 <= i < N implies more[i] == sum[i] by {
            T::lemma_mul_succ(a.0@[i], n);
        }
        Self::lemma_ext(a.mul_spec(n + 1), a.mul_spec(n).add_spec(a));
    }

    proof fn lemma_div_one(a: Self) {
        broadcast use vstd::array::group_array_axioms;

        let quotient = Seq::new(N as nat, |i: int| a.0@[i].div_spec(1));
        Self::lemma_of(quotient);
        assert forall|i: int| 0 <= i < N implies quotient[i] == a.0@[i] by {
            T::lemma_div_one(a.0@[i]);
        }
        Self::lemma_ext(a.div_spec(1), a);
    }

    fn zero() -> (z: Self) {
        let z = Argb([T::zero();N]);
        proof {
            broadcast use vstd::array::group_array_axioms;

            Self::lemma_of(Seq::new(N as nat, |i: int| T::zero_spec()));
            Self::lemma_ext(z, Self::zero_spec());
        }
        z
    }

    fn add(self, rhs: Self) -> (sum: Self) {
        let mut sum = self;
        sum.add_assign(rhs);
        sum
    }

    fn add_assign(&mut self, rhs: Self) {
        let mut i: usize = 0;
        while i < N
            invariant
                i <= N,
                forall|k: int| 0 <= k < i ==> self.0@[k] == old(self).0@[k].add_spec(rhs.0@[k]),
                forall|k: int| i <= k < N ==> self.0@[k] == old(self).0@[k],
            decreases N - i,
        {
            let mut channel: T = self.0[i];
            channel.add_assign(rhs.0[i]);
            self.0[i] = channel;
            i += 1;
        }
        proof {
            Self::lemma_of(Seq::new(N as nat, |i: int| old(self).0@[i].add_spec(rhs.0@[i])));
            Self::lemma_ext(*self, old(self).add_spec(rhs));
        }
    }

    fn sub_assign(&mut self, rhs: Self) {
        let mut i: usize = 0;
        while i < N
            invariant
                i <= N,
                forall|k: int| 0 <= k < i ==> self.0@[k] == old(self).0@[k].sub_spec(rhs.0@[k]),
                forall|k: int| i <= k < N ==> self.0@[k] == old(self).0@[k],
            decreases N - i,
        {
            let mut channel: T = self.0[i];
            channel.sub_assign(rhs.0[i]);
            self.0[i] = channel;
            i += 1;
        }
        proof {
            Self::lemma_of(Seq::new(N as nat, |i: int| old(self).0@[i].sub_spec(rhs.0@[i])));
            Self::lemma_ext(*self, old(self).sub_spec(rhs));
        }
    }

    fn mul(self, n: usize) -> (product: Self) {
        let mut product = self;
        let mut i: usize = 0;
        while i < N
            invariant
                i <= N,
                forall|k: int| 0 <= k < i ==> product.0@[k] == self.0@[k].mul_spec(n as nat),
                forall|k: int| i <= k < N ==> product.0@[k] == self.0@[k],
            decreases N - i,
        {
            product.0[i] = self.0[i].mul(n);
            i += 1;
        }
        proof {
            Self::lemma_of(Seq::new(N as nat, |i: int| self.0@[i].mul_spec(n as nat)));
            Self::lemma_ext(product, self.mul_spec(n as nat));
        }
        product
    }

    fn div(self, n: usize) -> (quotient: Self) {
        let mut quotient = self;
        let mut i: usize = 0;
        while i < N
            invariant
                i <= N,
                n > 0,
                forall|k: int| 0 <= k < i ==> quotient.0@[k] == self.0@[k].div_spec(n as nat),
                forall|k: int| i <= k < N ==> quotient.0@[k] == self.0@[k],
            decreases N - i,
        {
            quotient.0[i] = self.0[i].div(n);
            i += 1;
        }
        proof {
            Self::lemma_of(Seq::new(N as nat, |i: int| self.0@[i].div_spec(n as nat)));
            Self::lemma_ext(quotient, self.div_spec(n as nat));
        }
        quotient
    }
}

/// Byte `k` of `x`, counted from the most significant one.
pub open spec fn be_byte(x: u32, k: int) -> u8 {
    if k == 0 {
        (x / 0x100_0000) as u8
    } else if k == 1 {
        (x / 0x1_0000 % 0x100) as u8
    } else if k == 2 {
        (x / 0x100 % 0x100) as u8
    } else {
        (x % 0x100) as u8
    }
}

/// The 32-bit number whose bytes are `a`, `r`, `g` and `b`, from the most
/// significant one down.
pub open spec fn be_word(a: u8, r: u8, g: u8, b: u8) -> u32 {
    (a * 0x100_0000 + r * 0x1_0000 + g * 0x100 + b) as u32
}

/// The lowest 8 bits of `v`.
pub open spec fn low_byte(v: u32) -> u8 {
    (v % 0x100) as u8
}

/// The lowest 16 bits of `v`.
pub open spec fn low_half(v: u32) -> u16 {
    (v % 0x1_0000) as u16
}

/// Taking a number apart into bytes and putting it together again gives the
/// number back.
pub proof fn lemma_be_round_trip(x: u32)
    ensures
        be_word(be_byte(x, 0), be_byte(x, 1), be_byte(x, 2), be_byte(x, 3)) == x,
        forall|k: int| 0 <= k < 4 ==> low_byte(#[trigger] be_byte(x, k) as u32) == be_byte(x, k),
{
    let a: u32 = x / 0x100_0000;
    let r: u32 = x / 0x1_0000 % 0x100;
    let g: u32 = x / 0x100 % 0x100;
    let b: u32 = x % 0x100;
    assert(a < 0x100 && r < 0x100 && g < 0x100 && b < 0x100 && x == a * 0x100_0000 + r * 0x1_0000
        + g * 0x100 + b) by (bit_vector)
        requires
            a == x / 0x100_0000u32,
            r == x / 0x1_0000u32 % 0x100u32,
            g == x / 0x100u32 % 0x100u32,
            b == x % 0x100u32,
    ;
}

/// The linear 12-bit value that `blend_srgb` gives for an 8-bit sRGB value.
pub uninterp spec fn srgb8_to_rgb12_spec(srgb8: u8) -> u16;

/// The 8-bit sRGB value that `blend_srgb` gives for a linear value.
pub uninterp spec fn rgb12_to_srgb8_spec(rgb12: u16) -> u8;

/// Channel `k` of the packed linear pixel `argb`, ready to be blurred.
pub open spec fn linear_channel(argb: u32, k: int) -> u32 {
    be_byte(argb, k) as u32
}

/// Channel `k` of the packed sRGB pixel `argb`, ready to be blurred: alpha
/// as it is, the colours made linear.
pub open spec fn srgb_channel(argb: u32, k: int) -> u32 {
    if k == 0 {
        be_byte(argb, 0) as u32
    } else {
        srgb8_to_rgb12_spec(be_byte(argb, k)) as u32
    }
}

/// The packed linear pixel for four blurred channels: the low byte of each.
pub open spec fn linear_pixel(a: u32, r: u32, g: u32, b: u32) -> u32 {
    be_word(low_byte(a), low_byte(r), low_byte(g), low_byte(b))
}

/// The packed sRGB pixel for four blurred channels: the low byte of alpha,
/// and the sRGB value of each colour's low 16 bits.
pub open spec fn srgb_pixel(a: u32, r: u32, g: u32, b: u32) -> u32 {
    be_word(
        low_byte(a),
        rgb12_to_srgb8_spec(low_half(r)),
        rgb12_to_srgb8_spec(low_half(g)),
        rgb12_to_srgb8_spec(low_half(b)),
    )
}

/// Calls `blend_srgb::convert::srgb8_to_rgb12`, a table lookup. Believed of
/// it: the result is a function of the argument, it fits in 12 bits, and
/// `rgb12_to_srgb8` takes it back to the argument, as that crate documents.
#[verifier::external_body]
fn srgb8_to_rgb12(srgb8: u8) -> (rgb12: u16)
    ensures
        rgb12 == srgb8_to_rgb12_spec(srgb8),
        rgb12 <= 0xFFF,
        rgb12_to_srgb8_spec(rgb12) == srgb8,
{
    blend_srgb::convert::srgb8_to_rgb12(srgb8)
}

/// Calls `blend_srgb::convert::rgb12_to_srgb8`, a table lookup on the low
/// 12 bits. Believed of it: the result is a function of the argument.
#[verifier::external_body]
fn rgb12_to_srgb8(rgb12: u16) -> (srgb8: u8)
    ensures
        srgb8 == rgb12_to_srgb8_spec(rgb12),
{
    blend_srgb::convert::rgb12_to_srgb8(rgb12)
}

/// The four bytes of `argb`, most significant first.
fn to_be_bytes(argb: u32) -> (bytes: [u8; 4])
    ensures
        forall|k: int| 0 <= k < 4 ==> bytes@[k] == be_byte(argb, k),
{
    let a: u32 = argb >> 24;
    let r: u32 = (argb >> 16) & 0xff;
    let g: u32 = (argb >> 8) & 0xff;
    let b: u32 = argb & 0xff;
    assert(a == argb / 0x100_0000 && a < 0x100) by (bit_vector)
        requires
            a == argb >> 24,
    ;
    assert(r == argb / 0x1_0000 % 0x100 && r < 0x100) by (bit_vector)
        requires
            r == (argb >> 16) & 0xff,
    ;
    assert(g == argb / 0x100 % 0x100 && g < 0x100) by (bit_vector)
        requires
            g == (argb >> 8) & 0xff,
    ;
    assert(b == argb % 0x100 && b < 0x100) by (bit_vector)
        requires
            b == argb & 0xff,
    ;
    [a as u8, r as u8, g as u8, b as u8]
}

/// The number whose four bytes are `bytes`, most significant first.
fn from_be_bytes(bytes: [u8; 4]) -> (argb: u32)
    ensures
        argb == be_word(bytes@[0], bytes@[1], bytes@[2], bytes@[3]),
{
    let a: u32 = bytes[0] as u32;
    let r: u32 = bytes[1] as u32;
    let g: u32 = bytes[2] as u32;
    let b: u32 = bytes[3] as u32;
    let argb: u32 = (a << 24) | (r << 16) | (g << 8) | b;
    assert(argb == a * 0x100_0000 + r * 0x1_0000 + g * 0x100 + b) by (bit_vector)
        requires
            argb == (a << 24) | (r << 16) | (g << 8) | b,
            a < 0x100,
            r < 0x100,
            g < 0x100,
            b < 0x100,
    ;
    argb
}

/// The lowest 8 bits of `v`.
fn truncate_u8(v: u32) -> (byte: u8)
    ensures
        byte == low_byte(v),
{
    let low: u32 = v & 0xff;
    assert(low == v % 0x100 && low < 0x100) by (bit_vector)
        requires
            low == v & 0xff,
    ;
    low as u8
}

/// The lowest 16 bits of `v`.
fn truncate_u16(v: u32) -> (half: u16)
    ensures
        half == low_half(v),
{
    let low: u32 = v & 0xffff;
    assert(low == v % 0x1_0000 && low < 0x1_0000) by (bit_vector)
        requires
            low == v & 0xffff,
    ;
    low as u16
}

impl Argb<StackBlurrableU32, 4> {
    /// The channels of the packed linear pixel `argb`.
    pub open spec fn from_u32_spec(argb: u32) -> Self {
        Self::of(Seq::new(4, |k: int| StackBlurrableU32(linear_channel(argb, k))))
    }

    /// The packed linear pixel for these channels.
    pub open spec fn to_u32_spec(self) -> u32 {
        linear_pixel(self.0@[0].0, self.0@[1].0, self.0@[2].0, self.0@[3].0)
    }

    /// The channels of the packed sRGB pixel `argb`.
    pub open spec fn from_u32_srgb_spec(argb: u32) -> Self {
        Self::of(Seq::new(4, |k: int| StackBlurrableU32(srgb_channel(argb, k))))
    }

    /// The packed sRGB pixel for these channels.
    pub open spec fn to_u32_srgb_spec(self) -> u32 {
        srgb_pixel(self.0@[0].0, self.0@[1].0, self.0@[2].0, self.0@[3].0)
    }

    /// Taking a packed pixel apart into channels and packing the channels
    /// again gives the pixel back.
    pub proof fn lemma_round_trip(argb: u32)
        ensures
            Self::from_u32_spec(argb).to_u32_spec() == argb,
    {
        Self::lemma_of(Seq::new(4, |k: int| StackBlurrableU32(linear_channel(argb, k))));
        lemma_be_round_trip(argb);
    }

    /// A pixel of nothing but zero bits stands for the neutral value.
    pub proof fn lemma_zero()
        ensures
            Self::from_u32_spec(0) == Self::zero_spec(),
    {
        Self::lemma_of(Seq::new(4, |k: int| StackBlurrableU32(linear_channel(0, k))));
        Self::lemma_of(Seq::new(4, |i: int| StackBlurrableU32::zero_spec()));
        Self::lemma_ext(Self::from_u32_spec(0), Self::zero_spec());
    }

    /// Multiplying the channels of a packed pixel by `d` and dividing by
    /// `d` again gives them back, as long as `255` times `d` fits in 32
    /// bits.
    pub proof fn lemma_mul_div(argb: u32, d: nat)
        requires
            d > 0,
            255 * d <= u32::MAX,
        ensures
            Self::from_u32_spec(argb).mul_spec(d).div_spec(d) == Self::from_u32_spec(argb),
    {
        let pixel = Self::from_u32_spec(argb);
        let product = pixel.mul_spec(d);
        Self::lemma_of(Seq::new(4, |k: int| StackBlurrableU32(linear_channel(argb, k))));
        Self::lemma_of(Seq::new(4, |i: int| pixel.0@[i].mul_spec(d)));
        Self::lemma_of(Seq::new(4, |i: int| product.0@[i].div_spec(d)));
        assert forall|k: int| 0 <= k < 4 implies product.div_spec(d).0@[k] == pixel.0@[k] by {
            let c = pixel.0@[k];
            assert(c.0 <= 255);
            assert(c.0 * d <= 255 * d) by (nonlinear_arith)
                requires
                    c.0 <= 255,
                    d >= 0,
            ;
            serial::lemma_mul_div(c, d);
        }
        Self::lemma_ext(product.div_spec(d), pixel);
    }

    /// Takes a packed pixel apart: alpha, red, green and blue, one byte
    /// each from the most significant byte down, each as a channel of its own.
    pub fn from_u32(argb: u32) -> (pixel: Self)
        ensures
            pixel == Self::from_u32_spec(argb),
            forall|k: int| 0 <= k < 4 ==> pixel.0@[k] == StackBlurrableU32(linear_channel(argb, k)),
    {
        let bytes = to_be_bytes(argb);
        let pixel = Argb(
            [
                StackBlurrableU32(bytes[0] as u32),
                StackBlurrableU32(bytes[1] as u32),
                StackBlurrableU32(bytes[2] as u32),
                StackBlurrableU32(bytes[3] as u32),
            ],
        );
        proof {
            Self::lemma_of(Seq::new(4, |k: int| StackBlurrableU32(linear_channel(argb, k))));
            Self::lemma_ext(pixel, Self::from_u32_spec(argb));
        }
        pixel
    }

    /// Packs the low byte of each channel into one pixel.
    pub fn to_u32(self) -> (argb: u32)
        ensures
            argb == self.to_u32_spec(),
    {
        from_be_bytes(
            [
                truncate_u8(self.0[0].0),
                truncate_u8(self.0[1].0),
                truncate_u8(self.0[2].0),
                truncate_u8(self.0[3].0),
            ],
        )
    }

    /// Takes a packed sRGB pixel apart. Alpha is kept as it is; red, green
    /// and blue are made linear, which takes them from 8 to 12 bits.
    pub fn from_u32_srgb(argb: u32) -> (pixel: Self)
        ensures
            pixel == Self::from_u32_srgb_spec(argb),
            forall|k: int| 0 <= k < 4 ==> pixel.0@[k] == StackBlurrableU32(srgb_channel(argb, k)),
            forall|k: int| 0 <= k < 4 ==> pixel.0@[k].0 <= 0xFFF,
    {
        let bytes = to_be_bytes(argb);
        let pixel = Argb(
            [
                StackBlurrableU32(bytes[0] as u32),
                StackBlurrableU32(srgb8_to_rgb12(bytes[1]) as u32),
                StackBlurrableU32(srgb8_to_rgb12(bytes[2]) as u32),
                StackBlurrableU32(srgb8_to_rgb12(bytes[3]) as u32),
            ],
        );
        proof {
            Self::lemma_of(Seq::new(4, |k: int| StackBlurrableU32(srgb_channel(argb, k))));
            Self::lemma_ext(pixel, Self::from_u32_srgb_spec(argb));
        }
        pixel
    }

    /// Packs four channels into one sRGB pixel: the low byte of alpha, and
    /// red, green and blue taken from linear back to sRGB.
    pub fn to_u32_srgb(self) -> (argb: u32)
        ensures
            argb == self.to_u32_srgb_spec(),
    {
        from_be_bytes(
            [
                truncate_u8(self.0[0].0),
                rgb12_to_srgb8(truncate_u16(self.0[1].0)),
                rgb12_to_srgb8(truncate_u16(self.0[2].0)),
                rgb12_to_srgb8(truncate_u16(self.0[3].0)),
            ],
        )
    }
}

#[allow(non_snake_case)]
impl<const N: usize> Argb<StackBlurrableU32xN<N>, 4> {
    /// Takes `N` packed pixels apart at once: lane `i` of each of the four
    /// channels comes from pixel `i`.
    pub fn from_u32xN(pixels: [u32; N]) -> (pixel: Self)
        ensures
            forall|k: int, lane: int|
                0 <= k < 4 && 0 <= lane < N ==> #[trigger] pixel.0@[k].0@[lane] == linear_channel(
                    pixels@[lane],
                    k,
                ),
    {
        let mut a: [u32; N] = [0u32;N];
        let mut r: [u32; N] = [0u32;N];
        let mut g: [u32; N] = [0u32;N];
        let mut b: [u32; N] = [0u32;N];
        let mut lane: usize = 0;
        while lane < N
            invariant
                lane <= N,
                forall|i: int| 0 <= i < lane ==> a@[i] == linear_channel(pixels@[i], 0),
                forall|i: int| 0 <= i < lane ==> r@[i] == linear_channel(pixels@[i], 1),
                forall|i: int| 0 <= i < lane ==> g@[i] == linear_channel(pixels@[i], 2),
                forall|i: int| 0 <= i < lane ==> b@[i] == linear_channel(pixels@[i], 3),
            decreases N - lane,
        {
            let bytes = to_be_bytes(pixels[lane]);
            a[lane] = bytes[0] as u32;
            r[lane] = bytes[1] as u32;
            g[lane] = bytes[2] as u32;
            b[lane] = bytes[3] as u32;
            lane += 1;
        }
        Argb(
            [
                StackBlurrableU32xN(a),
                StackBlurrableU32xN(r),
                StackBlurrableU32xN(g),
                StackBlurrableU32xN(b),
            ],
        )
    }

    /// Packs lane `i` of the four channels into pixel `i`, for each of the
    /// `N` lanes.
    pub fn to_u32xN(self) -> (pixels: [u32; N])
        ensures
            forall|lane: int|
                0 <= lane < N ==> #[trigger] pixels@[lane] == linear_pixel(
                    self.0@[0].0@[lane],
                    self.0@[1].0@[lane],
                    self.0@[2].0@[lane],
                    self.0@[3].0@[lane],
                ),
    {
        let mut pixels: [u32; N] = [0u32;N];
        let mut lane: usize = 0;
        while lane < N
            invariant
                lane <= N,
                forall|i: int|
                    0 <= i < lane ==> #[trigger] pixels@[i] == linear_pixel(
                        self.0@[0].0@[i],
                        self.0@[1].0@[i],
                        self.0@[2].0@[i],
                        self.0@[3].0@[i],
                    ),
            decreases N - lane,
        {
            pixels[lane] = from_be_bytes(
                [
                    truncate_u8(self.0[0].0[lane]),
                    truncate_u8(self.0[1].0[lane]),
                    truncate_u8(self.0[2].0[lane]),
                    truncate_u8(self.0[3].0[lane]),
                ],
            );
            lane += 1;
        }
        pixels
    }

    /// Takes `N` packed sRGB pixels apart at once, making red, green and
    /// blue linear.
    pub fn from_u32xN_srgb(pixels: [u32; N]) -> (pixel: Self)
        ensures
            forall|k: int, lane: int|
                0 <= k < 4 && 0 <= lane < N ==> #[trigger] pixel.0@[k].0@[lane] == srgb_channel(
                    pixels@[lane],
                    k,
                ),
    {
        let mut a: [u32; N] = [0u32;N];
        let mut r: [u32; N] = [0u32;N];
        let mut g: [u32; N] = [0u32;N];
        let mut b: [u32; N] = [0u32;N];
        let mut lane: usize = 0;
        while lane < N
            invariant
                lane <= N,
                forall|i: int| 0 <= i < lane ==> a@[i] == srgb_channel(pixels@[i], 0),
                forall|i: int| 0 <= i < lane ==> r@[i] == srgb_channel(pixels@[i], 1),
                forall|i: int| 0 <= i < lane ==> g@[i] == srgb_channel(pixels@[i], 2),
                forall|i: int| 0 <= i < lane ==> b@[i] == srgb_channel(pixels@[i], 3),
            decreases N - lane,
        {
            let bytes = to_be_bytes(pixels[lane]);
            a[lane] = bytes[0] as u32;
            r[lane] = srgb8_to_rgb12(bytes[1]) as u32;
            g[lane] = srgb8_to_rgb12(bytes[2]) as u32;
            b[lane] = srgb8_to_rgb12(bytes[3]) as u32;
            lane += 1;
        }
        Argb(
            [
                StackBlurrableU32xN(a),
                StackBlurrableU32xN(r),
                StackBlurrableU32xN(g),
                StackBlurrableU32xN(b),
            ],
        )
    }

    /// Packs lane `i` of the four channels into sRGB pixel `i`, for each of
    /// the `N` lanes, taking red, green and blue from linear back to sRGB.
    pub fn to_u32xN_srgb(self) -> (pixels: [u32; N])
        ensures
            forall|lane: int|
                0 <= lane < N ==> #[trigger] pixels@[lane] == srgb_pixel(
                    self.0@[0].0@[lane],
                    self.0@[1].0@[lane],
                    self.0@[2].0@[lane],
                    self.0@[3].0@[lane],
                ),
    {
        let mut pixels: [u32; N] = [0u32;N];
        let mut lane: usize = 0;
        while lane < N
            invariant
                lane <= N,
                forall|i: int|
                    0 <= i < lane ==> #[trigger] pixels@[i] == srgb_pixel(
                        self.0@[0].0@[i],
                        self.0@[1].0@[i],
                        self.0@[2].0@[i],
                        self.0@[3].0@[i],
                    ),
            decreases N - lane,
        {
            pixels[lane] = from_be_bytes(
                [
                    truncate_u8(self.0[0].0[lane]),
                    rgb12_to_srgb8(truncate_u16(self.0[1].0[lane])),
                    rgb12_to_srgb8(truncate_u16(self.0[2].0[lane])),
                    rgb12_to_srgb8(truncate_u16(self.0[3].0[lane])),
                ],
            );
            lane += 1;
        }
        pixels
    }
}

impl<const LANES: usize, const N: usize> Argb<StackBlurrableU32xN<LANES>, N> {
    /// The pixel in lane `lane`: that lane of each channel.
    pub open spec fn lane(self, lane: int) -> Argb<StackBlurrableU32, N> {
        Argb::<StackBlurrableU32, N>::of(
            Seq::new(N as nat, |k: int| StackBlurrableU32(self.0@[k].0@[lane])),
        )
    }

    /// Taking the pixel in lane `lane`, as a function.
    pub open spec fn lane_of(lane: int) -> spec_fn(Self) -> Argb<StackBlurrableU32, N> {
        |wide: Self| wide.lane(lane)
    }

    /// Channel `k` of the pixel in lane `lane`.
    pub proof fn lemma_lane(self, lane: int)
        ensures
            forall|k: int|
                0 <= k < N ==> #[trigger] self.lane(lane).0@[k] == StackBlurrableU32(
                    self.0@[k].0@[lane],
                ),
    {
        Argb::<StackBlurrableU32, N>::lemma_of(
            Seq::new(N as nat, |k: int| StackBlurrableU32(self.0@[k].0@[lane])),
        );
    }

    /// The lanes do not mix: the arithmetic of `LANES` pixels taken
    /// together is, in each lane, the arithmetic of a single pixel.
    pub proof fn lemma_lane_preserves(lane: int)
        requires
            0 <= lane < LANES,
        ensures
            preserves(Self::lane_of(lane)),
    {
        let p = Self::lane_of(lane);
        assert(p(Self::zero_spec()) == Argb::<StackBlurrableU32, N>::zero_spec()) by {
            let z = Self::zero_spec();
            z.lemma_lane(lane);
            Self::lemma_of(Seq::new(N as nat, |i: int| StackBlurrableU32xN::<LANES>::zero_spec()));
            StackBlurrableU32xN::<LANES>::lemma_of(Seq::new(LANES as nat, |i: int| 0u32));
            Argb::<StackBlurrableU32, N>::lemma_of(
                Seq::new(N as nat, |i: int| StackBlurrableU32::zero_spec()),
            );
            Argb::<StackBlurrableU32, N>::lemma_ext(
                p(z),
                Argb::<StackBlurrableU32, N>::zero_spec(),
            );
        }
        assert forall|a: Self, b: Self| #[trigger] p(a.add_spec(b)) == p(a).add_spec(p(b)) by {
            let wide = a.add_spec(b);
            let narrow = p(a).add_spec(p(b));
            wide.lemma_lane(lane);
            a.lemma_lane(lane);
            b.lemma_lane(lane);
            Self::lemma_of(Seq::new(N as nat, |i: int| a.0@[i].add_spec(b.0@[i])));
            Argb::<StackBlurrableU32, N>::lemma_of(
                Seq::new(N as nat, |i: int| p(a).0@[i].add_spec(p(b).0@[i])),
            );
            assert forall|k: int| 0 <= k < N implies p(wide).0@[k] == narrow.0@[k] by {
                StackBlurrableU32xN::<LANES>::lemma_of(
                    Seq::new(
                        LANES as nat,
                        |i: int| a.0@[k].lane(i).add_spec(b.0@[k].lane(i)).0,
                    ),
                );
            }
            Argb::<StackBlurrableU32, N>::lemma_ext(p(wide), narrow);
        }
        assert forall|a: Self, n: nat| #[trigger] p(a.mul_spec(n)) == p(a).mul_spec(n) by {
            let wide = a.mul_spec(n);
            let narrow = p(a).mul_spec(n);
            wide.lemma_lane(lane);
            a.lemma_lane(lane);
            Self::lemma_of(Seq::new(N as nat, |i: int| a.0@[i].mul_spec(n)));
            Argb::<StackBlurrableU32, N>::lemma_of(
                Seq::new(N as nat, |i: int| p(a).0@[i].mul_spec(n)),
            );
            assert forall|k: int| 0 <= k < N implies p(wide).0@[k] == narrow.0@[k] by {
                StackBlurrableU32xN::<LANES>::lemma_of(
                    Seq::new(LANES as nat, |i: int| a.0@[k].lane(i).mul_spec(n).0),
                );
            }
            Argb::<StackBlurrableU32, N>::lemma_ext(p(wide), narrow);
        }
        assert forall|a: Self, n: nat| #[trigger] p(a.div_spec(n)) == p(a).div_spec(n) by {
            let wide = a.div_spec(n);
            let narrow = p(a).div_spec(n);
            wide.lemma_lane(lane);
            a.lemma_lane(lane);
            Self::lemma_of(Seq::new(N as nat, |i: int| a.0@[i].div_spec(n)));
            Argb::<StackBlurrableU32, N>::lemma_of(
                Seq::new(N as nat, |i: int| p(a).0@[i].div_spec(n)),
            );
            assert forall|k: int| 0 <= k < N implies p(wide).0@[k] == narrow.0@[k] by {
                StackBlurrableU32xN::<LANES>::lemma_of(
                    Seq::new(LANES as nat, |i: int| a.0@[k].lane(i).div_spec(n).0),
                );
            }
            Argb::<StackBlurrableU32, N>::lemma_ext(p(wide), narrow);
        }
    }
}

} // verus!
