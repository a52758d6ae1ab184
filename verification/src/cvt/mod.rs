//! Conversions between pixels and the values that are blurred in their
//! place.

mod sealed;

use vstd::prelude::*;
use crate::color::serial::StackBlurrableU32;
use crate::color::simd::StackBlurrableU32xN;
use crate::color::Argb;
use sealed::{Sealed, SealedSimd, SealedSrgb, SealedSrgbSimd};

verus! {

/// A pixel that can be blurred as it is, channel by channel.
pub trait AsStackBlurrable: Sealed + Sized {
    /// The blurrable value that stands for this pixel.
    spec fn as_stackblurrable_spec(&self) -> <Self as Sealed>::B;

    /// The pixel that a blurred value gives.
    spec fn from_stackblurrable_spec(elem: <Self as Sealed>::B) -> Self;

    fn as_stackblurrable(&self) -> (elem: <Self as Sealed>::B)
        ensures
            elem == self.as_stackblurrable_spec(),
    ;

    fn from_stackblurrable(elem: <Self as Sealed>::B) -> (pixel: Self)
        ensures
            pixel == Self::from_stackblurrable_spec(elem),
    ;
}

/// A pixel that can be blurred `LANES` at a time.
pub trait AsStackBlurrableSimd<const LANES: usize>: SealedSimd<LANES> + AsStackBlurrable {
    /// Whether `elem` stands for the `LANES` pixels of `selves`.
    spec fn stands_for(selves: Seq<Self>, elem: <Self as SealedSimd<LANES>>::Bsimd) -> bool;

    /// The pixel that lane `lane` of a blurred value gives.
    spec fn from_lane(elem: <Self as SealedSimd<LANES>>::Bsimd, lane: int) -> Self;

    fn as_stackblurrable_simd(selves: [&Self; LANES]) -> (elem: <Self as SealedSimd<LANES>>::Bsimd)
        ensures
            Self::stands_for(Seq::new(LANES as nat, |lane: int| *selves@[lane]), elem),
    ;

    fn from_stackblurrable_simd(elems: <Self as SealedSimd<LANES>>::Bsimd) -> (pixels: [Self;
        LANES])
        ensures
            forall|lane: int|
                0 <= lane < LANES ==> #[trigger] pixels@[lane] == Self::from_lane(elems, lane),
    ;
}

/// An sRGB pixel that can be blurred in linear light.
pub trait AsStackBlurrableSrgb: SealedSrgb + Sized {
    /// The blurrable value that stands for this pixel.
    spec fn as_stackblurrable_srgb_spec(&self) -> <Self as SealedSrgb>::B;

    /// The pixel that a blurred value gives.
    spec fn from_stackblurrable_srgb_spec(elem: <Self as SealedSrgb>::B) -> Self;

    fn as_stackblurrable_srgb(&self) -> (elem: <Self as SealedSrgb>::B)
        ensures
            elem == self.as_stackblurrable_srgb_spec(),
    ;

    fn from_stackblurrable_srgb(elem: <Self as SealedSrgb>::B) -> (pixel: Self)
        ensures
            pixel == Self::from_stackblurrable_srgb_spec(elem),
    ;
}

/// An sRGB pixel that can be blurred in linear light `LANES` at a time.
pub trait AsStackBlurrableSrgbSimd<const LANES: usize>: SealedSrgbSimd<
    LANES,
> + AsStackBlurrableSrgb {
    /// Whether `elem` stands for the `LANES` pixels of `selves`.
    spec fn stands_for_srgb(selves: Seq<Self>, elem: <Self as SealedSrgbSimd<LANES>>::Bsimd) -> bool;

    /// The pixel that lane `lane` of a blurred value gives.
    spec fn from_lane_srgb(elem: <Self as SealedSrgbSimd<LANES>>::Bsimd, lane: int) -> Self;

    fn as_stackblurrable_srgb_simd(selves: [&Self; LANES]) -> (elem: <Self as SealedSrgbSimd<
        LANES,
    >>::Bsimd)
        ensures
            Self::stands_for_srgb(Seq::new(LANES as nat, |lane: int| *selves@[lane]), elem),
    ;

    fn from_stackblurrable_srgb_simd(elems: <Self as SealedSrgbSimd<LANES>>::Bsimd) -> (pixels: [
        Self;
        LANES
    ])
        ensures
            forall|lane: int|
                0 <= lane < LANES ==> #[trigger] pixels@[lane] == Self::from_lane_srgb(elems, lane),
    ;
}

impl Sealed for u32 {
    type B = Argb<StackBlurrableU32, 4>;
}

impl<const LANES: usize> SealedSimd<LANES> for u32 {
    type Bsimd = Argb<StackBlurrableU32xN<LANES>, 4>;
}

impl SealedSrgb for u32 {
    type B = Argb<StackBlurrableU32, 4>;
}

impl<const LANES: usize> SealedSrgbSimd<LANES> for u32 {
    type Bsimd = Argb<StackBlurrableU32xN<LANES>, 4>;
}

/// The `LANES` numbers that `selves` refers to.
fn copied<const LANES: usize>(selves: [&u32; LANES]) -> (pixels: [u32; LANES])
    ensures
        forall|lane: int| 0 <= lane < LANES ==> pixels@[lane] == *selves@[lane],
{
    let mut pixels: [u32; LANES] = [0u32;LANES];
    let mut lane: usize = 0;
    while lane < LANES
        invariant
            lane <= LANES,
            forall|i: int| 0 <= i < lane ==> pixels@[i] == *selves@[i],
        decreases LANES - lane,
    {
        pixels[lane] = *selves[lane];
        lane += 1;
    }
    pixels
}

impl AsStackBlurrable for u32 {
    open spec fn as_stackblurrable_spec(&self) -> Argb<StackBlurrableU32, 4> {
        Argb::<StackBlurrableU32, 4>::from_u32_spec(*self)
    }

    open spec fn from_stackblurrable_spec(elem: Argb<StackBlurrableU32, 4>) -> Self {
        elem.to_u32_spec()
    }

    fn as_stackblurrable(&self) -> (elem: Argb<StackBlurrableU32, 4>) {
        Argb::from_u32(*self)
    }

    fn from_stackblurrable(elem: Argb<StackBlurrableU32, 4>) -> (pixel: Self) {
        elem.to_u32()
    }
}

impl<const LANES: usize> AsStackBlurrableSimd<LANES> for u32 {
    open spec fn stands_for(selves: Seq<Self>, elem: Argb<StackBlurrableU32xN<LANES>, 4>) -> bool {
        forall|k: int, lane: int|
            0 <= k < 4 && 0 <= lane < LANES ==> #[trigger] elem.0@[k].0@[lane]
                == crate::color::linear_channel(selves[lane], k)
    }

    open spec fn from_lane(elem: Argb<StackBlurrableU32xN<LANES>, 4>, lane: int) -> Self {
        crate::color::linear_pixel(
            elem.0@[0].0@[lane],
            elem.0@[1].0@[lane],
            elem.0@[2].0@[lane],
            elem.0@[3].0@[lane],
        )
    }

    fn as_stackblurrable_simd(selves: [&Self; LANES]) -> (elem: Argb<
        StackBlurrableU32xN<LANES>,
        4,
    >) {
        Argb::<StackBlurrableU32xN<LANES>, 4>::from_u32xN(copied(selves))
    }

    fn from_stackblurrable_simd(elems: Argb<StackBlurrableU32xN<LANES>, 4>) -> (pixels: [Self;
        LANES]) {
        elems.to_u32xN()
    }
}

impl AsStackBlurrableSrgb for u32 {
    open spec fn as_stackblurrable_srgb_spec(&self) -> Argb<StackBlurrableU32, 4> {
        Argb::<StackBlurrableU32, 4>::from_u32_srgb_spec(*self)
    }

    open spec fn from_stackblurrable_srgb_spec(elem: Argb<StackBlurrableU32, 4>) -> Self {
        elem.to_u32_srgb_spec()
    }

    fn as_stackblurrable_srgb(&self) -> (elem: Argb<StackBlurrableU32, 4>) {
        Argb::from_u32_srgb(*self)
    }

    fn from_stackblurrable_srgb(elem: Argb<StackBlurrableU32, 4>) -> (pixel: Self) {
        elem.to_u32_srgb()
    }
}

impl<const LANES: usize> AsStackBlurrableSrgbSimd<LANES> for u32 {
    open spec fn stands_for_srgb(
        selves: Seq<Self>,
        elem: Argb<StackBlurrableU32xN<LANES>, 4>,
    ) -> bool {
        forall|k: int, lane: int|
            0 <= k < 4 && 0 <= lane < LANES ==> #[trigger] elem.0@[k].0@[lane]
                == crate::color::srgb_channel(selves[lane], k)
    }

    open spec fn from_lane_srgb(elem: Argb<StackBlurrableU32xN<LANES>, 4>, lane: int) -> Self {
        crate::color::srgb_pixel(
            elem.0@[0].0@[lane],
            elem.0@[1].0@[lane],
            elem.0@[2].0@[lane],
            elem.0@[3].0@[lane],
        )
    }

    fn as_stackblurrable_srgb_simd(selves: [&Self; LANES]) -> (elem: Argb<
        StackBlurrableU32xN<LANES>,
        4,
    >) {
        Argb::<StackBlurrableU32xN<LANES>, 4>::from_u32xN_srgb(copied(selves))
    }

    fn from_stackblurrable_srgb_simd(elems: Argb<StackBlurrableU32xN<LANES>, 4>) -> (pixels: [
        Self;
        LANES
    ]) {
        elems.to_u32xN_srgb()
    }
}

} // verus!
