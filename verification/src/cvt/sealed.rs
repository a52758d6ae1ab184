//! The traits that keep the conversion traits closed: each names the
//! blurrable value that a pixel type is converted to, and only this crate
//! can implement them.

use vstd::prelude::*;
use crate::traits::StackBlurrable;

verus! {

/// Names the blurrable value of a pixel type.
pub trait Sealed {
    type B: StackBlurrable;
}

/// Names the blurrable value of `LANES` pixels taken together.
pub trait SealedSimd<const LANES: usize> {
    type Bsimd: StackBlurrable;
}

/// Names the blurrable value of an sRGB pixel type.
pub trait SealedSrgb {
    type B: StackBlurrable;
}

/// Names the blurrable value of `LANES` sRGB pixels taken together.
pub trait SealedSrgbSimd<const LANES: usize> {
    type Bsimd: StackBlurrable;
}

} // verus!
