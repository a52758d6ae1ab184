//! A streaming Stackblur: a triangular-kernel blur that reads its input once,
//! in order, and whose kernel is cut off at the ends of the sequence rather
//! than padded, so that nothing bleeds in from outside.
//!
//! [`traits::StackBlurrable`] is what a value must offer to be blurred,
//! [`kernel`] says what the blur of a sequence is, and [`iter::StackBlur`] is
//! the generator that computes it one element at a time.
//!
//! The functions of this module blur an [`image::Image`]: every row, then
//! every column of the result. [`blur`] takes the conversions between pixels
//! and blurrable values as closures; [`blur_argb`] and [`blur_srgb`] bring
//! their own for packed 32-bit pixels. The `simd_` functions take several
//! rows or columns at a time, as one line of wider values, and give the same
//! result.

pub mod traits;
pub mod arrays;
pub mod kernel;
pub mod iter;
pub mod image;
pub mod lanes;
mod pass;
pub mod color;
pub mod cvt;

use std::collections::VecDeque;
use vstd::prelude::*;
use crate::color::serial::StackBlurrableU32;
use crate::color::simd::StackBlurrableU32xN;
use crate::color::Argb;
use crate::cvt::{AsStackBlurrableSimd, AsStackBlurrableSrgbSimd};
use crate::image::{
    blurred_cols, blurred_image, blurred_line, blurred_rows, blurs_through, col, cols_blurred,
    image_blurred, is_blur_of, is_pixel, lemma_image_determined, lemma_pixel_index, line_index,
    row, rows_blurred, Image,
};
use crate::iter::radius_fits;
use crate::kernel::{
    divisor, least, lemma_blurred_constant, lemma_blurred_impulse, lemma_divisor_bounds, preserves,
    tent_weight,
};
use crate::lanes::{
    blur_col_groups, blur_row_groups, cols_group_blurred, lanes_index, lemma_col_group_index,
    lemma_lanes_blur_same, lemma_row_group_index, lemma_simd_image_determined,
    rows_group_blurred, simd_cols_blurred, simd_image_blurred, simd_rows_blurred,
};
use crate::pass::{blur_cols, blur_rows, lemma_col_index};
use crate::traits::StackBlurrable;

verus! {

/// Blurs every row of `buffer` in place, with `ops` to work in.
fn horiz<T, B: StackBlurrable, F: Fn(&T) -> B, G: Fn(B) -> T>(
    buffer: &mut Image<T>,
    radius: usize,
    ops: VecDeque<B>,
    to_blurrable: &F,
    to_pixel: &G,
) -> (queue: VecDeque<B>)
    requires
        old(buffer).wf(),
        radius_fits(radius),
        forall|px: T| call_requires(*to_blurrable, (&px,)),
        forall|b: B| call_requires(*to_pixel, (b,)),
    ensures
        final(buffer).width == old(buffer).width,
        final(buffer).height == old(buffer).height,
        final(buffer).stride == old(buffer).stride,
        rows_blurred::<T, B, F, G>(
            old(buffer).buf@,
            final(buffer).buf@,
            old(buffer).width as nat,
            old(buffer).height as nat,
            old(buffer).stride as nat,
            radius as nat,
            *to_blurrable,
            *to_pixel,
        ),
{
    if buffer.width == 0 || buffer.height == 0 {
        proof {
            let buf = buffer.buf@;
            let w = buffer.width as nat;
            let s = buffer.stride as nat;
            assert forall|y: int| 0 <= y < buffer.height implies is_blur_of::<T, B, F, G>(
                #[trigger] row(buf, w, s, y),
                row(buf, w, s, y),
                radius as nat,
                *to_blurrable,
                *to_pixel,
            ) by {
                assert(blurs_through(
                    row(buf, w, s, y),
                    Seq::<B>::empty(),
                    row(buf, w, s, y),
                    radius as nat,
                    *to_blurrable,
                    *to_pixel,
                ));
            }
        }
        return ops;
    }
    blur_rows(buffer, 0, radius, ops, to_blurrable, to_pixel)
}

/// Blurs every column of `buffer` in place, with `ops` to work in.
fn vert<T, B: StackBlurrable, F: Fn(&T) -> B, G: Fn(B) -> T>(
    buffer: &mut Image<T>,
    radius: usize,
    ops: VecDeque<B>,
    to_blurrable: &F,
    to_pixel: &G,
) -> (queue: VecDeque<B>)
    requires
        old(buffer).wf(),
        radius_fits(radius),
        forall|px: T| call_requires(*to_blurrable, (&px,)),
        forall|b: B| call_requires(*to_pixel, (b,)),
    ensures
        final(buffer).width == old(buffer).width,
        final(buffer).height == old(buffer).height,
        final(buffer).stride == old(buffer).stride,
        cols_blurred::<T, B, F, G>(
            old(buffer).buf@,
            final(buffer).buf@,
            old(buffer).width as nat,
            old(buffer).height as nat,
            old(buffer).stride as nat,
            radius as nat,
            *to_blurrable,
            *to_pixel,
        ),
{
    if buffer.width == 0 || buffer.height == 0 {
        proof {
            let buf = buffer.buf@;
            let h = buffer.height as nat;
            let s = buffer.stride as nat;
            assert forall|x: int| 0 <= x < buffer.width implies is_blur_of::<T, B, F, G>(
                #[trigger] col(buf, h, s, x),
                col(buf, h, s, x),
                radius as nat,
                *to_blurrable,
                *to_pixel,
            ) by {
                assert(blurs_through(
                    col(buf, h, s, x),
                    Seq::<B>::empty(),
                    col(buf, h, s, x),
                    radius as nat,
                    *to_blurrable,
                    *to_pixel,
                ));
            }
        }
        return ops;
    }
    blur_cols(buffer, 0, radius, ops, to_blurrable, to_pixel)
}

/// Blurs every row of a buffer, one element per pixel.
///
/// `to_blurrable` turns a pixel into a value that can be blurred, and
/// `to_pixel` turns a blurred value into a pixel again. Padding stays as it
/// is.
pub fn blur_horiz<T, B: StackBlurrable, F: Fn(&T) -> B, G: Fn(B) -> T>(
    buffer: &mut Image<T>,
    radius: usize,
    to_blurrable: F,
    to_pixel: G,
)
    requires
        old(buffer).wf(),
        radius_fits(radius),
        forall|px: T| call_requires(to_blurrable, (&px,)),
        forall|b: B| call_requires(to_pixel, (b,)),
    ensures
        final(buffer).width == old(buffer).width,
        final(buffer).height == old(buffer).height,
        final(buffer).stride == old(buffer).stride,
        rows_blurred::<T, B, F, G>(
            old(buffer).buf@,
            final(buffer).buf@,
            old(buffer).width as nat,
            old(buffer).height as nat,
            old(buffer).stride as nat,
            radius as nat,
            to_blurrable,
            to_pixel,
        ),
{
    let _ = horiz(buffer, radius, VecDeque::new(), &to_blurrable, &to_pixel);
}

/// Blurs every column of a buffer, one element per pixel.
///
/// `to_blurrable` turns a pixel into a value that can be blurred, and
/// `to_pixel` turns a blurred value into a pixel again. Padding stays as it
/// is.
pub fn blur_vert<T, B: StackBlurrable, F: Fn(&T) -> B, G: Fn(B) -> T>(
    buffer: &mut Image<T>,
    radius: usize,
    to_blurrable: F,
    to_pixel: G,
)
    requires
        old(buffer).wf(),
        radius_fits(radius),
        forall|px: T| call_requires(to_blurrable, (&px,)),
        forall|b: B| call_requires(to_pixel, (b,)),
    ensures
        final(buffer).width == old(buffer).width,
        final(buffer).height == old(buffer).height,
        final(buffer).stride == old(buffer).stride,
        cols_blurred::<T, B, F, G>(
            old(buffer).buf@,
            final(buffer).buf@,
            old(buffer).width as nat,
            old(buffer).height as nat,
            old(buffer).stride as nat,
            radius as nat,
            to_blurrable,
            to_pixel,
        ),
{
    let _ = vert(buffer, radius, VecDeque::new(), &to_blurrable, &to_pixel);
}

/// Blurs a buffer, one element per pixel: first every row, then every
/// column of the result.
///
/// `to_blurrable` turns a pixel into a value that can be blurred, and
/// `to_pixel` turns a blurred value into a pixel again. Padding stays as it
/// is.
pub fn blur<T, B: StackBlurrable, F: Fn(&T) -> B, G: Fn(B) -> T>(
    buffer: &mut Image<T>,
    radius: usize,
    to_blurrable: F,
    to_pixel: G,
)
    requires
        old(buffer).wf(),
        radius_fits(radius),
        forall|px: T| call_requires(to_blurrable, (&px,)),
        forall|b: B| call_requires(to_pixel, (b,)),
    ensures
        final(buffer).width == old(buffer).width,
        final(buffer).height == old(buffer).height,
        final(buffer).stride == old(buffer).stride,
        image_blurred::<T, B, F, G>(
            old(buffer).buf@,
            final(buffer).buf@,
            old(buffer).width as nat,
            old(buffer).height as nat,
            old(buffer).stride as nat,
            radius as nat,
            to_blurrable,
            to_pixel,
        ),
{
    let ops = horiz(buffer, radius, VecDeque::new(), &to_blurrable, &to_pixel);
    let ghost mid = buffer.buf@;
    let _ = vert(buffer, radius, ops, &to_blurrable, &to_pixel);
    proof {
        let w = old(buffer).width as nat;
        let h = old(buffer).height as nat;
        let s = old(buffer).stride as nat;
        let r = radius as nat;
        assert(rows_blurred::<T, B, F, G>(old(buffer).buf@, mid, w, h, s, r, to_blurrable, to_pixel));
        assert(cols_blurred::<T, B, F, G>(mid, buffer.buf@, w, h, s, r, to_blurrable, to_pixel));
    }
}

/// A buffer of packed linear pixels with the image blurred.
pub open spec fn blurred_argb(
    buf: Seq<u32>,
    width: nat,
    height: nat,
    stride: nat,
    radius: nat,
) -> Seq<u32> {
    blurred_image(
        buf,
        width,
        height,
        stride,
        radius,
        |px: u32| Argb::<StackBlurrableU32, 4>::from_u32_spec(px),
        |b: Argb<StackBlurrableU32, 4>| b.to_u32_spec(),
    )
}

/// A buffer of packed sRGB pixels with the image blurred in linear light.
pub open spec fn blurred_srgb(
    buf: Seq<u32>,
    width: nat,
    height: nat,
    stride: nat,
    radius: nat,
) -> Seq<u32> {
    blurred_image(
        buf,
        width,
        height,
        stride,
        radius,
        |px: u32| Argb::<StackBlurrableU32, 4>::from_u32_srgb_spec(px),
        |b: Argb<StackBlurrableU32, 4>| b.to_u32_srgb_spec(),
    )
}

/// A line of equal packed pixels is left as it is by the blur, as long as
/// `255` times the weight of a whole tent fits in 32 bits.
pub proof fn lemma_blurred_line_flat(line: Seq<u32>, c: u32, radius: nat)
    requires
        forall|k: int| 0 <= k < line.len() ==> line[k] == c,
        255 * ((radius + 1) * (radius + 1)) <= u32::MAX,
    ensures
        blurred_line(
            line,
            radius,
            |px: u32| Argb::<StackBlurrableU32, 4>::from_u32_spec(px),
            |b: Argb<StackBlurrableU32, 4>| b.to_u32_spec(),
        ) == line,
{
    let unpack = |px: u32| Argb::<StackBlurrableU32, 4>::from_u32_spec(px);
    let pack = |b: Argb<StackBlurrableU32, 4>| b.to_u32_spec();
    let values = line.map_values(unpack);
    let pixel = Argb::<StackBlurrableU32, 4>::from_u32_spec(c);
    let after = blurred_line(line, radius, unpack, pack);
    assert forall|k: int| 0 <= k < line.len() implies after[k] == line[k] by {
        let d = divisor(radius, line.len(), k);
        lemma_blurred_constant(values, pixel, radius, k);
        lemma_divisor_bounds(
            radius,
            least(k, radius as int) as nat,
            least(line.len() - 1 - k, radius as int) as nat,
        );
        assert(255 * d <= 255 * ((radius + 1) * (radius + 1))) by (nonlinear_arith)
            requires
                d <= (radius + 1) * (radius + 1),
        ;
        Argb::<StackBlurrableU32, 4>::lemma_mul_div(c, d);
        Argb::<StackBlurrableU32, 4>::lemma_round_trip(c);
    }
    assert(after =~= line);
}

/// A flat image stays flat: where every pixel of the image is the same
/// packed pixel, blurring leaves the buffer as it is, as long as `255` times
/// the weight of a whole tent fits in 32 bits.
pub proof fn lemma_blurred_argb_flat(
    buf: Seq<u32>,
    width: nat,
    height: nat,
    stride: nat,
    radius: nat,
    c: u32,
)
    requires
        width <= stride,
        width > 0 && height > 0 ==> (height - 1) * stride + width <= buf.len(),
        forall|p: int| 0 <= p < buf.len() && is_pixel(p, width, height, stride) ==> buf[p] == c,
        255 * ((radius + 1) * (radius + 1)) <= u32::MAX,
    ensures
        blurred_argb(buf, width, height, stride, radius) == buf,
{
    let unpack = |px: u32| Argb::<StackBlurrableU32, 4>::from_u32_spec(px);
    let pack = |b: Argb<StackBlurrableU32, 4>| b.to_u32_spec();
    let s = stride as int;
    let rows = blurred_rows(buf, width, height, stride, radius, unpack, pack);
    assert forall|p: int| 0 <= p < buf.len() implies rows[p] == buf[p] by {
        if is_pixel(p, width, height, stride) {
            let y = p / s;
            let line = row(buf, width, stride, y);
            assert forall|k: int| 0 <= k < line.len() implies line[k] == c by {
                lemma_col_index(k, y, width as int, height as int, s);
            }
            lemma_blurred_line_flat(line, c, radius);
        }
    }
    assert(rows =~= buf);
    let cols = blurred_cols(buf, width, height, stride, radius, unpack, pack);
    assert forall|p: int| 0 <= p < buf.len() implies cols[p] == buf[p] by {
        if is_pixel(p, width, height, stride) {
            let x = p % s;
            let line = col(buf, height, stride, x);
            assert forall|k: int| 0 <= k < line.len() implies line[k] == c by {
                lemma_col_index(x, k, width as int, height as int, s);
            }
            lemma_blurred_line_flat(line, c, radius);
        }
    }
    assert(cols =~= buf);
    assert(blurred_argb(buf, width, height, stride, radius) =~= buf);
}

/// What a lone packed pixel `c` leaves at a place `distance` away from it
/// whose divisor is `divisor`: its channels times the weight of the
/// distance, divided by the divisor, and packed again.
pub open spec fn tent_pixel(c: u32, radius: nat, distance: int, divisor: nat) -> u32 {
    Argb::<StackBlurrableU32, 4>::from_u32_spec(c).mul_spec(
        tent_weight(radius, distance),
    ).div_spec(divisor).to_u32_spec()
}

/// The blur of a line that is zero but for the pixel `c` at `k` has the
/// shape of the tent around `k`.
pub proof fn lemma_blurred_line_impulse(line: Seq<u32>, c: u32, radius: nat, k: int, i: int)
    requires
        0 <= k < line.len(),
        0 <= i < line.len(),
        line[k] == c,
        forall|j: int| 0 <= j < line.len() && j != k ==> line[j] == 0,
    ensures
        blurred_line(
            line,
            radius,
            |px: u32| Argb::<StackBlurrableU32, 4>::from_u32_spec(px),
            |b: Argb<StackBlurrableU32, 4>| b.to_u32_spec(),
        )[i] == tent_pixel(c, radius, k - i, divisor(radius, line.len(), i)),
{
    let unpack = |px: u32| Argb::<StackBlurrableU32, 4>::from_u32_spec(px);
    let values = line.map_values(unpack);
    Argb::<StackBlurrableU32, 4>::lemma_zero();
    lemma_blurred_impulse(values, radius, k, i);
}

/// A lone pixel spreads as the product of two tents: where the image is
/// zero but for the pixel `c` at column `x0` of row `y0`, the blur leaves at
/// column `x` of row `y` what the tent along the row leaves at `x`, spread
/// again by the tent along the column. This holds as long as `255` times the
/// weight of a whole tent fits in 32 bits.
pub proof fn lemma_blurred_argb_impulse(
    buf: Seq<u32>,
    width: nat,
    height: nat,
    stride: nat,
    radius: nat,
    x0: int,
    y0: int,
    c: u32,
    x: int,
    y: int,
)
    requires
        width <= stride,
        (height - 1) * stride + width <= buf.len(),
        0 <= x0 < width,
        0 <= y0 < height,
        0 <= x < width,
        0 <= y < height,
        buf[y0 * stride + x0] == c,
        forall|p: int|
            0 <= p < buf.len() && is_pixel(p, width, height, stride) && p != y0 * stride + x0
                ==> buf[p] == 0,
        255 * ((radius + 1) * (radius + 1)) <= u32::MAX,
    ensures
        blurred_argb(buf, width, height, stride, radius)[y * stride + x] == tent_pixel(
            tent_pixel(c, radius, x0 - x, divisor(radius, width, x)),
            radius,
            y0 - y,
            divisor(radius, height, y),
        ),
{
    let unpack = |px: u32| Argb::<StackBlurrableU32, 4>::from_u32_spec(px);
    let pack = |b: Argb<StackBlurrableU32, 4>| b.to_u32_spec();
    let s = stride as int;
    let rows = blurred_rows(buf, width, height, stride, radius, unpack, pack);
    // after the rows: the tent along row `y0`, zero elsewhere
    assert forall|u: int, v: int| 0 <= u < width && 0 <= v < height implies rows[#[trigger] line_index(
        u,
        s,
        v,
    )] == if v == y0 {
        tent_pixel(c, radius, x0 - u, divisor(radius, width, u))
    } else {
        0
    } by {
        lemma_col_index(u, v, width as int, height as int, s);
        let line = row(buf, width, stride, v);
        assert forall|j: int| 0 <= j < line.len() implies line[j] == if v == y0 && j == x0 {
            c
        } else {
            0
        } by {
            lemma_col_index(j, v, width as int, height as int, s);
            lemma_col_index(x0, y0, width as int, height as int, s);
        }
        if v == y0 {
            lemma_blurred_line_impulse(line, c, radius, x0, u);
        } else {
            lemma_blurred_line_flat(line, 0, radius);
        }
    }
    lemma_col_index(x, y, width as int, height as int, s);
    let line = col(rows, height, stride, x);
    let top = tent_pixel(c, radius, x0 - x, divisor(radius, width, x));
    assert forall|j: int| 0 <= j < line.len() implies line[j] == if j == y0 {
        top
    } else {
        0
    } by {
        assert(line[j] == rows[line_index(x, s, j)]);
    }
    lemma_blurred_line_impulse(line, top, radius, y0, y);
    assert(y * stride + x == line_index(x, s, y));
}

/// Blurs a buffer of 32-bit packed ARGB pixels (0xAARRGGBB).
///
/// The channels are blurred as they are, as linear values. The sums wrap
/// around at 32 bits, so a channel is exact as long as `255` times
/// `(radius + 1)` squared fits.
pub fn blur_argb(buffer: &mut Image<u32>, radius: usize)
    requires
        old(buffer).wf(),
        radius_fits(radius),
    ensures
        final(buffer).width == old(buffer).width,
        final(buffer).height == old(buffer).height,
        final(buffer).stride == old(buffer).stride,
        final(buffer).buf@ == blurred_argb(
            old(buffer).buf@,
            old(buffer).width as nat,
            old(buffer).height as nat,
            old(buffer).stride as nat,
            radius as nat,
        ),
{
    let to_blurrable = |px: &u32| -> (b: Argb<StackBlurrableU32, 4>)
        ensures
            b == Argb::<StackBlurrableU32, 4>::from_u32_spec(*px),
        { Argb::from_u32(*px) };
    let to_pixel = |b: Argb<StackBlurrableU32, 4>| -> (px: u32)
        ensures
            px == b.to_u32_spec(),
        { b.to_u32() };
    let ghost f = to_blurrable;
    let ghost g = to_pixel;
    blur(buffer, radius, to_blurrable, to_pixel);
    proof {
        let before = old(buffer).buf@;
        let w = old(buffer).width as nat;
        let h = old(buffer).height as nat;
        let s = old(buffer).stride as nat;
        let unpack = |px: u32| Argb::<StackBlurrableU32, 4>::from_u32_spec(px);
        let pack = |b: Argb<StackBlurrableU32, 4>| b.to_u32_spec();
        lemma_image_determined(before, buffer.buf@, w, h, s, radius as nat, f, g, unpack, pack);
        assert(blurred_argb(before, w, h, s, radius as nat) =~= blurred_image(
            before,
            w,
            h,
            s,
            radius as nat,
            unpack,
            pack,
        ));
    }
}

/// Blurs a buffer of 32-bit packed sRGB pixels (0xAARRGGBB).
///
/// Red, green and blue are made linear before they are blurred, which
/// takes them to 12 bits, and are taken back to sRGB afterwards. The sums
/// wrap around at 32 bits, so a channel is exact as long as `4095` times
/// `(radius + 1)` squared fits.
pub fn blur_srgb(buffer: &mut Image<u32>, radius: usize)
    requires
        old(buffer).wf(),
        radius_fits(radius),
    ensures
        final(buffer).width == old(buffer).width,
        final(buffer).height == old(buffer).height,
        final(buffer).stride == old(buffer).stride,
        final(buffer).buf@ == blurred_srgb(
            old(buffer).buf@,
            old(buffer).width as nat,
            old(buffer).height as nat,
            old(buffer).stride as nat,
            radius as nat,
        ),
{
    let to_blurrable = |px: &u32| -> (b: Argb<StackBlurrableU32, 4>)
        ensures
            b == Argb::<StackBlurrableU32, 4>::from_u32_srgb_spec(*px),
        { Argb::from_u32_srgb(*px) };
    let to_pixel = |b: Argb<StackBlurrableU32, 4>| -> (px: u32)
        ensures
            px == b.to_u32_srgb_spec(),
        { b.to_u32_srgb() };
    let ghost f = to_blurrable;
    let ghost g = to_pixel;
    blur(buffer, radius, to_blurrable, to_pixel);
    proof {
        let before = old(buffer).buf@;
        let w = old(buffer).width as nat;
        let h = old(buffer).height as nat;
        let s = old(buffer).stride as nat;
        let unpack = |px: u32| Argb::<StackBlurrableU32, 4>::from_u32_srgb_spec(px);
        let pack = |b: Argb<StackBlurrableU32, 4>| b.to_u32_srgb_spec();
        lemma_image_determined(before, buffer.buf@, w, h, s, radius as nat, f, g, unpack, pack);
        assert(blurred_srgb(before, w, h, s, radius as nat) =~= blurred_image(
            before,
            w,
            h,
            s,
            radius as nat,
            unpack,
            pack,
        ));
    }
}

/// Blurs every row of `buffer` in place, `LANES` rows at a time as far as
/// whole groups go, with `ops_simd` and `ops_single` to work in.
fn simd_horiz<
    T: Copy,
    Bsimd: StackBlurrable,
    Bsingle: StackBlurrable,
    Fs: Fn([&T; LANES]) -> Bsimd,
    Gs: Fn(Bsimd) -> [T; LANES],
    F: Fn(&T) -> Bsingle,
    G: Fn(Bsingle) -> T,
    const LANES: usize,
>(
    buffer: &mut Image<T>,
    radius: usize,
    ops_simd: VecDeque<Bsimd>,
    ops_single: VecDeque<Bsingle>,
    fs: &Fs,
    gs: &Gs,
    f: &F,
    g: &G,
) -> (queues: (VecDeque<Bsimd>, VecDeque<Bsingle>))
    requires
        LANES > 0,
        old(buffer).wf(),
        radius_fits(radius),
        forall|refs: [&T; LANES]| call_requires(*fs, (refs,)),
        forall|b: Bsimd| call_requires(*gs, (b,)),
        forall|px: T| call_requires(*f, (&px,)),
        forall|b: Bsingle| call_requires(*g, (b,)),
    ensures
        final(buffer).width == old(buffer).width,
        final(buffer).height == old(buffer).height,
        final(buffer).stride == old(buffer).stride,
        simd_rows_blurred::<T, Bsimd, Bsingle, Fs, Gs, F, G, LANES>(
            old(buffer).buf@,
            final(buffer).buf@,
            old(buffer).width as nat,
            old(buffer).height as nat,
            old(buffer).stride as nat,
            radius as nat,
            *fs,
            *gs,
            *f,
            *g,
        ),
{
    let width: usize = buffer.width;
    let height: usize = buffer.height;
    let ghost before = buffer.buf@;
    let ghost w = buffer.width as nat;
    let ghost h = buffer.height as nat;
    let ghost s = buffer.stride as nat;
    let ghost r = radius as nat;
    let ghost n = LANES as int;
    let ghost to_blurrable_simd = *fs;
    let ghost to_pixel_simd = *gs;
    let ghost to_blurrable_single = *f;
    let ghost to_pixel_single = *g;
    proof {
        vstd::arithmetic::div_mod::lemma_fundamental_div_mod(height as int, n);
        vstd::arithmetic::div_mod::lemma_mod_bound(height as int, n);
        assert(height / LANES * n == n * (height / LANES)) by (nonlinear_arith);
    }
    if width == 0 || height == 0 {
        proof {
            assert forall|group: int|
                0 <= group < h / (LANES as nat) implies
                #[trigger] rows_group_blurred::<
                T,
                Bsimd,
                Fs,
                Gs,
                LANES,
            >(before, before, w, s, r, to_blurrable_simd, to_pixel_simd, group) by {
                assert(crate::lanes::lanes_blur_through::<T, Bsimd, Fs, Gs, LANES>(
                    before,
                    Seq::<Bsimd>::empty(),
                    before,
                    group * LANES * s,
                    s as int,
                    1,
                    w,
                    r,
                    to_blurrable_simd,
                    to_pixel_simd,
                ));
            }
            assert forall|y: int| h / (LANES as nat) * LANES <= y < h implies is_blur_of::<
                T,
                Bsingle,
                F,
                G,
            >(
                #[trigger] row(before, w, s, y),
                row(before, w, s, y),
                r,
                to_blurrable_single,
                to_pixel_single,
            ) by {
                assert(blurs_through(
                    row(before, w, s, y),
                    Seq::<Bsingle>::empty(),
                    row(before, w, s, y),
                    r,
                    to_blurrable_single,
                    to_pixel_single,
                ));
            }
        }
        return (ops_simd, ops_single);
    }
    let ops_simd = blur_row_groups::<T, Bsimd, Fs, Gs, LANES>(
        buffer,
        radius,
        ops_simd,
        fs,
        gs,
    );
    let ghost grouped = buffer.buf@;
    let ops_single = blur_rows(
        buffer,
        height / LANES * LANES,
        radius,
        ops_single,
        f,
        g,
    );
    let ghost mid = buffer.buf@;
    proof {
        let first = height / LANES * n;
        assert forall|group: int|
            0 <= group < h / (LANES as nat) implies
            #[trigger] rows_group_blurred::<
            T,
            Bsimd,
            Fs,
            Gs,
            LANES,
        >(before, mid, w, s, r, to_blurrable_simd, to_pixel_simd, group) by {
            assert(rows_group_blurred::<T, Bsimd, Fs, Gs, LANES>(
                before,
                grouped,
                w,
                s,
                r,
                to_blurrable_simd,
                to_pixel_simd,
                group,
            ));
            assert forall|lane: int, k: int|
                0 <= lane < n && 0 <= k < w implies
                grouped[#[trigger] lanes_index(
                group * n * s,
                s as int,
                1,
                lane,
                k,
            )] == mid[lanes_index(group * n * s, s as int, 1, lane, k)] by {
                assert((group + 1) * n <= first) by (nonlinear_arith)
                    requires
                        group + 1 <= height / LANES,
                        first == height / LANES * n,
                        0 <= n,
                ;
                assert((group + 1) * n == group * n + n) by (nonlinear_arith);
                lemma_row_group_index(group, lane, k, n, w as int, h as int, s as int);
                let y = group * n + lane;
                assert(y * s + s <= first * s) by (nonlinear_arith)
                    requires
                        y + 1 <= first,
                        0 <= s,
                ;
            }
            lemma_lanes_blur_same::<T, Bsimd, Fs, Gs, LANES>(
                before,
                grouped,
                before,
                mid,
                group * n * s,
                s as int,
                1,
                w,
                r,
                to_blurrable_simd,
                to_pixel_simd,
            );
        }
        assert forall|y: int| first <= y < h implies is_blur_of::<T, Bsingle, F, G>(
            #[trigger] row(before, w, s, y),
            row(mid, w, s, y),
            r,
            to_blurrable_single,
            to_pixel_single,
        ) by {
            assert forall|k: int| 0 <= k < w implies grouped[#[trigger] line_index(y * s, 1, k)]
                == before[line_index(y * s, 1, k)] by {
                lemma_pixel_index(k, y, s as int);
                assert(first * s <= y * s <= (h - 1) * s) by (nonlinear_arith)
                    requires
                        first <= y <= h - 1,
                        0 <= s,
                ;
            }
            assert(row(grouped, w, s, y) =~= row(before, w, s, y));
        }
        assert(simd_rows_blurred::<T, Bsimd, Bsingle, Fs, Gs, F, G, LANES>(
            before,
            mid,
            w,
            h,
            s,
            r,
            to_blurrable_simd,
            to_pixel_simd,
            to_blurrable_single,
            to_pixel_single,
        ));
    }

    (ops_simd, ops_single)
}

/// Blurs every column of `buffer` in place, `LANES` columns at a time as
/// far as whole groups go, with `ops_simd` and `ops_single` to work in.
fn simd_vert<
    T: Copy,
    Bsimd: StackBlurrable,
    Bsingle: StackBlurrable,
    Fs: Fn([&T; LANES]) -> Bsimd,
    Gs: Fn(Bsimd) -> [T; LANES],
    F: Fn(&T) -> Bsingle,
    G: Fn(Bsingle) -> T,
    const LANES: usize,
>(
    buffer: &mut Image<T>,
    radius: usize,
    ops_simd: VecDeque<Bsimd>,
    ops_single: VecDeque<Bsingle>,
    fs: &Fs,
    gs: &Gs,
    f: &F,
    g: &G,
) -> (queues: (VecDeque<Bsimd>, VecDeque<Bsingle>))
    requires
        LANES > 0,
        old(buffer).wf(),
        radius_fits(radius),
        forall|refs: [&T; LANES]| call_requires(*fs, (refs,)),
        forall|b: Bsimd| call_requires(*gs, (b,)),
        forall|px: T| call_requires(*f, (&px,)),
        forall|b: Bsingle| call_requires(*g, (b,)),
    ensures
        final(buffer).width == old(buffer).width,
        final(buffer).height == old(buffer).height,
        final(buffer).stride == old(buffer).stride,
        simd_cols_blurred::<T, Bsimd, Bsingle, Fs, Gs, F, G, LANES>(
            old(buffer).buf@,
            final(buffer).buf@,
            old(buffer).width as nat,
            old(buffer).height as nat,
            old(buffer).stride as nat,
            radius as nat,
            *fs,
            *gs,
            *f,
            *g,
        ),
{
    let width: usize = buffer.width;
    let height: usize = buffer.height;
    let ghost mid = buffer.buf@;
    let ghost w = buffer.width as nat;
    let ghost h = buffer.height as nat;
    let ghost s = buffer.stride as nat;
    let ghost r = radius as nat;
    let ghost n = LANES as int;
    let ghost to_blurrable_simd = *fs;
    let ghost to_pixel_simd = *gs;
    let ghost to_blurrable_single = *f;
    let ghost to_pixel_single = *g;
    proof {
        vstd::arithmetic::div_mod::lemma_fundamental_div_mod(width as int, n);
        vstd::arithmetic::div_mod::lemma_mod_bound(width as int, n);
        assert(width / LANES * n == n * (width / LANES)) by (nonlinear_arith);
    }
    if width == 0 || height == 0 {
        proof {
            assert forall|group: int|
                0 <= group < w / (LANES as nat) implies
                #[trigger] cols_group_blurred::<
                T,
                Bsimd,
                Fs,
                Gs,
                LANES,
            >(mid, mid, h, s, r, to_blurrable_simd, to_pixel_simd, group) by {
                assert(crate::lanes::lanes_blur_through::<T, Bsimd, Fs, Gs, LANES>(
                    mid,
                    Seq::<Bsimd>::empty(),
                    mid,
                    group * LANES,
                    1,
                    s as int,
                    h,
                    r,
                    to_blurrable_simd,
                    to_pixel_simd,
                ));
            }
            assert forall|x: int| w / (LANES as nat) * LANES <= x < w implies is_blur_of::<
                T,
                Bsingle,
                F,
                G,
            >(
                #[trigger] col(mid, h, s, x),
                col(mid, h, s, x),
                r,
                to_blurrable_single,
                to_pixel_single,
            ) by {
                assert(blurs_through(
                    col(mid, h, s, x),
                    Seq::<Bsingle>::empty(),
                    col(mid, h, s, x),
                    r,
                    to_blurrable_single,
                    to_pixel_single,
                ));
            }
        }
        return (ops_simd, ops_single);
    }
    let ops_simd = blur_col_groups::<T, Bsimd, Fs, Gs, LANES>(
        buffer,
        radius,
        ops_simd,
        fs,
        gs,
    );
    let ghost grouped = buffer.buf@;
    let ops_single = blur_cols(
        buffer,
        width / LANES * LANES,
        radius,
        ops_single,
        f,
        g,
    );
    proof {
        let after = buffer.buf@;
        let first = width / LANES * n;
        assert forall|group: int|
            0 <= group < w / (LANES as nat) implies
            #[trigger] cols_group_blurred::<
            T,
            Bsimd,
            Fs,
            Gs,
            LANES,
        >(mid, after, h, s, r, to_blurrable_simd, to_pixel_simd, group) by {
            assert(cols_group_blurred::<T, Bsimd, Fs, Gs, LANES>(
                mid,
                grouped,
                h,
                s,
                r,
                to_blurrable_simd,
                to_pixel_simd,
                group,
            ));
            assert forall|lane: int, k: int|
                0 <= lane < n && 0 <= k < h implies
                grouped[#[trigger] lanes_index(
                group * n,
                1,
                s as int,
                lane,
                k,
            )] == after[lanes_index(group * n, 1, s as int, lane, k)] by {
                assert((group + 1) * n <= first) by (nonlinear_arith)
                    requires
                        group + 1 <= width / LANES,
                        first == width / LANES * n,
                        0 <= n,
                ;
                assert((group + 1) * n == group * n + n) by (nonlinear_arith);
                lemma_col_group_index(group, lane, k, n, w as int, h as int, s as int);
            }
            lemma_lanes_blur_same::<T, Bsimd, Fs, Gs, LANES>(
                mid,
                grouped,
                mid,
                after,
                group * n,
                1,
                s as int,
                h,
                r,
                to_blurrable_simd,
                to_pixel_simd,
            );
        }
        assert forall|x: int| first <= x < w implies is_blur_of::<T, Bsingle, F, G>(
            #[trigger] col(mid, h, s, x),
            col(after, h, s, x),
            r,
            to_blurrable_single,
            to_pixel_single,
        ) by {
            assert forall|k: int| 0 <= k < h implies grouped[#[trigger] line_index(x, s as int, k)]
                == mid[line_index(x, s as int, k)] by {
                lemma_col_index(x, k, w as int, h as int, s as int);
            }
            assert(col(grouped, h, s, x) =~= col(mid, h, s, x));
        }
        assert(simd_cols_blurred::<T, Bsimd, Bsingle, Fs, Gs, F, G, LANES>(
            mid,
            after,
            w,
            h,
            s,
            r,
            to_blurrable_simd,
            to_pixel_simd,
            to_blurrable_single,
            to_pixel_single,
        ));
    }
    (ops_simd, ops_single)
}

/// Blurs every row of a buffer, one element per pixel, `LANES` rows at a
/// time.
///
/// The rows are taken in groups of `LANES` from the top as far as whole
/// groups go: `to_blurrable_simd` turns the `LANES` pixels that lie above
/// each other into one value, the line of those values is blurred, and
/// `to_pixel_simd` turns each blurred value into `LANES` pixels again. The
/// rows that are left over are blurred one by one with
/// `to_blurrable_single` and `to_pixel_single`. Padding stays as it is.
pub fn simd_blur_horiz<
    T: Copy,
    Bsimd: StackBlurrable,
    Bsingle: StackBlurrable,
    Fs: Fn([&T; LANES]) -> Bsimd,
    Gs: Fn(Bsimd) -> [T; LANES],
    F: Fn(&T) -> Bsingle,
    G: Fn(Bsingle) -> T,
    const LANES: usize,
>(
    buffer: &mut Image<T>,
    radius: usize,
    to_blurrable_simd: Fs,
    to_pixel_simd: Gs,
    to_blurrable_single: F,
    to_pixel_single: G,
)
    requires
        LANES > 0,
        old(buffer).wf(),
        radius_fits(radius),
        forall|refs: [&T; LANES]| call_requires(to_blurrable_simd, (refs,)),
        forall|b: Bsimd| call_requires(to_pixel_simd, (b,)),
        forall|px: T| call_requires(to_blurrable_single, (&px,)),
        forall|b: Bsingle| call_requires(to_pixel_single, (b,)),
    ensures
        final(buffer).width == old(buffer).width,
        final(buffer).height == old(buffer).height,
        final(buffer).stride == old(buffer).stride,
        simd_rows_blurred::<T, Bsimd, Bsingle, Fs, Gs, F, G, LANES>(
            old(buffer).buf@,
            final(buffer).buf@,
            old(buffer).width as nat,
            old(buffer).height as nat,
            old(buffer).stride as nat,
            radius as nat,
            to_blurrable_simd,
            to_pixel_simd,
            to_blurrable_single,
            to_pixel_single,
        ),
{
    let _ = simd_horiz::<T, Bsimd, Bsingle, Fs, Gs, F, G, LANES>(
        buffer,
        radius,
        VecDeque::new(),
        VecDeque::new(),
        &to_blurrable_simd,
        &to_pixel_simd,
        &to_blurrable_single,
        &to_pixel_single,
    );
}

/// Blurs every column of a buffer, one element per pixel, `LANES` columns
/// at a time.
///
/// The columns are taken in groups of `LANES` from the left as far as whole
/// groups go, and the columns that are left over one by one, as
/// [`simd_blur_horiz`] takes the rows. Padding stays as it is.
pub fn simd_blur_vert<
    T: Copy,
    Bsimd: StackBlurrable,
    Bsingle: StackBlurrable,
    Fs: Fn([&T; LANES]) -> Bsimd,
    Gs: Fn(Bsimd) -> [T; LANES],
    F: Fn(&T) -> Bsingle,
    G: Fn(Bsingle) -> T,
    const LANES: usize,
>(
    buffer: &mut Image<T>,
    radius: usize,
    to_blurrable_simd: Fs,
    to_pixel_simd: Gs,
    to_blurrable_single: F,
    to_pixel_single: G,
)
    requires
        LANES > 0,
        old(buffer).wf(),
        radius_fits(radius),
        forall|refs: [&T; LANES]| call_requires(to_blurrable_simd, (refs,)),
        forall|b: Bsimd| call_requires(to_pixel_simd, (b,)),
        forall|px: T| call_requires(to_blurrable_single, (&px,)),
        forall|b: Bsingle| call_requires(to_pixel_single, (b,)),
    ensures
        final(buffer).width == old(buffer).width,
        final(buffer).height == old(buffer).height,
        final(buffer).stride == old(buffer).stride,
        simd_cols_blurred::<T, Bsimd, Bsingle, Fs, Gs, F, G, LANES>(
            old(buffer).buf@,
            final(buffer).buf@,
            old(buffer).width as nat,
            old(buffer).height as nat,
            old(buffer).stride as nat,
            radius as nat,
            to_blurrable_simd,
            to_pixel_simd,
            to_blurrable_single,
            to_pixel_single,
        ),
{
    let _ = simd_vert::<T, Bsimd, Bsingle, Fs, Gs, F, G, LANES>(
        buffer,
        radius,
        VecDeque::new(),
        VecDeque::new(),
        &to_blurrable_simd,
        &to_pixel_simd,
        &to_blurrable_single,
        &to_pixel_single,
    );
}

/// Blurs a buffer, one element per pixel, taking `LANES` rows and then
/// `LANES` columns at a time: [`simd_blur_horiz`], then [`simd_blur_vert`]
/// on the result.
pub fn simd_blur<
    T: Copy,
    Bsimd: StackBlurrable,
    Bsingle: StackBlurrable,
    Fs: Fn([&T; LANES]) -> Bsimd,
    Gs: Fn(Bsimd) -> [T; LANES],
    F: Fn(&T) -> Bsingle,
    G: Fn(Bsingle) -> T,
    const LANES: usize,
>(
    buffer: &mut Image<T>,
    radius: usize,
    to_blurrable_simd: Fs,
    to_pixel_simd: Gs,
    to_blurrable_single: F,
    to_pixel_single: G,
)
    requires
        LANES > 0,
        old(buffer).wf(),
        radius_fits(radius),
        forall|refs: [&T; LANES]| call_requires(to_blurrable_simd, (refs,)),
        forall|b: Bsimd| call_requires(to_pixel_simd, (b,)),
        forall|px: T| call_requires(to_blurrable_single, (&px,)),
        forall|b: Bsingle| call_requires(to_pixel_single, (b,)),
    ensures
        final(buffer).width == old(buffer).width,
        final(buffer).height == old(buffer).height,
        final(buffer).stride == old(buffer).stride,
        simd_image_blurred::<T, Bsimd, Bsingle, Fs, Gs, F, G, LANES>(
            old(buffer).buf@,
            final(buffer).buf@,
            old(buffer).width as nat,
            old(buffer).height as nat,
            old(buffer).stride as nat,
            radius as nat,
            to_blurrable_simd,
            to_pixel_simd,
            to_blurrable_single,
            to_pixel_single,
        ),
{
    let (ops_simd, ops_single) = simd_horiz::<T, Bsimd, Bsingle, Fs, Gs, F, G, LANES>(
        buffer,
        radius,
        VecDeque::new(),
        VecDeque::new(),
        &to_blurrable_simd,
        &to_pixel_simd,
        &to_blurrable_single,
        &to_pixel_single,
    );
    let ghost mid = buffer.buf@;
    let _ = simd_vert::<T, Bsimd, Bsingle, Fs, Gs, F, G, LANES>(
        buffer,
        radius,
        ops_simd,
        ops_single,
        &to_blurrable_simd,
        &to_pixel_simd,
        &to_blurrable_single,
        &to_pixel_single,
    );
    proof {
        let w = old(buffer).width as nat;
        let h = old(buffer).height as nat;
        let s = old(buffer).stride as nat;
        let r = radius as nat;
        assert(simd_rows_blurred::<T, Bsimd, Bsingle, Fs, Gs, F, G, LANES>(
            old(buffer).buf@,
            mid,
            w,
            h,
            s,
            r,
            to_blurrable_simd,
            to_pixel_simd,
            to_blurrable_single,
            to_pixel_single,
        ));
        assert(simd_cols_blurred::<T, Bsimd, Bsingle, Fs, Gs, F, G, LANES>(
            mid,
            buffer.buf@,
            w,
            h,
            s,
            r,
            to_blurrable_simd,
            to_pixel_simd,
            to_blurrable_single,
            to_pixel_single,
        ));
    }
}

/// Blurs a buffer of 32-bit packed ARGB pixels (0xAARRGGBB), `LANES` rows
/// and then `LANES` columns at a time.
///
/// The result is that of [`blur_argb`]: the lanes do not mix.
pub fn simd_blur_argb<const LANES: usize>(buffer: &mut Image<u32>, radius: usize)
    requires
        LANES > 0,
        old(buffer).wf(),
        radius_fits(radius),
    ensures
        final(buffer).width == old(buffer).width,
        final(buffer).height == old(buffer).height,
        final(buffer).stride == old(buffer).stride,
        final(buffer).buf@ == blurred_argb(
            old(buffer).buf@,
            old(buffer).width as nat,
            old(buffer).height as nat,
            old(buffer).stride as nat,
            radius as nat,
        ),
{
    let to_blurrable_simd = |px: [&u32; LANES]| -> (b: Argb<StackBlurrableU32xN<LANES>, 4>)
        ensures
            forall|lane: int|
                0 <= lane < LANES ==> #[trigger] b.lane(lane) == Argb::<
                    StackBlurrableU32,
                    4,
                >::from_u32_spec(*px@[lane]),
        {
            let b = <u32 as AsStackBlurrableSimd<LANES>>::as_stackblurrable_simd(px);
            proof {
                assert forall|lane: int|
                    0 <= lane < LANES implies
                    #[trigger] b.lane(lane) == Argb::<
                    StackBlurrableU32,
                    4,
                >::from_u32_spec(*px@[lane]) by {
                    let want = Argb::<StackBlurrableU32, 4>::from_u32_spec(*px@[lane]);
                    b.lemma_lane(lane);
                    Argb::<StackBlurrableU32, 4>::lemma_of(
                        Seq::new(
                            4,
                            |k: int| StackBlurrableU32(crate::color::linear_channel(*px@[lane], k)),
                        ),
                    );
                    assert forall|k: int| 0 <= k < 4 implies b.lane(lane).0@[k] == want.0@[k] by {
                        assert(b.0@[k].0@[lane] == crate::color::linear_channel(*px@[lane], k));
                    }
                    Argb::<StackBlurrableU32, 4>::lemma_ext(b.lane(lane), want);
                }
            }
            b
        };
    let to_pixel_simd = |b: Argb<StackBlurrableU32xN<LANES>, 4>| -> (px: [u32; LANES])
        ensures
            forall|lane: int|
                0 <= lane < LANES ==> #[trigger] px@[lane] == b.lane(lane).to_u32_spec(),
        {
            let px = <u32 as AsStackBlurrableSimd<LANES>>::from_stackblurrable_simd(b);
            proof {
                assert forall|lane: int| 0 <= lane < LANES implies #[trigger] px@[lane] == b.lane(
                    lane,
                ).to_u32_spec() by {
                    b.lemma_lane(lane);
                }
            }
            px
        };
    let to_blurrable = |px: &u32| -> (b: Argb<StackBlurrableU32, 4>)
        ensures
            b == Argb::<StackBlurrableU32, 4>::from_u32_spec(*px),
        { Argb::from_u32(*px) };
    let to_pixel = |b: Argb<StackBlurrableU32, 4>| -> (px: u32)
        ensures
            px == b.to_u32_spec(),
        { b.to_u32() };
    let ghost fs = to_blurrable_simd;
    let ghost gs = to_pixel_simd;
    let ghost f = to_blurrable;
    let ghost g = to_pixel;
    simd_blur::<u32, _, _, _, _, _, _, LANES>(
        buffer,
        radius,
        to_blurrable_simd,
        to_pixel_simd,
        to_blurrable,
        to_pixel,
    );
    proof {
        let before = old(buffer).buf@;
        let w = old(buffer).width as nat;
        let h = old(buffer).height as nat;
        let s = old(buffer).stride as nat;
        let unpack = |px: u32| Argb::<StackBlurrableU32, 4>::from_u32_spec(px);
        let pack = |b: Argb<StackBlurrableU32, 4>| b.to_u32_spec();
        let lane_of = |lane: int| Argb::<StackBlurrableU32xN<LANES>, 4>::lane_of(lane);
        assert forall|lane: int| 0 <= lane < LANES implies preserves(#[trigger] lane_of(lane)) by {
            Argb::<StackBlurrableU32xN<LANES>, 4>::lemma_lane_preserves(lane);
        }
        lemma_simd_image_determined::<u32, _, _, _, _, _, _, LANES>(
            before,
            buffer.buf@,
            w,
            h,
            s,
            radius as nat,
            fs,
            gs,
            f,
            g,
            unpack,
            pack,
            lane_of,
        );
        assert(blurred_argb(before, w, h, s, radius as nat) =~= blurred_image(
            before,
            w,
            h,
            s,
            radius as nat,
            unpack,
            pack,
        ));
    }
}

/// Blurs a buffer of 32-bit packed sRGB pixels (0xAARRGGBB), `LANES` rows
/// and then `LANES` columns at a time.
///
/// The result is that of [`blur_srgb`]: the lanes do not mix.
pub fn simd_blur_srgb<const LANES: usize>(buffer: &mut Image<u32>, radius: usize)
    requires
        LANES > 0,
        old(buffer).wf(),
        radius_fits(radius),
    ensures
        final(buffer).width == old(buffer).width,
        final(buffer).height == old(buffer).height,
        final(buffer).stride == old(buffer).stride,
        final(buffer).buf@ == blurred_srgb(
            old(buffer).buf@,
            old(buffer).width as nat,
            old(buffer).height as nat,
            old(buffer).stride as nat,
            radius as nat,
        ),
{
    let to_blurrable_simd = |px: [&u32; LANES]| -> (b: Argb<StackBlurrableU32xN<LANES>, 4>)
        ensures
            forall|lane: int|
                0 <= lane < LANES ==> #[trigger] b.lane(lane) == Argb::<
                    StackBlurrableU32,
                    4,
                >::from_u32_srgb_spec(*px@[lane]),
        {
            let b = <u32 as AsStackBlurrableSrgbSimd<LANES>>::as_stackblurrable_srgb_simd(px);
            proof {
                assert forall|lane: int|
                    0 <= lane < LANES implies
                    #[trigger] b.lane(lane) == Argb::<
                    StackBlurrableU32,
                    4,
                >::from_u32_srgb_spec(*px@[lane]) by {
                    let want = Argb::<StackBlurrableU32, 4>::from_u32_srgb_spec(*px@[lane]);
                    b.lemma_lane(lane);
                    Argb::<StackBlurrableU32, 4>::lemma_of(
                        Seq::new(
                            4,
                            |k: int| StackBlurrableU32(crate::color::srgb_channel(*px@[lane], k)),
                        ),
                    );
                    assert forall|k: int| 0 <= k < 4 implies b.lane(lane).0@[k] == want.0@[k] by {
                        assert(b.0@[k].0@[lane] == crate::color::srgb_channel(*px@[lane], k));
                    }
                    Argb::<StackBlurrableU32, 4>::lemma_ext(b.lane(lane), want);
                }
            }
            b
        };
    let to_pixel_simd = |b: Argb<StackBlurrableU32xN<LANES>, 4>| -> (px: [u32; LANES])
        ensures
            forall|lane: int|
                0 <= lane < LANES ==> #[trigger] px@[lane] == b.lane(lane).to_u32_srgb_spec(),
        {
            let px = <u32 as AsStackBlurrableSrgbSimd<LANES>>::from_stackblurrable_srgb_simd(b);
            proof {
                assert forall|lane: int| 0 <= lane < LANES implies #[trigger] px@[lane] == b.lane(
                    lane,
                ).to_u32_srgb_spec() by {
                    b.lemma_lane(lane);
                }
            }
            px
        };
    let to_blurrable = |px: &u32| -> (b: Argb<StackBlurrableU32, 4>)
        ensures
            b == Argb::<StackBlurrableU32, 4>::from_u32_srgb_spec(*px),
        { Argb::from_u32_srgb(*px) };
    let to_pixel = |b: Argb<StackBlurrableU32, 4>| -> (px: u32)
        ensures
            px == b.to_u32_srgb_spec(),
        { b.to_u32_srgb() };
    let ghost fs = to_blurrable_simd;
    let ghost gs = to_pixel_simd;
    let ghost f = to_blurrable;
    let ghost g = to_pixel;
    simd_blur::<u32, _, _, _, _, _, _, LANES>(
        buffer,
        radius,
        to_blurrable_simd,
        to_pixel_simd,
        to_blurrable,
        to_pixel,
    );
    proof {
        let before = old(buffer).buf@;
        let w = old(buffer).width as nat;
        let h = old(buffer).height as nat;
        let s = old(buffer).stride as nat;
        let unpack = |px: u32| Argb::<StackBlurrableU32, 4>::from_u32_srgb_spec(px);
        let pack = |b: Argb<StackBlurrableU32, 4>| b.to_u32_srgb_spec();
        let lane_of = |lane: int| Argb::<StackBlurrableU32xN<LANES>, 4>::lane_of(lane);
        assert forall|lane: int| 0 <= lane < LANES implies preserves(#[trigger] lane_of(lane)) by {
            Argb::<StackBlurrableU32xN<LANES>, 4>::lemma_lane_preserves(lane);
        }
        lemma_simd_image_determined::<u32, _, _, _, _, _, _, LANES>(
            before,
            buffer.buf@,
            w,
            h,
            s,
            radius as nat,
            fs,
            gs,
            f,
            g,
            unpack,
            pack,
            lane_of,
        );
        assert(blurred_srgb(before, w, h, s, radius as nat) =~= blurred_image(
            before,
            w,
            h,
            s,
            radius as nat,
            unpack,
            pack,
        ));
    }
}

} // verus!
