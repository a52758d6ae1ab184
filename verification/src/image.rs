//! A two-dimensional buffer of pixels, and what it means to blur along one
//! line of it.

use vstd::prelude::*;
use crate::traits::StackBlurrable;
use crate::kernel::{blurred, blurred_at};

verus! {

/// A rectangle of pixels inside a buffer. Row `y` starts at `y * stride`
/// and holds `width` pixels; what lies between the end of a row and the
/// start of the next is padding, and is never touched.
pub struct Image<T> {
    /// The pixels, row after row.
    pub buf: Vec<T>,
    /// How many pixels a row holds.
    pub width: usize,
    /// How many rows there are.
    pub height: usize,
    /// How far apart two rows start.
    pub stride: usize,
}

impl<T> Image<T> {
    /// Whether the buffer is large enough for the rows it is said to hold.
    pub open spec fn wf(&self) -> bool {
        &&& self.width <= self.stride
        &&& self.width > 0 && self.height > 0 ==> (self.height - 1) * self.stride + self.width
            <= self.buf@.len()
    }

    /// Tells whether the buffer is large enough for the rows it is said to
    /// hold.
    pub fn is_wf(&self) -> (fits: bool)
        ensures
            fits == self.wf(),
    {
        let len: usize = self.buf.len();
        if self.width > self.stride {
            return false;
        }
        if self.width == 0 || self.height == 0 {
            return true;
        }
        match (self.height - 1).checked_mul(self.stride) {
            Some(rows) => match rows.checked_add(self.width) {
                Some(needed) => needed <= len,
                None => false,
            },
            None => false,
        }
    }
}

/// Where pixel `i` of a part of an image lies in the buffer of the whole,
/// for a part of `width` pixels a row whose top left corner is at column
/// `left` of row `top`, its pixels counted row by row.
pub open spec fn part_index(left: int, top: int, stride: int, width: int, i: int) -> int {
    (top + i / width) * stride + left + i % width
}

/// Pixel `i` of a part lies in a row and a column of the whole image, and
/// no other pixel of the part lies there.
pub proof fn lemma_part_index(
    left: int,
    top: int,
    stride: int,
    width: int,
    height: int,
    whole_width: int,
    whole_height: int,
    i: int,
)
    requires
        0 <= left,
        0 <= top,
        0 < width,
        left + width <= whole_width <= stride,
        top + height <= whole_height,
        0 <= i < width * height,
    ensures
        0 <= i / width < height,
        0 <= i % width < width,
        i == (i / width) * width + i % width,
        0 <= part_index(left, top, stride, width, i) < (whole_height - 1) * stride + whole_width,
        part_index(left, top, stride, width, i) / stride == top + i / width,
        part_index(left, top, stride, width, i) % stride == left + i % width,
{
    vstd::arithmetic::div_mod::lemma_fundamental_div_mod(i, width);
    vstd::arithmetic::div_mod::lemma_mod_bound(i, width);
    let y = i / width;
    let x = i % width;
    assert(width * y == y * width) by (nonlinear_arith);
    assert(0 <= y < height) by (nonlinear_arith)
        requires
            i == y * width + x,
            0 <= x < width,
            0 <= i < width * height,
    ;
    lemma_pixel_index(left + x, top + y, stride);
    assert((top + y) * stride <= (whole_height - 1) * stride) by (nonlinear_arith)
        requires
            0 <= top + y <= whole_height - 1,
            0 <= stride,
    ;
}

impl<T: Copy> Image<T> {
    /// Copies a part of the image out as an image of its own, without
    /// padding: `width` by `height` pixels from column `left` of row `top`
    /// on.
    pub fn crop(&self, left: usize, top: usize, width: usize, height: usize) -> (part: Image<T>)
        requires
            self.wf(),
            left + width <= self.width,
            top + height <= self.height,
        ensures
            part.wf(),
            part.width == width,
            part.height == height,
            part.stride == width,
            part.buf@.len() == width * height,
            forall|i: int|
                0 <= i < width * height ==> part.buf@[i] == self.buf@[#[trigger] part_index(
                    left as int,
                    top as int,
                    self.stride as int,
                    width as int,
                    i,
                )],
    {
        let mut buf: Vec<T> = Vec::new();
        if width == 0 || height == 0 {
            assert(width * height == 0) by (nonlinear_arith)
                requires
                    width == 0 || height == 0,
            ;
            return Image { buf, width, height, stride: width };
        }
        let total: usize = self.buf.len();
        proof {
            assert(width * height <= (self.height - 1) * self.stride + self.width)
                by (nonlinear_arith)
                requires
                    0 < width <= self.width <= self.stride,
                    0 < height <= self.height,
            ;
            assert((height - 1) * width + width == width * height) by (nonlinear_arith);
        }
        let count: usize = width * height;
        let mut i: usize = 0;
        while i < count
            invariant
                i <= count,
                count == width * height,
                0 < width,
                0 < height,
                self.wf(),
                left + width <= self.width,
                top + height <= self.height,
                total == self.buf@.len(),
                buf@.len() == i,
                forall|j: int|
                    0 <= j < i ==> buf@[j] == self.buf@[#[trigger] part_index(
                        left as int,
                        top as int,
                        self.stride as int,
                        width as int,
                        j,
                    )],
            decreases count - i,
        {
            proof {
                lemma_part_index(
                    left as int,
                    top as int,
                    self.stride as int,
                    width as int,
                    height as int,
                    self.width as int,
                    self.height as int,
                    i as int,
                );
                lemma_row_reach(top + i / width, self.height as int, self.stride as int);
            }
            buf.push(self.buf[(top + i / width) * self.stride + left + i % width]);
            i += 1;
        }
        Image { buf, width, height, stride: width }
    }

    /// Copies `part`, an image without padding, into the image with its top
    /// left corner at column `left` of row `top`. What lies outside the
    /// part stays as it is.
    pub fn paste(&mut self, left: usize, top: usize, part: &Image<T>)
        requires
            old(self).wf(),
            part.stride == part.width,
            part.buf@.len() >= part.width * part.height,
            left + part.width <= old(self).width,
            top + part.height <= old(self).height,
        ensures
            final(self).width == old(self).width,
            final(self).height == old(self).height,
            final(self).stride == old(self).stride,
            final(self).buf@.len() == old(self).buf@.len(),
            forall|i: int|
                0 <= i < part.width * part.height ==> final(self).buf@[#[trigger] part_index(
                    left as int,
                    top as int,
                    old(self).stride as int,
                    part.width as int,
                    i,
                )] == part.buf@[i],
            forall|p: int|
                0 <= p < old(self).buf@.len() && (forall|i: int|
                    0 <= i < part.width * part.height ==> p != #[trigger] part_index(
                        left as int,
                        top as int,
                        old(self).stride as int,
                        part.width as int,
                        i,
                    )) ==> final(self).buf@[p] == old(self).buf@[p],
    {
        let width: usize = part.width;
        let height: usize = part.height;
        if width == 0 || height == 0 {
            assert(width * height == 0) by (nonlinear_arith)
                requires
                    width == 0 || height == 0,
            ;
            return ;
        }
        let total: usize = self.buf.len();
        let given: usize = part.buf.len();
        let count: usize = width * height;
        let stride: usize = self.stride;
        let mut i: usize = 0;
        while i < count
            invariant
                i <= count,
                count == width * height,
                count <= part.buf@.len(),
                0 < width,
                0 < height,
                width == part.width,
                height == part.height,
                self.wf(),
                self.width == old(self).width,
                self.height == old(self).height,
                self.stride == old(self).stride,
                stride == self.stride,
                left + width <= self.width,
                top + height <= self.height,
                total == self.buf@.len(),
                total == old(self).buf@.len(),
                forall|j: int|
                    0 <= j < i ==> self.buf@[#[trigger] part_index(
                        left as int,
                        top as int,
                        stride as int,
                        width as int,
                        j,
                    )] == part.buf@[j],
                forall|p: int|
                    0 <= p < total && (forall|j: int|
                        0 <= j < count ==> p != #[trigger] part_index(
                            left as int,
                            top as int,
                            stride as int,
                            width as int,
                            j,
                        )) ==> self.buf@[p] == old(self).buf@[p],
            decreases count - i,
        {
            proof {
                lemma_part_index(
                    left as int,
                    top as int,
                    stride as int,
                    width as int,
                    height as int,
                    self.width as int,
                    self.height as int,
                    i as int,
                );
                lemma_row_reach(top + i / width, self.height as int, stride as int);
                assert forall|j: int| 0 <= j < i implies 0 <= #[trigger] part_index(
                    left as int,
                    top as int,
                    stride as int,
                    width as int,
                    j,
                ) < total && part_index(left as int, top as int, stride as int, width as int, j)
                    != part_index(left as int, top as int, stride as int, width as int, i as int) by {
                    lemma_part_index(
                        left as int,
                        top as int,
                        stride as int,
                        width as int,
                        height as int,
                        self.width as int,
                        self.height as int,
                        j,
                    );
                }
            }
            self.buf.set((top + i / width) * stride + left + i % width, part.buf[i]);
            i += 1;
        }
    }
}

/// Row `y` of an image of `height` rows begins no later than its last row.
proof fn lemma_row_reach(y: int, height: int, stride: int)
    requires
        0 <= y < height,
        0 <= stride,
    ensures
        0 <= y * stride <= (height - 1) * stride,
{
    assert(0 <= y * stride <= (height - 1) * stride) by (nonlinear_arith)
        requires
            0 <= y <= height - 1,
            0 <= stride,
    ;
}

/// Where the `k`-th element of a line lies that begins at `start` and goes
/// on in steps of `step`.
pub open spec fn line_index(start: int, step: int, k: int) -> int {
    start + k * step
}

/// The `len` elements of such a line.
pub open spec fn line<T>(buf: Seq<T>, start: int, step: int, len: nat) -> Seq<T> {
    Seq::new(len, |k: int| buf[line_index(start, step, k)])
}

/// Whether `after` is `before` blurred by `radius`, where `mid` holds what
/// `to_blurrable` made of each element of `before`, and `to_pixel` made each
/// element of `after` from the blur of `mid` at the same place.
pub open spec fn blurs_through<T, B: StackBlurrable, F: Fn(&T) -> B, G: Fn(B) -> T>(
    before: Seq<T>,
    mid: Seq<B>,
    after: Seq<T>,
    radius: nat,
    to_blurrable: F,
    to_pixel: G,
) -> bool {
    &&& mid.len() == before.len()
    &&& after.len() == before.len()
    &&& forall|k: int|
        0 <= k < before.len() ==> call_ensures(to_blurrable, (&before[k],), #[trigger] mid[k])
    &&& forall|k: int|
        0 <= k < before.len() ==> call_ensures(
            to_pixel,
            (blurred_at(mid, radius, k),),
            #[trigger] after[k],
        )
}

/// Whether `after` is `before` blurred by `radius`: each element turned
/// into a blurrable value by `to_blurrable`, those values blurred, and each
/// blurred value turned back by `to_pixel`.
pub open spec fn is_blur_of<T, B: StackBlurrable, F: Fn(&T) -> B, G: Fn(B) -> T>(
    before: Seq<T>,
    after: Seq<T>,
    radius: nat,
    to_blurrable: F,
    to_pixel: G,
) -> bool {
    exists|mid: Seq<B>| blurs_through(before, mid, after, radius, to_blurrable, to_pixel)
}

/// Row `y` of an image: `width` elements side by side.
pub open spec fn row<T>(buf: Seq<T>, width: nat, stride: nat, y: int) -> Seq<T> {
    line(buf, y * stride, 1, width)
}

/// Column `x` of an image: `height` elements, each `stride` after the one
/// before.
pub open spec fn col<T>(buf: Seq<T>, height: nat, stride: nat, x: int) -> Seq<T> {
    line(buf, x, stride as int, height)
}

/// Whether position `p` of the buffer holds a pixel of the image, and not
/// padding.
pub open spec fn is_pixel(p: int, width: nat, height: nat, stride: nat) -> bool {
    &&& stride > 0
    &&& 0 <= p
    &&& p / (stride as int) < height
    &&& p % (stride as int) < width
}

/// Whether `after` is `before` with every row blurred and nothing else
/// changed.
pub open spec fn rows_blurred<T, B: StackBlurrable, F: Fn(&T) -> B, G: Fn(B) -> T>(
    before: Seq<T>,
    after: Seq<T>,
    width: nat,
    height: nat,
    stride: nat,
    radius: nat,
    to_blurrable: F,
    to_pixel: G,
) -> bool {
    &&& after.len() == before.len()
    &&& forall|y: int|
        0 <= y < height ==> is_blur_of::<T, B, F, G>(
            #[trigger] row(before, width, stride, y),
            row(after, width, stride, y),
            radius,
            to_blurrable,
            to_pixel,
        )
    &&& forall|p: int|
        0 <= p < before.len() && !is_pixel(p, width, height, stride) ==> #[trigger] after[p]
            == before[p]
}

/// Whether `after` is `before` with every column blurred and nothing else
/// changed.
pub open spec fn cols_blurred<T, B: StackBlurrable, F: Fn(&T) -> B, G: Fn(B) -> T>(
    before: Seq<T>,
    after: Seq<T>,
    width: nat,
    height: nat,
    stride: nat,
    radius: nat,
    to_blurrable: F,
    to_pixel: G,
) -> bool {
    &&& after.len() == before.len()
    &&& forall|x: int|
        0 <= x < width ==> is_blur_of::<T, B, F, G>(
            #[trigger] col(before, height, stride, x),
            col(after, height, stride, x),
            radius,
            to_blurrable,
            to_pixel,
        )
    &&& forall|p: int|
        0 <= p < before.len() && !is_pixel(p, width, height, stride) ==> #[trigger] after[p]
            == before[p]
}

/// Where the pixel at column `x` of row `y` lies, and that no other pixel
/// lies there.
pub proof fn lemma_pixel_index(x: int, y: int, stride: int)
    requires
        0 <= x < stride,
        0 <= y,
    ensures
        0 <= y * stride,
        (y * stride + x) / stride == y,
        (y * stride + x) % stride == x,
{
    vstd::arithmetic::mul::lemma_mul_nonnegative(y, stride);
    vstd::arithmetic::div_mod::lemma_fundamental_div_mod_converse(y * stride + x, stride, y, x);
}

/// A line blurred by `radius`, where `unpack` says what blurrable value a
/// pixel stands for and `pack` what pixel a blurred value gives.
pub open spec fn blurred_line<T, B: StackBlurrable>(
    before: Seq<T>,
    radius: nat,
    unpack: spec_fn(T) -> B,
    pack: spec_fn(B) -> T,
) -> Seq<T> {
    blurred(before.map_values(unpack), radius).map_values(pack)
}

/// A buffer with every row of the image blurred. Padding is as it was.
pub open spec fn blurred_rows<T, B: StackBlurrable>(
    buf: Seq<T>,
    width: nat,
    height: nat,
    stride: nat,
    radius: nat,
    unpack: spec_fn(T) -> B,
    pack: spec_fn(B) -> T,
) -> Seq<T> {
    Seq::new(
        buf.len(),
        |p: int|
            if is_pixel(p, width, height, stride) {
                blurred_line(row(buf, width, stride, p / (stride as int)), radius, unpack, pack)[p
                    % (stride as int)]
            } else {
                buf[p]
            },
    )
}

/// A buffer with every column of the image blurred. Padding is as it was.
pub open spec fn blurred_cols<T, B: StackBlurrable>(
    buf: Seq<T>,
    width: nat,
    height: nat,
    stride: nat,
    radius: nat,
    unpack: spec_fn(T) -> B,
    pack: spec_fn(B) -> T,
) -> Seq<T> {
    Seq::new(
        buf.len(),
        |p: int|
            if is_pixel(p, width, height, stride) {
                blurred_line(col(buf, height, stride, p % (stride as int)), radius, unpack, pack)[p
                    / (stride as int)]
            } else {
                buf[p]
            },
    )
}

/// A buffer with the image blurred: every row, then every column of what
/// that gave.
pub open spec fn blurred_image<T, B: StackBlurrable>(
    buf: Seq<T>,
    width: nat,
    height: nat,
    stride: nat,
    radius: nat,
    unpack: spec_fn(T) -> B,
    pack: spec_fn(B) -> T,
) -> Seq<T> {
    blurred_cols(
        blurred_rows(buf, width, height, stride, radius, unpack, pack),
        width,
        height,
        stride,
        radius,
        unpack,
        pack,
    )
}

/// Whether `to_blurrable` and `to_pixel` compute `unpack` and `pack`.
pub open spec fn computes<T, B, F: Fn(&T) -> B, G: Fn(B) -> T>(
    to_blurrable: F,
    to_pixel: G,
    unpack: spec_fn(T) -> B,
    pack: spec_fn(B) -> T,
) -> bool {
    &&& forall|t: T, b: B| #[trigger] call_ensures(to_blurrable, (&t,), b) ==> b == unpack(t)
    &&& forall|b: B, t: T| #[trigger] call_ensures(to_pixel, (b,), t) ==> t == pack(b)
}

/// Where the two conversions are functions, there is only one blur of a
/// line.
pub proof fn lemma_line_determined<T, B: StackBlurrable, F: Fn(&T) -> B, G: Fn(B) -> T>(
    before: Seq<T>,
    after: Seq<T>,
    radius: nat,
    to_blurrable: F,
    to_pixel: G,
    unpack: spec_fn(T) -> B,
    pack: spec_fn(B) -> T,
)
    requires
        is_blur_of(before, after, radius, to_blurrable, to_pixel),
        computes(to_blurrable, to_pixel, unpack, pack),
    ensures
        after == blurred_line(before, radius, unpack, pack),
{
    let mid: Seq<B> = choose|mid: Seq<B>|
        blurs_through(before, mid, after, radius, to_blurrable, to_pixel);
    assert forall|k: int| 0 <= k < before.len() implies mid[k] == unpack(before[k]) by {
        assert(call_ensures(to_blurrable, (&before[k],), mid[k]));
    }
    assert(mid =~= before.map_values(unpack));
    assert forall|k: int| 0 <= k < before.len() implies after[k] == pack(
        blurred(mid, radius)[k],
    ) by {
        assert(call_ensures(to_pixel, (blurred_at(mid, radius, k),), after[k]));
    }
    assert(after =~= blurred_line(before, radius, unpack, pack));
}

/// Where the two conversions are functions, there is only one way to blur
/// the rows of an image.
pub proof fn lemma_rows_determined<T, B: StackBlurrable, F: Fn(&T) -> B, G: Fn(B) -> T>(
    before: Seq<T>,
    after: Seq<T>,
    width: nat,
    height: nat,
    stride: nat,
    radius: nat,
    to_blurrable: F,
    to_pixel: G,
    unpack: spec_fn(T) -> B,
    pack: spec_fn(B) -> T,
)
    requires
        rows_blurred::<T, B, F, G>(
            before,
            after,
            width,
            height,
            stride,
            radius,
            to_blurrable,
            to_pixel,
        ),
        computes(to_blurrable, to_pixel, unpack, pack),
        0 < width <= stride,
        0 < height,
        (height - 1) * stride + width <= before.len(),
    ensures
        after == blurred_rows(before, width, height, stride, radius, unpack, pack),
{
    let want = blurred_rows(before, width, height, stride, radius, unpack, pack);
    assert forall|p: int| 0 <= p < before.len() implies after[p] == want[p] by {
        if is_pixel(p, width, height, stride) {
            let y = p / (stride as int);
            let x = p % (stride as int);
            vstd::arithmetic::div_mod::lemma_fundamental_div_mod(p, stride as int);
            assert(y * stride == stride * y) by (nonlinear_arith);
            assert(row(before, width, stride, y).len() == width);
            lemma_line_determined(
                row(before, width, stride, y),
                row(after, width, stride, y),
                radius,
                to_blurrable,
                to_pixel,
                unpack,
                pack,
            );
            assert(row(after, width, stride, y)[x] == after[line_index(y * stride, 1, x)]);
        }
    }
    assert(after =~= want);
}

/// Where the two conversions are functions, there is only one way to blur
/// the columns of an image.
pub proof fn lemma_cols_determined<T, B: StackBlurrable, F: Fn(&T) -> B, G: Fn(B) -> T>(
    before: Seq<T>,
    after: Seq<T>,
    width: nat,
    height: nat,
    stride: nat,
    radius: nat,
    to_blurrable: F,
    to_pixel: G,
    unpack: spec_fn(T) -> B,
    pack: spec_fn(B) -> T,
)
    requires
        cols_blurred::<T, B, F, G>(
            before,
            after,
            width,
            height,
            stride,
            radius,
            to_blurrable,
            to_pixel,
        ),
        computes(to_blurrable, to_pixel, unpack, pack),
        0 < width <= stride,
        0 < height,
        (height - 1) * stride + width <= before.len(),
    ensures
        after == blurred_cols(before, width, height, stride, radius, unpack, pack),
{
    let want = blurred_cols(before, width, height, stride, radius, unpack, pack);
    assert forall|p: int| 0 <= p < before.len() implies after[p] == want[p] by {
        if is_pixel(p, width, height, stride) {
            let y = p / (stride as int);
            let x = p % (stride as int);
            vstd::arithmetic::div_mod::lemma_fundamental_div_mod(p, stride as int);
            assert(y * stride == stride * y) by (nonlinear_arith);
            assert(col(before, height, stride, x).len() == height);
            lemma_line_determined(
                col(before, height, stride, x),
                col(after, height, stride, x),
                radius,
                to_blurrable,
                to_pixel,
                unpack,
                pack,
            );
            assert(col(after, height, stride, x)[y] == after[line_index(x, stride as int, y)]);
        }
    }
    assert(after =~= want);
}

/// Whether `after` is `before` with the image blurred: every row, and
/// then every column of what that gave. Padding is as it was.
pub open spec fn image_blurred<T, B: StackBlurrable, F: Fn(&T) -> B, G: Fn(B) -> T>(
    before: Seq<T>,
    after: Seq<T>,
    width: nat,
    height: nat,
    stride: nat,
    radius: nat,
    to_blurrable: F,
    to_pixel: G,
) -> bool {
    exists|mid: Seq<T>|
        {
            &&& rows_blurred::<T, B, F, G>(
                before,
                mid,
                width,
                height,
                stride,
                radius,
                to_blurrable,
                to_pixel,
            )
            &&& cols_blurred::<T, B, F, G>(
                mid,
                after,
                width,
                height,
                stride,
                radius,
                to_blurrable,
                to_pixel,
            )
        }
}

/// Where the two conversions are functions, there is only one way to blur
/// an image.
pub proof fn lemma_image_determined<T, B: StackBlurrable, F: Fn(&T) -> B, G: Fn(B) -> T>(
    before: Seq<T>,
    after: Seq<T>,
    width: nat,
    height: nat,
    stride: nat,
    radius: nat,
    to_blurrable: F,
    to_pixel: G,
    unpack: spec_fn(T) -> B,
    pack: spec_fn(B) -> T,
)
    requires
        image_blurred::<T, B, F, G>(
            before,
            after,
            width,
            height,
            stride,
            radius,
            to_blurrable,
            to_pixel,
        ),
        computes(to_blurrable, to_pixel, unpack, pack),
        width <= stride,
        width > 0 && height > 0 ==> (height - 1) * stride + width <= before.len(),
    ensures
        after == blurred_image(before, width, height, stride, radius, unpack, pack),
{
    let mid: Seq<T> = choose|mid: Seq<T>|
        {
            &&& rows_blurred::<T, B, F, G>(
                before,
                mid,
                width,
                height,
                stride,
                radius,
                to_blurrable,
                to_pixel,
            )
            &&& cols_blurred::<T, B, F, G>(
                mid,
                after,
                width,
                height,
                stride,
                radius,
                to_blurrable,
                to_pixel,
            )
        };
    if width > 0 && height > 0 {
        lemma_rows_determined(
            before,
            mid,
            width,
            height,
            stride,
            radius,
            to_blurrable,
            to_pixel,
            unpack,
            pack,
        );
        lemma_cols_determined(
            mid,
            after,
            width,
            height,
            stride,
            radius,
            to_blurrable,
            to_pixel,
            unpack,
            pack,
        );
    } else {
        assert(mid =~= before);
        assert(after =~= before);
        assert(blurred_rows(before, width, height, stride, radius, unpack, pack) =~= before);
        assert(blurred_image(before, width, height, stride, radius, unpack, pack) =~= before);
    }
}

} // verus!
