//! One pass over an image: every row, or every column, blurred in place.

use std::collections::VecDeque;
use vstd::prelude::*;
use crate::image::{
    blurs_through, col, is_blur_of, is_pixel, lemma_pixel_index, line, line_index, row, Image,
};
use crate::iter::{radius_fits, StackBlur};
use crate::kernel::{blurred_at, lemma_blurred_at_prefix};
use crate::traits::StackBlurrable;

verus! {

/// Blurs one line of `buf` in place: the `len` elements that begin at
/// `start` and lie `step` apart. Gives back the queue it worked in.
pub(crate) fn blur_line<T, B: StackBlurrable, F: Fn(&T) -> B, G: Fn(B) -> T>(
    buf: &mut Vec<T>,
    start: usize,
    step: usize,
    len: usize,
    radius: usize,
    ops: VecDeque<B>,
    to_blurrable: &F,
    to_pixel: &G,
) -> (queue: VecDeque<B>)
    requires
        radius_fits(radius),
        len > 0 ==> line_index(start as int, step as int, len - 1) < old(buf)@.len(),
        len > 1 ==> step > 0,
        forall|px: T| call_requires(*to_blurrable, (&px,)),
        forall|b: B| call_requires(*to_pixel, (b,)),
    ensures
        final(buf)@.len() == old(buf)@.len(),
        is_blur_of(
            line(old(buf)@, start as int, step as int, len as nat),
            line(final(buf)@, start as int, step as int, len as nat),
            radius as nat,
            *to_blurrable,
            *to_pixel,
        ),
        forall|p: int|
            0 <= p < old(buf)@.len() && (forall|k: int|
                0 <= k < len ==> p != #[trigger] line_index(start as int, step as int, k))
                ==> final(buf)@[p] == old(buf)@[p],
{
    let mut generator: StackBlur<B> = StackBlur::with_ops(radius, ops);
    let mut read: usize = 0;
    let mut written: usize = 0;
    let ghost before = line(buf@, start as int, step as int, len as nat);
    let ghost mut mid: Seq<B> = Seq::empty();
    let ghost r = radius as nat;
    proof {
        assert(buf.len() == buf@.len());
        assert forall|k: int| 0 <= k < len implies 0 <= #[trigger] line_index(
            start as int,
            step as int,
            k,
        ) < buf@.len() by {
            lemma_line_in_bounds(start as int, step as int, len as int, k);
        }
    }
    while written < len
        invariant
            generator.wf(),
            generator@.radius == r,
            radius_fits(radius),
            written <= read <= len,
            len > 0 ==> line_index(start as int, step as int, len - 1) < old(buf)@.len(),
            len > 1 ==> step > 0,
            forall|px: T| call_requires(*to_blurrable, (&px,)),
            forall|b: B| call_requires(*to_pixel, (b,)),
            buf@.len() == old(buf)@.len(),
            buf@.len() <= usize::MAX,
            before == line(old(buf)@, start as int, step as int, len as nat),
            mid.len() == read,
            forall|k: int|
                0 <= k < read ==> call_ensures(*to_blurrable, (&before[k],), #[trigger] mid[k]),
            written < len ==> generator@.fed == mid && generator@.emitted == written,
            generator@.draining ==> read == len,
            forall|k: int|
                0 <= k < len ==> 0 <= #[trigger] line_index(start as int, step as int, k)
                    < buf@.len(),
            forall|k: int|
                0 <= k < written ==> call_ensures(
                    *to_pixel,
                    (blurred_at(mid, r, k),),
                    buf@[#[trigger] line_index(start as int, step as int, k)],
                ),
            forall|k: int|
                written <= k < len ==> buf@[#[trigger] line_index(start as int, step as int, k)]
                    == before[k],
            forall|p: int|
                0 <= p < old(buf)@.len() && (forall|k: int|
                    0 <= k < len ==> p != #[trigger] line_index(start as int, step as int, k))
                    ==> buf@[p] == old(buf)@[p],
        decreases 2 * len - read - written,
    {
        let ghost known = mid;
        proof {
            generator.lemma_view_valid();
            lemma_line_in_bounds(start as int, step as int, len as int, written as int);
        }
        let fed: Option<B>;
        if read < len {
            proof {
                lemma_line_in_bounds(start as int, step as int, len as int, read as int);
            }
            let item: B = to_blurrable(&buf[start + read * step]);
            proof {
                mid = known.push(item);
                assert forall|k: int| 0 <= k < written implies blurred_at(known, r, k)
                    == blurred_at(mid, r, k) by {
                    lemma_blurred_at_prefix(known, mid, r, k);
                }
                if known.len() > r {
                    lemma_blurred_at_prefix(known, mid, r, written as int);
                }
            }
            read += 1;
            fed = generator.feed(Some(item));
        } else {
            fed = generator.feed(None);
        }
        if let Some(out) = fed {
            let pixel: T = to_pixel(out);
            let ghost at = line_index(start as int, step as int, written as int);
            buf.set(start + written * step, pixel);
            proof {
                assert forall|k: int| 0 <= k < len && k != written implies line_index(
                    start as int,
                    step as int,
                    k,
                ) != at by {
                    lemma_line_apart(start as int, step as int, k, written as int);
                }
            }
            written += 1;
        }
    }
    proof {
        let after = line(buf@, start as int, step as int, len as nat);
        assert(blurs_through(before, mid, after, r, *to_blurrable, *to_pixel));
    }
    generator.into_ops()
}

/// Every element of a line lies before the end of the line's last element.
proof fn lemma_line_in_bounds(start: int, step: int, len: int, k: int)
    requires
        0 <= k < len,
        0 <= start,
        0 <= step,
    ensures
        0 <= k * step <= (len - 1) * step,
        line_index(start, step, k) <= line_index(start, step, len - 1),
{
    assert(0 <= k * step <= (len - 1) * step) by (nonlinear_arith)
        requires
            0 <= k <= len - 1,
            0 <= step,
    ;
}

/// Two elements of a line lie apart.
proof fn lemma_line_apart(start: int, step: int, j: int, k: int)
    requires
        j != k,
        step > 0,
    ensures
        line_index(start, step, j) != line_index(start, step, k),
{
    assert(j * step != k * step) by (nonlinear_arith)
        requires
            j != k,
            step > 0,
    ;
}

/// Blurs the rows of `buffer` from row `first` on, in place.
pub(crate) fn blur_rows<T, B: StackBlurrable, F: Fn(&T) -> B, G: Fn(B) -> T>(
    buffer: &mut Image<T>,
    first: usize,
    radius: usize,
    ops: VecDeque<B>,
    to_blurrable: &F,
    to_pixel: &G,
) -> (queue: VecDeque<B>)
    requires
        old(buffer).wf(),
        old(buffer).width > 0,
        old(buffer).height > 0,
        first <= old(buffer).height,
        radius_fits(radius),
        forall|px: T| call_requires(*to_blurrable, (&px,)),
        forall|b: B| call_requires(*to_pixel, (b,)),
    ensures
        final(buffer).width == old(buffer).width,
        final(buffer).height == old(buffer).height,
        final(buffer).stride == old(buffer).stride,
        final(buffer).buf@.len() == old(buffer).buf@.len(),
        forall|y: int|
            first <= y < old(buffer).height ==> is_blur_of::<T, B, F, G>(
                #[trigger] row(
                    old(buffer).buf@,
                    old(buffer).width as nat,
                    old(buffer).stride as nat,
                    y,
                ),
                row(final(buffer).buf@, old(buffer).width as nat, old(buffer).stride as nat, y),
                radius as nat,
                *to_blurrable,
                *to_pixel,
            ),
        forall|p: int|
            0 <= p < old(buffer).buf@.len() && (p < first * old(buffer).stride || !is_pixel(
                p,
                old(buffer).width as nat,
                old(buffer).height as nat,
                old(buffer).stride as nat,
            )) ==> #[trigger] final(buffer).buf@[p] == old(buffer).buf@[p],
{
    let width: usize = buffer.width;
    let height: usize = buffer.height;
    let stride: usize = buffer.stride;
    let ghost before = buffer.buf@;
    let ghost w = width as nat;
    let ghost h = height as nat;
    let ghost s = stride as nat;
    let mut ops = ops;
    let mut y: usize = first;
    proof {
        assert(buffer.buf.len() == before.len());
    }
    while y < height
        invariant
            first <= y <= height,
            0 < width <= stride,
            (height - 1) * stride + width <= before.len() <= usize::MAX,
            buffer.width == width,
            buffer.height == height,
            buffer.stride == stride,
            buffer.buf@.len() == before.len(),
            before == old(buffer).buf@,
            w == width,
            h == height,
            s == stride,
            radius_fits(radius),
            forall|px: T| call_requires(*to_blurrable, (&px,)),
            forall|b: B| call_requires(*to_pixel, (b,)),
            forall|v: int|
                first <= v < y ==> is_blur_of::<T, B, F, G>(
                    #[trigger] row(before, w, s, v),
                    row(buffer.buf@, w, s, v),
                    radius as nat,
                    *to_blurrable,
                    *to_pixel,
                ),
            forall|p: int|
                0 <= p < before.len() && (p >= y * stride || p < first * stride || !is_pixel(
                    p,
                    w,
                    h,
                    s,
                )) ==> #[trigger] buffer.buf@[p] == before[p],
        decreases height - y,
    {
        let ghost prev = buffer.buf@;
        proof {
            lemma_row_start(y as int, height as int, stride as int);
            if first < y {
                lemma_row_start(first as int, y as int, stride as int);
            }
        }
        ops = blur_line(&mut buffer.buf, y * stride, 1, width, radius, ops, to_blurrable, to_pixel);
        proof {
            let now = buffer.buf@;
            let begin = y * stride;
            assert(row(prev, w, s, y as int) =~= row(before, w, s, y as int));
            assert forall|p: int|
                0 <= p < before.len() && (p < begin || p >= begin + width) implies
                now[p]
                == prev[p] by {
                assert forall|k: int| 0 <= k < width implies p != #[trigger] line_index(
                    begin as int,
                    1,
                    k,
                ) by {}
            }
            assert forall|v: int|
                first <= v < y implies
                row(now, w, s, v) =~= row(prev, w, s, v) by {
                lemma_row_start(v, y as int, stride as int);
            }
            assert forall|p: int|
                0 <= p < before.len() && (p >= (y + 1) * stride || p < first * stride || !is_pixel(
                    p,
                    w,
                    h,
                    s,
                )) implies #[trigger] now[p] == before[p] by {
                assert((y + 1) * stride == begin + stride) by (nonlinear_arith)
                    requires
                        begin == y * stride,
                ;
                if begin <= p < begin + width {
                    lemma_pixel_index(p - begin, y as int, stride as int);
                }
            }
        }
        y += 1;
    }
    ops
}

/// Blurs the columns of `buffer` from column `first` on, in place.
pub(crate) fn blur_cols<T, B: StackBlurrable, F: Fn(&T) -> B, G: Fn(B) -> T>(
    buffer: &mut Image<T>,
    first: usize,
    radius: usize,
    ops: VecDeque<B>,
    to_blurrable: &F,
    to_pixel: &G,
) -> (queue: VecDeque<B>)
    requires
        old(buffer).wf(),
        old(buffer).width > 0,
        old(buffer).height > 0,
        first <= old(buffer).width,
        radius_fits(radius),
        forall|px: T| call_requires(*to_blurrable, (&px,)),
        forall|b: B| call_requires(*to_pixel, (b,)),
    ensures
        final(buffer).width == old(buffer).width,
        final(buffer).height == old(buffer).height,
        final(buffer).stride == old(buffer).stride,
        final(buffer).buf@.len() == old(buffer).buf@.len(),
        forall|x: int|
            first <= x < old(buffer).width ==> is_blur_of::<T, B, F, G>(
                #[trigger] col(
                    old(buffer).buf@,
                    old(buffer).height as nat,
                    old(buffer).stride as nat,
                    x,
                ),
                col(final(buffer).buf@, old(buffer).height as nat, old(buffer).stride as nat, x),
                radius as nat,
                *to_blurrable,
                *to_pixel,
            ),
        forall|p: int|
            0 <= p < old(buffer).buf@.len() && (p % (old(buffer).stride as int) < first || !is_pixel(
                p,
                old(buffer).width as nat,
                old(buffer).height as nat,
                old(buffer).stride as nat,
            )) ==> #[trigger] final(buffer).buf@[p] == old(buffer).buf@[p],
{
    let width: usize = buffer.width;
    let height: usize = buffer.height;
    let stride: usize = buffer.stride;
    let ghost before = buffer.buf@;
    let ghost w = width as nat;
    let ghost h = height as nat;
    let ghost s = stride as nat;
    let mut ops = ops;
    let mut x: usize = first;
    proof {
        assert(buffer.buf.len() == before.len());
    }
    while x < width
        invariant
            first <= x <= width,
            0 < width <= stride,
            0 < height,
            (height - 1) * stride + width <= before.len() <= usize::MAX,
            buffer.width == width,
            buffer.height == height,
            buffer.stride == stride,
            buffer.buf@.len() == before.len(),
            before == old(buffer).buf@,
            w == width,
            h == height,
            s == stride,
            radius_fits(radius),
            forall|px: T| call_requires(*to_blurrable, (&px,)),
            forall|b: B| call_requires(*to_pixel, (b,)),
            forall|u: int|
                first <= u < x ==> is_blur_of::<T, B, F, G>(
                    #[trigger] col(before, h, s, u),
                    col(buffer.buf@, h, s, u),
                    radius as nat,
                    *to_blurrable,
                    *to_pixel,
                ),
            forall|p: int|
                0 <= p < before.len() && (p % (stride as int) >= x || p % (stride as int) < first
                    || !is_pixel(p, w, h, s)) ==> #[trigger] buffer.buf@[p] == before[p],
        decreases width - x,
    {
        let ghost prev = buffer.buf@;
        proof {
            lemma_col_index(x as int, height - 1, width as int, height as int, stride as int);
            assert forall|k: int| 0 <= k < height implies prev[line_index(x as int, s as int, k)]
                == before[line_index(x as int, s as int, k)] by {
                lemma_col_index(x as int, k, width as int, height as int, stride as int);
            }
            assert(col(prev, h, s, x as int) =~= col(before, h, s, x as int));
        }
        ops = blur_line(&mut buffer.buf, x, stride, height, radius, ops, to_blurrable, to_pixel);
        proof {
            let now = buffer.buf@;
            assert forall|p: int|
                0 <= p < before.len() && (p % (stride as int) != x || !is_pixel(p, w, h, s)) implies
                now[p] == prev[p] by {
                assert forall|k: int| 0 <= k < height implies p != #[trigger] line_index(
                    x as int,
                    stride as int,
                    k,
                ) by {
                    lemma_col_index(x as int, k, width as int, height as int, stride as int);
                }
            }
            assert forall|u: int|
                first <= u < x implies
                col(now, h, s, u) =~= col(prev, h, s, u) by {
                assert forall|j: int| 0 <= j < height implies now[line_index(u, s as int, j)]
                    == prev[line_index(u, s as int, j)] by {
                    lemma_col_index(u, j, width as int, height as int, stride as int);
                }
            }
        }
        x += 1;
    }
    ops
}

/// Where element `k` of column `x` lies: inside the buffer, in row `k`, at
/// offset `x` into it.
pub(crate) proof fn lemma_col_index(x: int, k: int, width: int, height: int, stride: int)
    requires
        0 <= x < width <= stride,
        0 <= k < height,
    ensures
        0 <= line_index(x, stride, k) < (height - 1) * stride + width,
        line_index(x, stride, k) / stride == k,
        line_index(x, stride, k) % stride == x,
{
    lemma_pixel_index(x, k, stride);
    assert(0 <= k * stride <= (height - 1) * stride) by (nonlinear_arith)
        requires
            0 <= k <= height - 1,
            0 <= stride,
    ;
}

/// Row `y` ends before row `z` begins, where `y` comes before `z`.
pub(crate) proof fn lemma_row_start(y: int, z: int, stride: int)
    requires
        0 <= y < z,
        0 <= stride,
    ensures
        0 <= y * stride,
        y * stride + stride <= z * stride,
        y * stride <= (z - 1) * stride,
{
    assert(0 <= y * stride && y * stride + stride <= z * stride && y * stride <= (z - 1) * stride)
        by (nonlinear_arith)
        requires
            0 <= y < z,
            0 <= stride,
    ;
}

} // verus!
