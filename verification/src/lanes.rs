//! Several lines of a buffer blurred side by side, as one line of wider
//! values.

use std::collections::VecDeque;
use vstd::prelude::*;
use crate::arrays::{array_of, lemma_array_ext, lemma_array_of};
use crate::image::{
    blurred_cols, blurred_image, blurred_line, blurred_rows, col, computes, is_blur_of, is_pixel,
    lemma_line_determined, lemma_pixel_index, line_index, row,
};
use crate::image::Image;
use crate::iter::{radius_fits, StackBlur};
use crate::kernel::{
    blurred, blurred_at, lemma_blurred_at_prefix, lemma_blurred_at_through, preserves,
};
use crate::traits::StackBlurrable;

verus! {

/// Where element `k` of line `lane` lies, for lines that begin `apart` from
/// each other and go on in steps of `step`.
pub open spec fn lanes_index(start: int, apart: int, step: int, lane: int, k: int) -> int {
    start + lane * apart + k * step
}

/// Element `k` of each of `LANES` lines.
pub open spec fn gathered<T: Copy, const LANES: usize>(
    buf: Seq<T>,
    start: int,
    apart: int,
    step: int,
    k: int,
) -> [T; LANES] {
    array_of::<T, LANES>(
        Seq::new(LANES as nat, |lane: int| buf[lanes_index(start, apart, step, lane, k)]),
    )
}

/// References to element `k` of each of `LANES` lines.
pub open spec fn gathered_refs<'a, T, const LANES: usize>(
    buf: Seq<T>,
    start: int,
    apart: int,
    step: int,
    k: int,
) -> [&'a T; LANES] {
    array_of::<&'a T, LANES>(
        Seq::new(LANES as nat, |lane: int| &buf[lanes_index(start, apart, step, lane, k)]),
    )
}

/// Whether the `LANES` lines take up `LANES * len` different places, all of
/// them inside a buffer of `total` elements.
pub open spec fn lanes_fit(
    start: int,
    apart: int,
    step: int,
    lanes: int,
    len: int,
    total: int,
) -> bool {
    &&& forall|lane: int, k: int|
        0 <= lane < lanes && 0 <= k < len ==> 0 <= #[trigger] lanes_index(
            start,
            apart,
            step,
            lane,
            k,
        ) < total
    &&& forall|lane: int, k: int, other: int, j: int|
        0 <= lane < lanes && 0 <= k < len && 0 <= other < lanes && 0 <= j < len && (lane != other
            || k != j) ==> #[trigger] lanes_index(start, apart, step, lane, k)
            != #[trigger] lanes_index(start, apart, step, other, j)
}

/// Takes a reference to element `k` of each line.
fn gather<'a, T, const LANES: usize>(
    buf: &'a Vec<T>,
    start: usize,
    apart: usize,
    step: usize,
    k: usize,
    Ghost(len): Ghost<int>,
) -> (refs: [&'a T; LANES])
    requires
        LANES > 0,
        0 <= k < len,
        lanes_fit(start as int, apart as int, step as int, LANES as int, len, buf@.len() as int),
    ensures
        refs == gathered_refs::<T, LANES>(buf@, start as int, apart as int, step as int, k as int),
{
    proof {
        assert(buf.len() == buf@.len());
        lemma_lanes_index(start as int, apart as int, step as int, 0, k as int, buf@.len() as int);
    }
    let mut refs: [&T; LANES] = [&buf[start + k * step];LANES];
    let mut lane: usize = 1;
    while lane < LANES
        invariant
            1 <= lane <= LANES,
            0 <= k < len,
            buf@.len() <= usize::MAX,
            lanes_fit(start as int, apart as int, step as int, LANES as int, len, buf@.len() as int),
            forall|i: int|
                0 <= i < lane ==> *refs@[i] == buf@[lanes_index(
                    start as int,
                    apart as int,
                    step as int,
                    i,
                    k as int,
                )],
        decreases LANES - lane,
    {
        proof {
            lemma_lanes_index(
                start as int,
                apart as int,
                step as int,
                lane as int,
                k as int,
                buf@.len() as int,
            );
        }
        refs[lane] = &buf[start + lane * apart + k * step];
        lane += 1;
    }
    proof {
        let want = gathered_refs::<T, LANES>(
            buf@,
            start as int,
            apart as int,
            step as int,
            k as int,
        );
        lemma_array_of::<&T, LANES>(
            Seq::new(
                LANES as nat,
                |lane: int|
                    &buf@[lanes_index(start as int, apart as int, step as int, lane, k as int)],
            ),
        );
        lemma_array_ext(refs, want);
    }
    refs
}

/// A place that lies inside the buffer can be reached without overflow.
proof fn lemma_lanes_index(start: int, apart: int, step: int, lane: int, k: int, total: int)
    requires
        0 <= start,
        0 <= apart,
        0 <= step,
        0 <= lane,
        0 <= k,
        lanes_index(start, apart, step, lane, k) < total,
    ensures
        0 <= lane * apart < total,
        0 <= k * step < total,
        start + lane * apart < total,
        lane == 0 ==> lanes_index(start, apart, step, lane, k) == start + k * step,
{
    assert(0 <= lane * apart) by (nonlinear_arith)
        requires
            0 <= lane,
            0 <= apart,
    ;
    assert(0 <= k * step) by (nonlinear_arith)
        requires
            0 <= k,
            0 <= step,
    ;
}

/// Whether `after` holds `LANES` lines of `before` blurred together by
/// `radius`: `mid` holds what `to_blurrable` made of the `LANES` elements at
/// each place of the lines, and `to_pixel` made the `LANES` elements of
/// `after` at each place from the blur of `mid` at that place.
pub open spec fn lanes_blur_through<
    T: Copy,
    B: StackBlurrable,
    F: Fn([&T; LANES]) -> B,
    G: Fn(B) -> [T; LANES],
    const LANES: usize,
>(
    before: Seq<T>,
    mid: Seq<B>,
    after: Seq<T>,
    start: int,
    apart: int,
    step: int,
    len: nat,
    radius: nat,
    to_blurrable: F,
    to_pixel: G,
) -> bool {
    &&& mid.len() == len
    &&& forall|k: int|
        0 <= k < len ==> call_ensures(
            to_blurrable,
            (gathered_refs::<T, LANES>(before, start, apart, step, k),),
            #[trigger] mid[k],
        )
    &&& forall|k: int|
        0 <= k < len ==> call_ensures(
            to_pixel,
            (blurred_at(mid, radius, k),),
            #[trigger] gathered::<T, LANES>(after, start, apart, step, k),
        )
}

/// Whether `after` holds `LANES` lines of `before` blurred together by
/// `radius`.
pub open spec fn lanes_blur_of<
    T: Copy,
    B: StackBlurrable,
    F: Fn([&T; LANES]) -> B,
    G: Fn(B) -> [T; LANES],
    const LANES: usize,
>(
    before: Seq<T>,
    after: Seq<T>,
    start: int,
    apart: int,
    step: int,
    len: nat,
    radius: nat,
    to_blurrable: F,
    to_pixel: G,
) -> bool {
    exists|mid: Seq<B>|
        lanes_blur_through::<T, B, F, G, LANES>(
            before,
            mid,
            after,
            start,
            apart,
            step,
            len,
            radius,
            to_blurrable,
            to_pixel,
        )
}

/// What `gathered` holds, lane by lane.
pub proof fn lemma_gathered<T: Copy, const LANES: usize>(
    buf: Seq<T>,
    start: int,
    apart: int,
    step: int,
    k: int,
)
    ensures
        forall|lane: int|
            0 <= lane < LANES ==> #[trigger] gathered::<T, LANES>(buf, start, apart, step, k)@[lane]
                == buf[lanes_index(start, apart, step, lane, k)],
{
    lemma_array_of::<T, LANES>(
        Seq::new(LANES as nat, |lane: int| buf[lanes_index(start, apart, step, lane, k)]),
    );
}

/// Buffers that agree at place `k` of every line give the same `gathered`.
proof fn lemma_gathered_same<T: Copy, const LANES: usize>(
    one: Seq<T>,
    other: Seq<T>,
    start: int,
    apart: int,
    step: int,
    k: int,
)
    requires
        forall|lane: int|
            0 <= lane < LANES ==> one[#[trigger] lanes_index(start, apart, step, lane, k)]
                == other[lanes_index(start, apart, step, lane, k)],
    ensures
        gathered::<T, LANES>(one, start, apart, step, k) == gathered::<T, LANES>(
            other,
            start,
            apart,
            step,
            k,
        ),
        gathered_refs::<T, LANES>(one, start, apart, step, k) == gathered_refs::<T, LANES>(
            other,
            start,
            apart,
            step,
            k,
        ),
{
    lemma_gathered::<T, LANES>(one, start, apart, step, k);
    lemma_gathered::<T, LANES>(other, start, apart, step, k);
    lemma_array_ext(
        gathered::<T, LANES>(one, start, apart, step, k),
        gathered::<T, LANES>(other, start, apart, step, k),
    );
    lemma_array_of::<&T, LANES>(
        Seq::new(LANES as nat, |lane: int| &one[lanes_index(start, apart, step, lane, k)]),
    );
    lemma_array_of::<&T, LANES>(
        Seq::new(LANES as nat, |lane: int| &other[lanes_index(start, apart, step, lane, k)]),
    );
    lemma_array_ext(
        gathered_refs::<T, LANES>(one, start, apart, step, k),
        gathered_refs::<T, LANES>(other, start, apart, step, k),
    );
}

/// Puts `pixels` at element `k` of each line.
fn scatter<T: Copy, const LANES: usize>(
    buf: &mut Vec<T>,
    start: usize,
    apart: usize,
    step: usize,
    k: usize,
    pixels: [T; LANES],
    Ghost(len): Ghost<int>,
)
    requires
        LANES > 0,
        0 <= k < len,
        lanes_fit(
            start as int,
            apart as int,
            step as int,
            LANES as int,
            len,
            old(buf)@.len() as int,
        ),
    ensures
        final(buf)@.len() == old(buf)@.len(),
        forall|lane: int|
            0 <= lane < LANES ==> final(buf)@[#[trigger] lanes_index(
                start as int,
                apart as int,
                step as int,
                lane,
                k as int,
            )] == pixels@[lane],
        forall|p: int|
            0 <= p < old(buf)@.len() && (forall|lane: int|
                0 <= lane < LANES ==> p != #[trigger] lanes_index(
                    start as int,
                    apart as int,
                    step as int,
                    lane,
                    k as int,
                )) ==> final(buf)@[p] == old(buf)@[p],
{
    proof {
        assert(buf.len() == buf@.len());
    }
    let mut lane: usize = 0;
    while lane < LANES
        invariant
            lane <= LANES,
            0 <= k < len,
            buf@.len() == old(buf)@.len(),
            buf@.len() <= usize::MAX,
            lanes_fit(start as int, apart as int, step as int, LANES as int, len, buf@.len() as int),
            forall|i: int|
                0 <= i < lane ==> buf@[#[trigger] lanes_index(
                    start as int,
                    apart as int,
                    step as int,
                    i,
                    k as int,
                )] == pixels@[i],
            forall|p: int|
                0 <= p < old(buf)@.len() && (forall|i: int|
                    0 <= i < LANES ==> p != #[trigger] lanes_index(
                        start as int,
                        apart as int,
                        step as int,
                        i,
                        k as int,
                    )) ==> buf@[p] == old(buf)@[p],
        decreases LANES - lane,
    {
        proof {
            lemma_lanes_index(
                start as int,
                apart as int,
                step as int,
                lane as int,
                k as int,
                buf@.len() as int,
            );
        }
        buf.set(start + lane * apart + k * step, pixels[lane]);
        lane += 1;
    }
}

/// Blurs `LANES` lines of `buf` in place, side by side: line `lane` begins
/// at `start + lane * apart`, and each holds `len` elements that lie `step`
/// apart. Gives back the queue it worked in.
pub(crate) fn blur_lines<
    T: Copy,
    B: StackBlurrable,
    F: Fn([&T; LANES]) -> B,
    G: Fn(B) -> [T; LANES],
    const LANES: usize,
>(
    buf: &mut Vec<T>,
    start: usize,
    apart: usize,
    step: usize,
    len: usize,
    radius: usize,
    ops: VecDeque<B>,
    to_blurrable: &F,
    to_pixel: &G,
) -> (queue: VecDeque<B>)
    requires
        LANES > 0,
        radius_fits(radius),
        lanes_fit(
            start as int,
            apart as int,
            step as int,
            LANES as int,
            len as int,
            old(buf)@.len() as int,
        ),
        forall|refs: [&T; LANES]| call_requires(*to_blurrable, (refs,)),
        forall|b: B| call_requires(*to_pixel, (b,)),
    ensures
        final(buf)@.len() == old(buf)@.len(),
        lanes_blur_of::<T, B, F, G, LANES>(
            old(buf)@,
            final(buf)@,
            start as int,
            apart as int,
            step as int,
            len as nat,
            radius as nat,
            *to_blurrable,
            *to_pixel,
        ),
        forall|p: int|
            0 <= p < old(buf)@.len() && (forall|lane: int, k: int|
                0 <= lane < LANES && 0 <= k < len ==> p != #[trigger] lanes_index(
                    start as int,
                    apart as int,
                    step as int,
                    lane,
                    k,
                )) ==> final(buf)@[p] == old(buf)@[p],
{
    let mut generator: StackBlur<B> = StackBlur::with_ops(radius, ops);
    let mut read: usize = 0;
    let mut written: usize = 0;
    let ghost before = buf@;
    let ghost mut mid: Seq<B> = Seq::empty();
    let ghost r = radius as nat;
    let ghost s = start as int;
    let ghost a = apart as int;
    let ghost t = step as int;
    while written < len
        invariant
            LANES > 0,
            generator.wf(),
            generator@.radius == r,
            radius_fits(radius),
            written <= read <= len,
            s == start,
            a == apart,
            t == step,
            before == old(buf)@,
            buf@.len() == before.len(),
            lanes_fit(s, a, t, LANES as int, len as int, before.len() as int),
            forall|refs: [&T; LANES]| call_requires(*to_blurrable, (refs,)),
            forall|b: B| call_requires(*to_pixel, (b,)),
            mid.len() == read,
            forall|k: int|
                0 <= k < read ==> call_ensures(
                    *to_blurrable,
                    (gathered_refs::<T, LANES>(before, s, a, t, k),),
                    #[trigger] mid[k],
                ),
            written < len ==> generator@.fed == mid && generator@.emitted == written,
            generator@.draining ==> read == len,
            forall|k: int|
                0 <= k < written ==> call_ensures(
                    *to_pixel,
                    (blurred_at(mid, r, k),),
                    #[trigger] gathered::<T, LANES>(buf@, s, a, t, k),
                ),
            forall|lane: int, k: int|
                0 <= lane < LANES && written <= k < len ==> buf@[#[trigger] lanes_index(
                    s,
                    a,
                    t,
                    lane,
                    k,
                )] == before[lanes_index(s, a, t, lane, k)],
            forall|p: int|
                0 <= p < before.len() && (forall|lane: int, k: int|
                    0 <= lane < LANES && 0 <= k < len ==> p != #[trigger] lanes_index(
                        s,
                        a,
                        t,
                        lane,
                        k,
                    )) ==> buf@[p] == before[p],
        decreases 2 * len - read - written,
    {
        let ghost known = mid;
        let ghost prev = buf@;
        proof {
            generator.lemma_view_valid();
        }
        let fed: Option<B>;
        if read < len {
            let refs = gather::<T, LANES>(buf, start, apart, step, read, Ghost(len as int));
            let item: B = to_blurrable(refs);
            proof {
                lemma_gathered_same::<T, LANES>(prev, before, s, a, t, read as int);
                mid = known.push(item);
                assert forall|k: int| 0 <= k < written implies blurred_at(known, r, k)
                    == blurred_at(mid, r, k) by {
                    lemma_blurred_at_prefix(known, mid, r, k);
                }
                if known.len() > r {
                    lemma_blurred_at_prefix(known, mid, r, written as int);
                }
            }
            read += 1;
            fed = generator.feed(Some(item));
        } else {
            fed = generator.feed(None);
        }
        if let Some(out) = fed {
            let pixels: [T; LANES] = to_pixel(out);
            scatter::<T, LANES>(buf, start, apart, step, written, pixels, Ghost(len as int));
            proof {
                let now = buf@;
                lemma_gathered::<T, LANES>(now, s, a, t, written as int);
                lemma_array_ext(pixels, gathered::<T, LANES>(now, s, a, t, written as int));
                assert forall|k: int| 0 <= k < written implies #[trigger] gathered::<T, LANES>(
                    now,
                    s,
                    a,
                    t,
                    k,
                ) == gathered::<T, LANES>(prev, s, a, t, k) by {
                    lemma_gathered_same::<T, LANES>(now, prev, s, a, t, k);
                }
            }
            written += 1;
        }
    }
    proof {
        assert(lanes_blur_through::<T, B, F, G, LANES>(
            before,
            mid,
            buf@,
            s,
            a,
            t,
            len as nat,
            r,
            *to_blurrable,
            *to_pixel,
        ));
    }
    generator.into_ops()
}

/// Buffers that agree on the places of the lines agree on whether those
/// lines are blurred.
pub proof fn lemma_lanes_blur_same<
    T: Copy,
    B: StackBlurrable,
    F: Fn([&T; LANES]) -> B,
    G: Fn(B) -> [T; LANES],
    const LANES: usize,
>(
    before: Seq<T>,
    after: Seq<T>,
    before2: Seq<T>,
    after2: Seq<T>,
    start: int,
    apart: int,
    step: int,
    len: nat,
    radius: nat,
    to_blurrable: F,
    to_pixel: G,
)
    requires
        lanes_blur_of::<T, B, F, G, LANES>(
            before,
            after,
            start,
            apart,
            step,
            len,
            radius,
            to_blurrable,
            to_pixel,
        ),
        forall|lane: int, k: int|
            0 <= lane < LANES && 0 <= k < len ==> before[#[trigger] lanes_index(
                start,
                apart,
                step,
                lane,
                k,
            )] == before2[lanes_index(start, apart, step, lane, k)],
        forall|lane: int, k: int|
            0 <= lane < LANES && 0 <= k < len ==> after[#[trigger] lanes_index(
                start,
                apart,
                step,
                lane,
                k,
            )] == after2[lanes_index(start, apart, step, lane, k)],
    ensures
        lanes_blur_of::<T, B, F, G, LANES>(
            before2,
            after2,
            start,
            apart,
            step,
            len,
            radius,
            to_blurrable,
            to_pixel,
        ),
{
    let mid: Seq<B> = choose|mid: Seq<B>|
        lanes_blur_through::<T, B, F, G, LANES>(
            before,
            mid,
            after,
            start,
            apart,
            step,
            len,
            radius,
            to_blurrable,
            to_pixel,
        );
    assert forall|k: int| 0 <= k < len implies call_ensures(
        to_blurrable,
        (gathered_refs::<T, LANES>(before2, start, apart, step, k),),
        #[trigger] mid[k],
    ) by {
        lemma_gathered_same::<T, LANES>(before, before2, start, apart, step, k);
    }
    assert forall|k: int| 0 <= k < len implies call_ensures(
        to_pixel,
        (blurred_at(mid, radius, k),),
        #[trigger] gathered::<T, LANES>(after2, start, apart, step, k),
    ) by {
        lemma_gathered_same::<T, LANES>(after, after2, start, apart, step, k);
        assert(call_ensures(
            to_pixel,
            (blurred_at(mid, radius, k),),
            gathered::<T, LANES>(after, start, apart, step, k),
        ));
    }
    assert(lanes_blur_through::<T, B, F, G, LANES>(
        before2,
        mid,
        after2,
        start,
        apart,
        step,
        len,
        radius,
        to_blurrable,
        to_pixel,
    ));
}

/// Whether rows `group * LANES` to `group * LANES + LANES - 1` of `after`
/// are those rows of `before` blurred together.
pub open spec fn rows_group_blurred<
    T: Copy,
    B: StackBlurrable,
    F: Fn([&T; LANES]) -> B,
    G: Fn(B) -> [T; LANES],
    const LANES: usize,
>(
    before: Seq<T>,
    after: Seq<T>,
    width: nat,
    stride: nat,
    radius: nat,
    to_blurrable: F,
    to_pixel: G,
    group: int,
) -> bool {
    lanes_blur_of::<T, B, F, G, LANES>(
        before,
        after,
        group * LANES * stride,
        stride as int,
        1,
        width,
        radius,
        to_blurrable,
        to_pixel,
    )
}

/// Whether columns `group * LANES` to `group * LANES + LANES - 1` of
/// `after` are those columns of `before` blurred together.
pub open spec fn cols_group_blurred<
    T: Copy,
    B: StackBlurrable,
    F: Fn([&T; LANES]) -> B,
    G: Fn(B) -> [T; LANES],
    const LANES: usize,
>(
    before: Seq<T>,
    after: Seq<T>,
    height: nat,
    stride: nat,
    radius: nat,
    to_blurrable: F,
    to_pixel: G,
    group: int,
) -> bool {
    lanes_blur_of::<T, B, F, G, LANES>(
        before,
        after,
        group * LANES,
        1,
        stride as int,
        height,
        radius,
        to_blurrable,
        to_pixel,
    )
}

/// Whether `after` is `before` with every row blurred and nothing else
/// changed: the rows in groups of `LANES` as far as they go, each group
/// blurred together, and the rows that are left over one by one.
pub open spec fn simd_rows_blurred<
    T: Copy,
    Bsimd: StackBlurrable,
    Bsingle: StackBlurrable,
    Fs: Fn([&T; LANES]) -> Bsimd,
    Gs: Fn(Bsimd) -> [T; LANES],
    F: Fn(&T) -> Bsingle,
    G: Fn(Bsingle) -> T,
    const LANES: usize,
>(
    before: Seq<T>,
    after: Seq<T>,
    width: nat,
    height: nat,
    stride: nat,
    radius: nat,
    to_blurrable_simd: Fs,
    to_pixel_simd: Gs,
    to_blurrable_single: F,
    to_pixel_single: G,
) -> bool {
    &&& after.len() == before.len()
    &&& forall|group: int|
        0 <= group < height / (LANES as nat) ==> #[trigger] rows_group_blurred::<
            T,
            Bsimd,
            Fs,
            Gs,
            LANES,
        >(before, after, width, stride, radius, to_blurrable_simd, to_pixel_simd, group)
    &&& forall|y: int|
        height / (LANES as nat) * LANES <= y < height ==> is_blur_of::<T, Bsingle, F, G>(
            #[trigger] row(before, width, stride, y),
            row(after, width, stride, y),
            radius,
            to_blurrable_single,
            to_pixel_single,
        )
    &&& forall|p: int|
        0 <= p < before.len() && !is_pixel(p, width, height, stride) ==> #[trigger] after[p]
            == before[p]
}

/// Whether `after` is `before` with every column blurred and nothing else
/// changed: the columns in groups of `LANES` as far as they go, each group
/// blurred together, and the columns that are left over one by one.
pub open spec fn simd_cols_blurred<
    T: Copy,
    Bsimd: StackBlurrable,
    Bsingle: StackBlurrable,
    Fs: Fn([&T; LANES]) -> Bsimd,
    Gs: Fn(Bsimd) -> [T; LANES],
    F: Fn(&T) -> Bsingle,
    G: Fn(Bsingle) -> T,
    const LANES: usize,
>(
    before: Seq<T>,
    after: Seq<T>,
    width: nat,
    height: nat,
    stride: nat,
    radius: nat,
    to_blurrable_simd: Fs,
    to_pixel_simd: Gs,
    to_blurrable_single: F,
    to_pixel_single: G,
) -> bool {
    &&& after.len() == before.len()
    &&& forall|group: int|
        0 <= group < width / (LANES as nat) ==> #[trigger] cols_group_blurred::<
            T,
            Bsimd,
            Fs,
            Gs,
            LANES,
        >(before, after, height, stride, radius, to_blurrable_simd, to_pixel_simd, group)
    &&& forall|x: int|
        width / (LANES as nat) * LANES <= x < width ==> is_blur_of::<T, Bsingle, F, G>(
            #[trigger] col(before, height, stride, x),
            col(after, height, stride, x),
            radius,
            to_blurrable_single,
            to_pixel_single,
        )
    &&& forall|p: int|
        0 <= p < before.len() && !is_pixel(p, width, height, stride) ==> #[trigger] after[p]
            == before[p]
}

/// Where element `k` of lane `lane` of a group of rows lies: in row
/// `group * lanes + lane`, at offset `k` into it.
pub proof fn lemma_row_group_index(
    group: int,
    lane: int,
    k: int,
    lanes: int,
    width: int,
    height: int,
    stride: int,
)
    requires
        0 <= group,
        0 <= lane < lanes,
        group * lanes + lane < height,
        0 <= k < width <= stride,
    ensures
        lanes_index(group * lanes * stride, stride, 1, lane, k) == (group * lanes + lane) * stride
            + k,
        0 <= lanes_index(group * lanes * stride, stride, 1, lane, k) < (height - 1) * stride
            + width,
        lanes_index(group * lanes * stride, stride, 1, lane, k) / stride == group * lanes + lane,
        lanes_index(group * lanes * stride, stride, 1, lane, k) % stride == k,
        0 <= group * lanes * stride <= (height - 1) * stride,
{
    let y = group * lanes + lane;
    assert(0 <= group * lanes) by (nonlinear_arith)
        requires
            0 <= group,
            0 <= lanes,
    ;
    assert(group * lanes * stride + lane * stride == y * stride) by (nonlinear_arith)
        requires
            y == group * lanes + lane,
    ;
    assert(0 <= group * lanes * stride <= y * stride <= (height - 1) * stride)
        by (nonlinear_arith)
        requires
            0 <= group * lanes <= y <= height - 1,
            0 <= stride,
    ;
    lemma_pixel_index(k, y, stride);
}

/// Where element `k` of lane `lane` of a group of columns lies: in row
/// `k`, at offset `group * lanes + lane` into it.
pub proof fn lemma_col_group_index(
    group: int,
    lane: int,
    k: int,
    lanes: int,
    width: int,
    height: int,
    stride: int,
)
    requires
        0 <= group,
        0 <= lane < lanes,
        group * lanes + lane < width <= stride,
        0 <= k < height,
    ensures
        lanes_index(group * lanes, 1, stride, lane, k) == k * stride + (group * lanes + lane),
        0 <= lanes_index(group * lanes, 1, stride, lane, k) < (height - 1) * stride + width,
        lanes_index(group * lanes, 1, stride, lane, k) / stride == k,
        lanes_index(group * lanes, 1, stride, lane, k) % stride == group * lanes + lane,
        0 <= group * lanes,
{
    let x = group * lanes + lane;
    assert(0 <= group * lanes) by (nonlinear_arith)
        requires
            0 <= group,
            0 <= lanes,
    ;
    assert(0 <= k * stride <= (height - 1) * stride) by (nonlinear_arith)
        requires
            0 <= k <= height - 1,
            0 <= stride,
    ;
    lemma_pixel_index(x, k, stride);
}

/// The `len` elements of line `lane`.
pub open spec fn lane_line<T>(
    buf: Seq<T>,
    start: int,
    apart: int,
    step: int,
    lane: int,
    len: nat,
) -> Seq<T> {
    Seq::new(len, |k: int| buf[lanes_index(start, apart, step, lane, k)])
}

/// Whether `to_blurrable` and `to_pixel` do in every lane what `unpack` and
/// `pack` do to a single pixel, where `lane_of(lane)` takes lane `lane` out
/// of a wide value and the lanes do not mix.
pub open spec fn computes_lanes<
    T: Copy,
    Bsimd: StackBlurrable,
    Bsingle: StackBlurrable,
    F: Fn([&T; LANES]) -> Bsimd,
    G: Fn(Bsimd) -> [T; LANES],
    const LANES: usize,
>(
    to_blurrable: F,
    to_pixel: G,
    unpack: spec_fn(T) -> Bsingle,
    pack: spec_fn(Bsingle) -> T,
    lane_of: spec_fn(int) -> spec_fn(Bsimd) -> Bsingle,
) -> bool {
    &&& forall|refs: [&T; LANES], b: Bsimd, lane: int|
        #![trigger call_ensures(to_blurrable, (refs,), b), lane_of(lane)]
        call_ensures(to_blurrable, (refs,), b) && 0 <= lane < LANES ==> lane_of(lane)(b) == unpack(
            *refs@[lane],
        )
    &&& forall|b: Bsimd, pixels: [T; LANES], lane: int|
        #![trigger call_ensures(to_pixel, (b,), pixels), lane_of(lane)]
        call_ensures(to_pixel, (b,), pixels) && 0 <= lane < LANES ==> pixels@[lane] == pack(
            lane_of(lane)(b),
        )
    &&& forall|lane: int| 0 <= lane < LANES ==> preserves(#[trigger] lane_of(lane))
}

/// Where the conversions do in every lane what `unpack` and `pack` do to a
/// single pixel, lines blurred together come out as each would by itself.
pub proof fn lemma_lanes_determined<
    T: Copy,
    Bsimd: StackBlurrable,
    Bsingle: StackBlurrable,
    F: Fn([&T; LANES]) -> Bsimd,
    G: Fn(Bsimd) -> [T; LANES],
    const LANES: usize,
>(
    before: Seq<T>,
    after: Seq<T>,
    start: int,
    apart: int,
    step: int,
    len: nat,
    radius: nat,
    to_blurrable: F,
    to_pixel: G,
    unpack: spec_fn(T) -> Bsingle,
    pack: spec_fn(Bsingle) -> T,
    lane_of: spec_fn(int) -> spec_fn(Bsimd) -> Bsingle,
    lane: int,
)
    requires
        lanes_blur_of::<T, Bsimd, F, G, LANES>(
            before,
            after,
            start,
            apart,
            step,
            len,
            radius,
            to_blurrable,
            to_pixel,
        ),
        computes_lanes::<T, Bsimd, Bsingle, F, G, LANES>(
            to_blurrable,
            to_pixel,
            unpack,
            pack,
            lane_of,
        ),
        0 <= lane < LANES,
    ensures
        lane_line(after, start, apart, step, lane, len) == blurred_line(
            lane_line(before, start, apart, step, lane, len),
            radius,
            unpack,
            pack,
        ),
{
    let mid: Seq<Bsimd> = choose|mid: Seq<Bsimd>|
        lanes_blur_through::<T, Bsimd, F, G, LANES>(
            before,
            mid,
            after,
            start,
            apart,
            step,
            len,
            radius,
            to_blurrable,
            to_pixel,
        );
    let p = lane_of(lane);
    let narrow = mid.map_values(p);
    let source = lane_line(before, start, apart, step, lane, len);
    assert forall|k: int| 0 <= k < len implies narrow[k] == unpack(source[k]) by {
        let refs = gathered_refs::<T, LANES>(before, start, apart, step, k);
        assert(call_ensures(to_blurrable, (refs,), mid[k]));
        lemma_array_of::<&T, LANES>(
            Seq::new(LANES as nat, |i: int| &before[lanes_index(start, apart, step, i, k)]),
        );
        assert(lane_of(lane)(mid[k]) == unpack(*refs@[lane]));
    }
    assert(narrow =~= source.map_values(unpack));
    let want = blurred_line(source, radius, unpack, pack);
    let got = lane_line(after, start, apart, step, lane, len);
    assert forall|k: int| 0 <= k < len implies got[k] == want[k] by {
        let pixels = gathered::<T, LANES>(after, start, apart, step, k);
        assert(call_ensures(to_pixel, (blurred_at(mid, radius, k),), pixels));
        lemma_gathered::<T, LANES>(after, start, apart, step, k);
        assert(pixels@[lane] == pack(lane_of(lane)(blurred_at(mid, radius, k))));
        lemma_blurred_at_through(mid, p, radius, k);
    }
    assert(got =~= want);
}

/// Where the conversions are functions that do the same in every lane, the
/// rows blurred in groups come out as they would one by one.
pub proof fn lemma_simd_rows_determined<
    T: Copy,
    Bsimd: StackBlurrable,
    Bsingle: StackBlurrable,
    Fs: Fn([&T; LANES]) -> Bsimd,
    Gs: Fn(Bsimd) -> [T; LANES],
    F: Fn(&T) -> Bsingle,
    G: Fn(Bsingle) -> T,
    const LANES: usize,
>(
    before: Seq<T>,
    after: Seq<T>,
    width: nat,
    height: nat,
    stride: nat,
    radius: nat,
    to_blurrable_simd: Fs,
    to_pixel_simd: Gs,
    to_blurrable_single: F,
    to_pixel_single: G,
    unpack: spec_fn(T) -> Bsingle,
    pack: spec_fn(Bsingle) -> T,
    lane_of: spec_fn(int) -> spec_fn(Bsimd) -> Bsingle,
)
    requires
        LANES > 0,
        simd_rows_blurred::<T, Bsimd, Bsingle, Fs, Gs, F, G, LANES>(
            before,
            after,
            width,
            height,
            stride,
            radius,
            to_blurrable_simd,
            to_pixel_simd,
            to_blurrable_single,
            to_pixel_single,
        ),
        computes(to_blurrable_single, to_pixel_single, unpack, pack),
        computes_lanes::<T, Bsimd, Bsingle, Fs, Gs, LANES>(
            to_blurrable_simd,
            to_pixel_simd,
            unpack,
            pack,
            lane_of,
        ),
        0 < width <= stride,
        0 < height,
        (height - 1) * stride + width <= before.len(),
    ensures
        after == blurred_rows(before, width, height, stride, radius, unpack, pack),
{
    let n = LANES as int;
    let s = stride as int;
    let want = blurred_rows(before, width, height, stride, radius, unpack, pack);
    vstd::arithmetic::div_mod::lemma_fundamental_div_mod(height as int, n);
    vstd::arithmetic::div_mod::lemma_mod_bound(height as int, n);
    let whole = (height / (LANES as nat)) as int;
    assert(whole * n == n * whole) by (nonlinear_arith);
    assert forall|p: int| 0 <= p < before.len() implies after[p] == want[p] by {
        if is_pixel(p, width, height, stride) {
            let y = p / s;
            let x = p % s;
            vstd::arithmetic::div_mod::lemma_fundamental_div_mod(p, s);
            assert(y * s == s * y) by (nonlinear_arith);
            assert(row(before, width, stride, y).len() == width);
            if y >= whole * n {
                lemma_line_determined(
                    row(before, width, stride, y),
                    row(after, width, stride, y),
                    radius,
                    to_blurrable_single,
                    to_pixel_single,
                    unpack,
                    pack,
                );
                assert(row(after, width, stride, y)[x] == after[line_index(y * s, 1, x)]);
            } else {
                let group = y / n;
                let lane = y % n;
                vstd::arithmetic::div_mod::lemma_fundamental_div_mod(y, n);
                vstd::arithmetic::div_mod::lemma_mod_bound(y, n);
                assert(group * n == n * group) by (nonlinear_arith);
                assert(group < whole) by (nonlinear_arith)
                    requires
                        y == group * n + lane,
                        0 <= lane,
                        y < whole * n,
                        n > 0,
                ;
                assert(rows_group_blurred::<T, Bsimd, Fs, Gs, LANES>(
                    before,
                    after,
                    width,
                    stride,
                    radius,
                    to_blurrable_simd,
                    to_pixel_simd,
                    group,
                ));
                lemma_lanes_determined::<T, Bsimd, Bsingle, Fs, Gs, LANES>(
                    before,
                    after,
                    group * n * s,
                    s,
                    1,
                    width,
                    radius,
                    to_blurrable_simd,
                    to_pixel_simd,
                    unpack,
                    pack,
                    lane_of,
                    lane,
                );
                assert forall|k: int| 0 <= k < width implies #[trigger] lanes_index(
                    group * n * s,
                    s,
                    1,
                    lane,
                    k,
                ) == line_index(y * s, 1, k) by {
                    lemma_row_group_index(group, lane, k, n, width as int, height as int, s);
                }
                assert(lane_line(before, group * n * s, s, 1, lane, width) =~= row(
                    before,
                    width,
                    stride,
                    y,
                ));
                assert(lane_line(after, group * n * s, s, 1, lane, width)[x] == after[lanes_index(
                    group * n * s,
                    s,
                    1,
                    lane,
                    x,
                )]);
            }
        }
    }
    assert(after =~= want);
}

/// Where the conversions are functions that do the same in every lane, the
/// columns blurred in groups come out as they would one by one.
pub proof fn lemma_simd_cols_determined<
    T: Copy,
    Bsimd: StackBlurrable,
    Bsingle: StackBlurrable,
    Fs: Fn([&T; LANES]) -> Bsimd,
    Gs: Fn(Bsimd) -> [T; LANES],
    F: Fn(&T) -> Bsingle,
    G: Fn(Bsingle) -> T,
    const LANES: usize,
>(
    before: Seq<T>,
    after: Seq<T>,
    width: nat,
    height: nat,
    stride: nat,
    radius: nat,
    to_blurrable_simd: Fs,
    to_pixel_simd: Gs,
    to_blurrable_single: F,
    to_pixel_single: G,
    unpack: spec_fn(T) -> Bsingle,
    pack: spec_fn(Bsingle) -> T,
    lane_of: spec_fn(int) -> spec_fn(Bsimd) -> Bsingle,
)
    requires
        LANES > 0,
        simd_cols_blurred::<T, Bsimd, Bsingle, Fs, Gs, F, G, LANES>(
            before,
            after,
            width,
            height,
            stride,
            radius,
            to_blurrable_simd,
            to_pixel_simd,
            to_blurrable_single,
            to_pixel_single,
        ),
        computes(to_blurrable_single, to_pixel_single, unpack, pack),
        computes_lanes::<T, Bsimd, Bsingle, Fs, Gs, LANES>(
            to_blurrable_simd,
            to_pixel_simd,
            unpack,
            pack,
            lane_of,
        ),
        0 < width <= stride,
        0 < height,
        (height - 1) * stride + width <= before.len(),
    ensures
        after == blurred_cols(before, width, height, stride, radius, unpack, pack),
{
    let n = LANES as int;
    let s = stride as int;
    let want = blurred_cols(before, width, height, stride, radius, unpack, pack);
    vstd::arithmetic::div_mod::lemma_fundamental_div_mod(width as int, n);
    vstd::arithmetic::div_mod::lemma_mod_bound(width as int, n);
    let whole = (width / (LANES as nat)) as int;
    assert(whole * n == n * whole) by (nonlinear_arith);
    assert forall|p: int| 0 <= p < before.len() implies after[p] == want[p] by {
        if is_pixel(p, width, height, stride) {
            let y = p / s;
            let x = p % s;
            vstd::arithmetic::div_mod::lemma_fundamental_div_mod(p, s);
            assert(y * s == s * y) by (nonlinear_arith);
            assert(col(before, height, stride, x).len() == height);
            if x >= whole * n {
                lemma_line_determined(
                    col(before, height, stride, x),
                    col(after, height, stride, x),
                    radius,
                    to_blurrable_single,
                    to_pixel_single,
                    unpack,
                    pack,
                );
                assert(col(after, height, stride, x)[y] == after[line_index(x, s, y)]);
            } else {
                let group = x / n;
                let lane = x % n;
                vstd::arithmetic::div_mod::lemma_fundamental_div_mod(x, n);
                vstd::arithmetic::div_mod::lemma_mod_bound(x, n);
                assert(group * n == n * group) by (nonlinear_arith);
                assert(group < whole) by (nonlinear_arith)
                    requires
                        x == group * n + lane,
                        0 <= lane,
                        x < whole * n,
                        n > 0,
                ;
                assert(cols_group_blurred::<T, Bsimd, Fs, Gs, LANES>(
                    before,
                    after,
                    height,
                    stride,
                    radius,
                    to_blurrable_simd,
                    to_pixel_simd,
                    group,
                ));
                lemma_lanes_determined::<T, Bsimd, Bsingle, Fs, Gs, LANES>(
                    before,
                    after,
                    group * n,
                    1,
                    s,
                    height,
                    radius,
                    to_blurrable_simd,
                    to_pixel_simd,
                    unpack,
                    pack,
                    lane_of,
                    lane,
                );
                assert forall|k: int| 0 <= k < height implies #[trigger] lanes_index(
                    group * n,
                    1,
                    s,
                    lane,
                    k,
                ) == line_index(x, s, k) by {
                    lemma_col_group_index(group, lane, k, n, width as int, height as int, s);
                }
                assert(lane_line(before, group * n, 1, s, lane, height) =~= col(
                    before,
                    height,
                    stride,
                    x,
                ));
                assert(lane_line(after, group * n, 1, s, lane, height)[y] == after[lanes_index(
                    group * n,
                    1,
                    s,
                    lane,
                    y,
                )]);
            }
        }
    }
    assert(after =~= want);
}

/// Whether `after` is `before` with the image blurred `LANES` lines at a
/// time: every row, and then every column of what that gave. Padding is as
/// it was.
pub open spec fn simd_image_blurred<
    T: Copy,
    Bsimd: StackBlurrable,
    Bsingle: StackBlurrable,
    Fs: Fn([&T; LANES]) -> Bsimd,
    Gs: Fn(Bsimd) -> [T; LANES],
    F: Fn(&T) -> Bsingle,
    G: Fn(Bsingle) -> T,
    const LANES: usize,
>(
    before: Seq<T>,
    after: Seq<T>,
    width: nat,
    height: nat,
    stride: nat,
    radius: nat,
    to_blurrable_simd: Fs,
    to_pixel_simd: Gs,
    to_blurrable_single: F,
    to_pixel_single: G,
) -> bool {
    exists|mid: Seq<T>|
        {
            &&& simd_rows_blurred::<T, Bsimd, Bsingle, Fs, Gs, F, G, LANES>(
                before,
                mid,
                width,
                height,
                stride,
                radius,
                to_blurrable_simd,
                to_pixel_simd,
                to_blurrable_single,
                to_pixel_single,
            )
            &&& simd_cols_blurred::<T, Bsimd, Bsingle, Fs, Gs, F, G, LANES>(
                mid,
                after,
                width,
                height,
                stride,
                radius,
                to_blurrable_simd,
                to_pixel_simd,
                to_blurrable_single,
                to_pixel_single,
            )
        }
}

/// Where the conversions are functions that do the same in every lane, an
/// image blurred `LANES` lines at a time comes out as it would line by
/// line.
pub proof fn lemma_simd_image_determined<
    T: Copy,
    Bsimd: StackBlurrable,
    Bsingle: StackBlurrable,
    Fs: Fn([&T; LANES]) -> Bsimd,
    Gs: Fn(Bsimd) -> [T; LANES],
    F: Fn(&T) -> Bsingle,
    G: Fn(Bsingle) -> T,
    const LANES: usize,
>(
    before: Seq<T>,
    after: Seq<T>,
    width: nat,
    height: nat,
    stride: nat,
    radius: nat,
    to_blurrable_simd: Fs,
    to_pixel_simd: Gs,
    to_blurrable_single: F,
    to_pixel_single: G,
    unpack: spec_fn(T) -> Bsingle,
    pack: spec_fn(Bsingle) -> T,
    lane_of: spec_fn(int) -> spec_fn(Bsimd) -> Bsingle,
)
    requires
        LANES > 0,
        simd_image_blurred::<T, Bsimd, Bsingle, Fs, Gs, F, G, LANES>(
            before,
            after,
            width,
            height,
            stride,
            radius,
            to_blurrable_simd,
            to_pixel_simd,
            to_blurrable_single,
            to_pixel_single,
        ),
        computes(to_blurrable_single, to_pixel_single, unpack, pack),
        computes_lanes::<T, Bsimd, Bsingle, Fs, Gs, LANES>(
            to_blurrable_simd,
            to_pixel_simd,
            unpack,
            pack,
            lane_of,
        ),
        width <= stride,
        width > 0 && height > 0 ==> (height - 1) * stride + width <= before.len(),
    ensures
        after == blurred_image(before, width, height, stride, radius, unpack, pack),
{
    let mid: Seq<T> = choose|mid: Seq<T>|
        {
            &&& simd_rows_blurred::<T, Bsimd, Bsingle, Fs, Gs, F, G, LANES>(
                before,
                mid,
                width,
                height,
                stride,
                radius,
                to_blurrable_simd,
                to_pixel_simd,
                to_blurrable_single,
                to_pixel_single,
            )
            &&& simd_cols_blurred::<T, Bsimd, Bsingle, Fs, Gs, F, G, LANES>(
                mid,
                after,
                width,
                height,
                stride,
                radius,
                to_blurrable_simd,
                to_pixel_simd,
                to_blurrable_single,
                to_pixel_single,
            )
        };
    if width > 0 && height > 0 {
        lemma_simd_rows_determined::<T, Bsimd, Bsingle, Fs, Gs, F, G, LANES>(
            before,
            mid,
            width,
            height,
            stride,
            radius,
            to_blurrable_simd,
            to_pixel_simd,
            to_blurrable_single,
            to_pixel_single,
            unpack,
            pack,
            lane_of,
        );
        lemma_simd_cols_determined::<T, Bsimd, Bsingle, Fs, Gs, F, G, LANES>(
            mid,
            after,
            width,
            height,
            stride,
            radius,
            to_blurrable_simd,
            to_pixel_simd,
            to_blurrable_single,
            to_pixel_single,
            unpack,
            pack,
            lane_of,
        );
    } else {
        assert(mid =~= before);
        assert(after =~= before);
        assert(blurred_rows(before, width, height, stride, radius, unpack, pack) =~= before);
        assert(blurred_image(before, width, height, stride, radius, unpack, pack) =~= before);
    }
}

/// Blurs the rows of `buffer` in groups of `LANES`, as far as whole groups
/// go, in place.
pub(crate) fn blur_row_groups<
    T: Copy,
    B: StackBlurrable,
    F: Fn([&T; LANES]) -> B,
    G: Fn(B) -> [T; LANES],
    const LANES: usize,
>(buffer: &mut Image<T>, radius: usize, ops: VecDeque<B>, to_blurrable: &F, to_pixel: &G) -> (queue:
    VecDeque<B>)
    requires
        LANES > 0,
        old(buffer).wf(),
        old(buffer).width > 0,
        old(buffer).height > 0,
        radius_fits(radius),
        forall|refs: [&T; LANES]| call_requires(*to_blurrable, (refs,)),
        forall|b: B| call_requires(*to_pixel, (b,)),
    ensures
        final(buffer).width == old(buffer).width,
        final(buffer).height == old(buffer).height,
        final(buffer).stride == old(buffer).stride,
        final(buffer).buf@.len() == old(buffer).buf@.len(),
        forall|group: int|
            0 <= group < old(buffer).height / LANES ==> #[trigger] rows_group_blurred::<
                T,
                B,
                F,
                G,
                LANES,
            >(
                old(buffer).buf@,
                final(buffer).buf@,
                old(buffer).width as nat,
                old(buffer).stride as nat,
                radius as nat,
                *to_blurrable,
                *to_pixel,
                group,
            ),
        forall|p: int|
            0 <= p < old(buffer).buf@.len() && (p >= old(buffer).height / LANES * LANES * old(
                buffer,
            ).stride || !is_pixel(
                p,
                old(buffer).width as nat,
                old(buffer).height as nat,
                old(buffer).stride as nat,
            )) ==> #[trigger] final(buffer).buf@[p] == old(buffer).buf@[p],
{
    let width: usize = buffer.width;
    let height: usize = buffer.height;
    let stride: usize = buffer.stride;
    let groups: usize = height / LANES;
    let ghost before = buffer.buf@;
    let ghost w = width as nat;
    let ghost h = height as nat;
    let ghost s = stride as nat;
    let ghost r = radius as nat;
    let ghost n = LANES as int;
    let mut ops = ops;
    let mut group: usize = 0;
    proof {
        assert(buffer.buf.len() == before.len());
        vstd::arithmetic::div_mod::lemma_fundamental_div_mod(height as int, n);
        vstd::arithmetic::div_mod::lemma_mod_bound(height as int, n);
        assert(groups * n == n * groups) by (nonlinear_arith);
    }
    while group < groups
        invariant
            LANES > 0,
            n == LANES,
            group <= groups,
            groups * n <= height,
            0 < width <= stride,
            (height - 1) * stride + width <= before.len() <= usize::MAX,
            buffer.width == width,
            buffer.height == height,
            buffer.stride == stride,
            buffer.buf@.len() == before.len(),
            before == old(buffer).buf@,
            w == width,
            h == height,
            s == stride,
            r == radius,
            radius_fits(radius),
            forall|refs: [&T; LANES]| call_requires(*to_blurrable, (refs,)),
            forall|b: B| call_requires(*to_pixel, (b,)),
            forall|done: int|
                0 <= done < group ==> #[trigger] rows_group_blurred::<T, B, F, G, LANES>(
                    before,
                    buffer.buf@,
                    w,
                    s,
                    r,
                    *to_blurrable,
                    *to_pixel,
                    done,
                ),
            forall|p: int|
                0 <= p < before.len() && (p >= group * n * stride || !is_pixel(p, w, h, s))
                    ==> #[trigger] buffer.buf@[p] == before[p],
        decreases groups - group,
    {
        let ghost prev = buffer.buf@;
        let ghost g = group as int;
        let ghost start = g * n * stride;
        proof {
            assert((g + 1) * n <= groups * n) by (nonlinear_arith)
                requires
                    g + 1 <= groups,
                    0 <= n,
            ;
            assert((g + 1) * n == g * n + n) by (nonlinear_arith);
            assert forall|lane: int, k: int| 0 <= lane < n && 0 <= k < width implies 0
                <= #[trigger] lanes_index(start, stride as int, 1, lane, k) < before.len() by {
                lemma_row_group_index(g, lane, k, n, width as int, height as int, stride as int);
            }
            assert forall|lane: int, k: int, other: int, j: int|
                0 <= lane < n && 0 <= k < width && 0 <= other < n && 0 <= j < width && (lane
                    != other || k != j) implies #[trigger] lanes_index(
                start,
                stride as int,
                1,
                lane,
                k,
            ) != #[trigger] lanes_index(start, stride as int, 1, other, j) by {
                lemma_row_group_index(g, lane, k, n, width as int, height as int, stride as int);
                lemma_row_group_index(g, other, j, n, width as int, height as int, stride as int);
            }
            lemma_row_group_index(g, 0, 0, n, width as int, height as int, stride as int);
            assert(group * LANES * stride == start);
        }
        ops = blur_lines::<T, B, F, G, LANES>(
            &mut buffer.buf,
            group * LANES * stride,
            stride,
            1,
            width,
            radius,
            ops,
            to_blurrable,
            to_pixel,
        );
        proof {
            let now = buffer.buf@;
            // what lies on no line of this group is as it was
            assert forall|p: int|
                0 <= p < before.len() && (p < start || p >= (g + 1) * n * stride || !is_pixel(
                    p,
                    w,
                    h,
                    s,
                )) implies now[p] == prev[p] by {
                assert forall|lane: int, k: int| 0 <= lane < n && 0 <= k < width implies p
                    != #[trigger] lanes_index(start, stride as int, 1, lane, k) by {
                    lemma_row_group_index(g, lane, k, n, width as int, height as int, stride as int);
                    let y = g * n + lane;
                    assert(start <= y * stride && y * stride + stride <= (g + 1) * n * stride)
                        by (nonlinear_arith)
                        requires
                            start == g * n * stride,
                            g * n <= y,
                            y + 1 <= (g + 1) * n,
                            0 <= stride,
                    ;
                }
            }
            // so the groups before this one are still blurred
            assert forall|done: int| 0 <= done < group implies #[trigger] rows_group_blurred::<
                T,
                B,
                F,
                G,
                LANES,
            >(before, now, w, s, r, *to_blurrable, *to_pixel, done) by {
                assert(rows_group_blurred::<T, B, F, G, LANES>(
                    before,
                    prev,
                    w,
                    s,
                    r,
                    *to_blurrable,
                    *to_pixel,
                    done,
                ));
                assert forall|lane: int, k: int|
                    0 <= lane < n && 0 <= k < width implies
                    prev[#[trigger] lanes_index(
                    done * n * stride,
                    stride as int,
                    1,
                    lane,
                    k,
                )] == now[lanes_index(done * n * stride, stride as int, 1, lane, k)] by {
                    assert((done + 1) * n <= g * n) by (nonlinear_arith)
                        requires
                            done + 1 <= g,
                            0 <= n,
                    ;
                    assert((done + 1) * n == done * n + n) by (nonlinear_arith);
                    lemma_row_group_index(
                        done,
                        lane,
                        k,
                        n,
                        width as int,
                        height as int,
                        stride as int,
                    );
                    let y = done * n + lane;
                    assert(y * stride + stride <= start) by (nonlinear_arith)
                        requires
                            start == g * n * stride,
                            y + 1 <= g * n,
                            0 <= stride,
                    ;
                }
                lemma_lanes_blur_same::<T, B, F, G, LANES>(
                    before,
                    prev,
                    before,
                    now,
                    done * n * stride,
                    stride as int,
                    1,
                    w,
                    r,
                    *to_blurrable,
                    *to_pixel,
                );
            }
            // and this one is blurred from what the buffer first held
            assert forall|lane: int, k: int|
                0 <= lane < n && 0 <= k < width implies
                prev[#[trigger] lanes_index(
                start,
                stride as int,
                1,
                lane,
                k,
            )] == before[lanes_index(start, stride as int, 1, lane, k)] by {
                lemma_row_group_index(g, lane, k, n, width as int, height as int, stride as int);
                let y = g * n + lane;
                assert(start <= y * stride) by (nonlinear_arith)
                    requires
                        start == g * n * stride,
                        g * n <= y,
                        0 <= stride,
                ;
            }
            lemma_lanes_blur_same::<T, B, F, G, LANES>(
                prev,
                now,
                before,
                now,
                start,
                stride as int,
                1,
                w,
                r,
                *to_blurrable,
                *to_pixel,
            );
            assert(start <= (g + 1) * n * stride) by (nonlinear_arith)
                requires
                    start == g * n * stride,
                    0 <= n,
                    0 <= stride,
                    0 <= g,
            ;
            assert forall|p: int|
                0 <= p < before.len() && (p >= (group + 1) * n * stride || !is_pixel(
                    p,
                    w,
                    h,
                    s,
                )) implies #[trigger] now[p] == before[p] by {
                assert(now[p] == prev[p]);
            }
        }
        group += 1;
    }
    ops
}

/// Blurs the columns of `buffer` in groups of `LANES`, as far as whole
/// groups go, in place.
pub(crate) fn blur_col_groups<
    T: Copy,
    B: StackBlurrable,
    F: Fn([&T; LANES]) -> B,
    G: Fn(B) -> [T; LANES],
    const LANES: usize,
>(buffer: &mut Image<T>, radius: usize, ops: VecDeque<B>, to_blurrable: &F, to_pixel: &G) -> (queue:
    VecDeque<B>)
    requires
        LANES > 0,
        old(buffer).wf(),
        old(buffer).width > 0,
        old(buffer).height > 0,
        radius_fits(radius),
        forall|refs: [&T; LANES]| call_requires(*to_blurrable, (refs,)),
        forall|b: B| call_requires(*to_pixel, (b,)),
    ensures
        final(buffer).width == old(buffer).width,
        final(buffer).height == old(buffer).height,
        final(buffer).stride == old(buffer).stride,
        final(buffer).buf@.len() == old(buffer).buf@.len(),
        forall|group: int|
            0 <= group < old(buffer).width / LANES ==> #[trigger] cols_group_blurred::<
                T,
                B,
                F,
                G,
                LANES,
            >(
                old(buffer).buf@,
                final(buffer).buf@,
                old(buffer).height as nat,
                old(buffer).stride as nat,
                radius as nat,
                *to_blurrable,
                *to_pixel,
                group,
            ),
        forall|p: int|
            0 <= p < old(buffer).buf@.len() && (p % (old(buffer).stride as int) >= old(
                buffer,
            ).width / LANES * LANES || !is_pixel(
                p,
                old(buffer).width as nat,
                old(buffer).height as nat,
                old(buffer).stride as nat,
            )) ==> #[trigger] final(buffer).buf@[p] == old(buffer).buf@[p],
{
    let width: usize = buffer.width;
    let height: usize = buffer.height;
    let stride: usize = buffer.stride;
    let groups: usize = width / LANES;
    let ghost before = buffer.buf@;
    let ghost w = width as nat;
    let ghost h = height as nat;
    let ghost s = stride as nat;
    let ghost r = radius as nat;
    let ghost n = LANES as int;
    let mut ops = ops;
    let mut group: usize = 0;
    proof {
        assert(buffer.buf.len() == before.len());
        vstd::arithmetic::div_mod::lemma_fundamental_div_mod(width as int, n);
        vstd::arithmetic::div_mod::lemma_mod_bound(width as int, n);
        assert(groups * n == n * groups) by (nonlinear_arith);
    }
    while group < groups
        invariant
            LANES > 0,
            n == LANES,
            group <= groups,
            groups * n <= width,
            0 < width <= stride,
            0 < height,
            (height - 1) * stride + width <= before.len() <= usize::MAX,
            buffer.width == width,
            buffer.height == height,
            buffer.stride == stride,
            buffer.buf@.len() == before.len(),
            before == old(buffer).buf@,
            w == width,
            h == height,
            s == stride,
            r == radius,
            radius_fits(radius),
            forall|refs: [&T; LANES]| call_requires(*to_blurrable, (refs,)),
            forall|b: B| call_requires(*to_pixel, (b,)),
            forall|done: int|
                0 <= done < group ==> #[trigger] cols_group_blurred::<T, B, F, G, LANES>(
                    before,
                    buffer.buf@,
                    h,
                    s,
                    r,
                    *to_blurrable,
                    *to_pixel,
                    done,
                ),
            forall|p: int|
                0 <= p < before.len() && (p % (stride as int) >= group * n || !is_pixel(p, w, h, s))
                    ==> #[trigger] buffer.buf@[p] == before[p],
        decreases groups - group,
    {
        let ghost prev = buffer.buf@;
        let ghost g = group as int;
        let ghost start = g * n;
        proof {
            assert((g + 1) * n <= groups * n) by (nonlinear_arith)
                requires
                    g + 1 <= groups,
                    0 <= n,
            ;
            assert((g + 1) * n == g * n + n) by (nonlinear_arith);
            assert forall|lane: int, k: int| 0 <= lane < n && 0 <= k < height implies 0
                <= #[trigger] lanes_index(start, 1, stride as int, lane, k) < before.len() by {
                lemma_col_group_index(g, lane, k, n, width as int, height as int, stride as int);
            }
            assert forall|lane: int, k: int, other: int, j: int|
                0 <= lane < n && 0 <= k < height && 0 <= other < n && 0 <= j < height && (lane
                    != other || k != j) implies #[trigger] lanes_index(
                start,
                1,
                stride as int,
                lane,
                k,
            ) != #[trigger] lanes_index(start, 1, stride as int, other, j) by {
                lemma_col_group_index(g, lane, k, n, width as int, height as int, stride as int);
                lemma_col_group_index(g, other, j, n, width as int, height as int, stride as int);
            }
            lemma_col_group_index(g, 0, 0, n, width as int, height as int, stride as int);
            assert(group * LANES == start);
        }
        ops = blur_lines::<T, B, F, G, LANES>(
            &mut buffer.buf,
            group * LANES,
            1,
            stride,
            height,
            radius,
            ops,
            to_blurrable,
            to_pixel,
        );
        proof {
            let now = buffer.buf@;
            // what lies on no line of this group is as it was
            assert forall|p: int|
                0 <= p < before.len() && (p % (stride as int) < start || p % (stride as int) >= (g
                    + 1) * n || !is_pixel(p, w, h, s)) implies now[p] == prev[p] by {
                assert forall|lane: int, k: int| 0 <= lane < n && 0 <= k < height implies p
                    != #[trigger] lanes_index(start, 1, stride as int, lane, k) by {
                    lemma_col_group_index(g, lane, k, n, width as int, height as int, stride as int);
                }
            }
            // so the groups before this one are still blurred
            assert forall|done: int| 0 <= done < group implies #[trigger] cols_group_blurred::<
                T,
                B,
                F,
                G,
                LANES,
            >(before, now, h, s, r, *to_blurrable, *to_pixel, done) by {
                assert(cols_group_blurred::<T, B, F, G, LANES>(
                    before,
                    prev,
                    h,
                    s,
                    r,
                    *to_blurrable,
                    *to_pixel,
                    done,
                ));
                assert forall|lane: int, k: int|
                    0 <= lane < n && 0 <= k < height implies
                    prev[#[trigger] lanes_index(
                    done * n,
                    1,
                    stride as int,
                    lane,
                    k,
                )] == now[lanes_index(done * n, 1, stride as int, lane, k)] by {
                    assert((done + 1) * n <= g * n) by (nonlinear_arith)
                        requires
                            done + 1 <= g,
                            0 <= n,
                    ;
                    assert((done + 1) * n == done * n + n) by (nonlinear_arith);
                    lemma_col_group_index(
                        done,
                        lane,
                        k,
                        n,
                        width as int,
                        height as int,
                        stride as int,
                    );
                }
                lemma_lanes_blur_same::<T, B, F, G, LANES>(
                    before,
                    prev,
                    before,
                    now,
                    done * n,
                    1,
                    stride as int,
                    h,
                    r,
                    *to_blurrable,
                    *to_pixel,
                );
            }
            // and this one is blurred from what the buffer first held
            assert forall|lane: int, k: int|
                0 <= lane < n && 0 <= k < height implies
                prev[#[trigger] lanes_index(
                start,
                1,
                stride as int,
                lane,
                k,
            )] == before[lanes_index(start, 1, stride as int, lane, k)] by {
                lemma_col_group_index(g, lane, k, n, width as int, height as int, stride as int);
            }
            lemma_lanes_blur_same::<T, B, F, G, LANES>(
                prev,
                now,
                before,
                now,
                start,
                1,
                stride as int,
                h,
                r,
                *to_blurrable,
                *to_pixel,
            );
            assert forall|p: int|
                0 <= p < before.len() && (p % (stride as int) >= (group + 1) * n || !is_pixel(
                    p,
                    w,
                    h,
                    s,
                )) implies #[trigger] now[p] == before[p] by {
                assert(now[p] == prev[p]);
            }
        }
        group += 1;
    }
    ops
}

} // verus!
