use stackblur_iter::color::serial::StackBlurrableU32;
use stackblur_iter::color::simd::StackBlurrableU32xN;
use stackblur_iter::color::Argb;
use stackblur_iter::image::Image;
use stackblur_iter::iter::StackBlur;
use stackblur_iter::{
    blur, blur_argb, blur_horiz, blur_srgb, blur_vert, simd_blur, simd_blur_argb, simd_blur_horiz,
    simd_blur_srgb, simd_blur_vert,
};

fn pixels(len: usize, seed: u32) -> Vec<u32> {
    let mut state = seed;
    (0..len)
        .map(|_| {
            state = state.wrapping_mul(1_664_525).wrapping_add(1_013_904_223);
            state
        })
        .collect()
}

fn image(width: usize, height: usize, stride: usize, seed: u32) -> Image<u32> {
    Image { buf: pixels((height.max(1) - 1) * stride + width, seed), width, height, stride }
}

fn check_argb<const LANES: usize>(width: usize, height: usize, stride: usize, radius: usize) {
    let mut plain = image(width, height, stride, 7);
    let mut wide = image(width, height, stride, 7);
    blur_argb(&mut plain, radius);
    simd_blur_argb::<LANES>(&mut wide, radius);
    assert_eq!(wide.buf, plain.buf, "{LANES} lanes, {width} by {height}, radius {radius}");
}

fn check_srgb<const LANES: usize>(width: usize, height: usize, stride: usize, radius: usize) {
    let mut plain = image(width, height, stride, 11);
    let mut wide = image(width, height, stride, 11);
    blur_srgb(&mut plain, radius);
    simd_blur_srgb::<LANES>(&mut wide, radius);
    assert_eq!(wide.buf, plain.buf, "{LANES} lanes, {width} by {height}, radius {radius}");
}

#[test]
fn lanes_give_what_single_pixels_give() {
    for radius in [0usize, 1, 3, 9] {
        for (width, height) in [(1usize, 1usize), (5, 3), (8, 8), (9, 4), (3, 10), (16, 7)] {
            check_argb::<1>(width, height, width, radius);
            check_argb::<2>(width, height, width, radius);
            check_argb::<4>(width, height, width + 3, radius);
            check_argb::<8>(width, height, width, radius);
        }
    }
}

#[test]
fn lanes_give_what_single_srgb_pixels_give() {
    for radius in [0usize, 2, 5] {
        for (width, height) in [(1usize, 2usize), (6, 6), (7, 5), (4, 9)] {
            check_srgb::<2>(width, height, width + 1, radius);
            check_srgb::<4>(width, height, width, radius);
        }
    }
}

#[test]
fn more_lanes_than_lines() {
    check_argb::<16>(5, 3, 5, 2);
    check_srgb::<16>(3, 5, 4, 2);
}

#[test]
fn lanes_on_images_without_pixels() {
    let mut empty = Image { buf: vec![1u32, 2, 3], width: 0, height: 3, stride: 1 };
    simd_blur_argb::<4>(&mut empty, 2);
    assert_eq!(empty.buf, vec![1, 2, 3]);
    let mut empty = Image { buf: vec![1u32, 2, 3], width: 3, height: 0, stride: 3 };
    simd_blur_srgb::<4>(&mut empty, 2);
    assert_eq!(empty.buf, vec![1, 2, 3]);
}

#[test]
fn groups_and_leftovers_use_their_own_conversions() {
    // a single-channel image: groups of two lines through two lanes, the
    // odd line out through a single channel
    let (width, height, radius) = (5usize, 5usize, 1usize);
    let source: Vec<u32> = (0..(width * height) as u32).map(|i| i * i % 1000).collect();
    let mut plain = Image { buf: source.clone(), width, height, stride: width };
    blur(&mut plain, radius, |px: &u32| StackBlurrableU32(*px), |b: StackBlurrableU32| b.0);
    let mut wide = Image { buf: source, width, height, stride: width };
    simd_blur::<u32, StackBlurrableU32xN<2>, StackBlurrableU32, _, _, _, _, 2>(
        &mut wide,
        radius,
        |px: [&u32; 2]| StackBlurrableU32xN([*px[0], *px[1]]),
        |b: StackBlurrableU32xN<2>| b.0,
        |px: &u32| StackBlurrableU32(*px),
        |b: StackBlurrableU32| b.0,
    );
    assert_eq!(wide.buf, plain.buf);
}

#[test]
fn wide_values_blur_lane_by_lane() {
    let radius = 3;
    let left: Vec<u32> = pixels(20, 1).into_iter().map(|p| p >> 16).collect();
    let right: Vec<u32> = pixels(20, 2).into_iter().map(|p| p >> 16).collect();
    let single = |input: &[u32]| {
        let mut blur: StackBlur<StackBlurrableU32> = StackBlur::new(radius);
        let mut out = Vec::new();
        for &x in input {
            if let Some(y) = blur.feed(Some(StackBlurrableU32(x))) {
                out.push(y.0);
            }
        }
        while let Some(y) = blur.feed(None) {
            out.push(y.0);
        }
        out
    };
    let mut blur: StackBlur<Argb<StackBlurrableU32xN<2>, 1>> = StackBlur::new(radius);
    let mut out = Vec::new();
    for i in 0..20 {
        if let Some(y) = blur.feed(Some(Argb([StackBlurrableU32xN([left[i], right[i]])]))) {
            out.push(y.0[0].0);
        }
    }
    while let Some(y) = blur.feed(None) {
        out.push(y.0[0].0);
    }
    let expected: Vec<[u32; 2]> = single(&left).into_iter().zip(single(&right)).map(|(a, b)| [a, b]).collect();
    assert_eq!(out, expected);
}

#[test]
fn one_pass_of_lanes_is_one_pass_of_single_lines() {
    let (width, height, radius) = (7usize, 6usize, 2usize);
    let source: Vec<u32> = pixels(width * height, 3).into_iter().map(|p| p >> 12).collect();
    let single_in = |px: &u32| StackBlurrableU32(*px);
    let single_out = |b: StackBlurrableU32| b.0;
    let wide_in = |px: [&u32; 4]| StackBlurrableU32xN([*px[0], *px[1], *px[2], *px[3]]);
    let wide_out = |b: StackBlurrableU32xN<4>| b.0;

    let mut plain = Image { buf: source.clone(), width, height, stride: width };
    blur_horiz(&mut plain, radius, single_in, single_out);
    let mut wide = Image { buf: source.clone(), width, height, stride: width };
    simd_blur_horiz::<u32, StackBlurrableU32xN<4>, StackBlurrableU32, _, _, _, _, 4>(
        &mut wide, radius, wide_in, wide_out, single_in, single_out,
    );
    assert_eq!(wide.buf, plain.buf);
    assert_ne!(wide.buf, source);

    let mut plain = Image { buf: source.clone(), width, height, stride: width };
    blur_vert(&mut plain, radius, single_in, single_out);
    let mut wide = Image { buf: source.clone(), width, height, stride: width };
    simd_blur_vert::<u32, StackBlurrableU32xN<4>, StackBlurrableU32, _, _, _, _, 4>(
        &mut wide, radius, wide_in, wide_out, single_in, single_out,
    );
    assert_eq!(wide.buf, plain.buf);
    assert_ne!(wide.buf, source);
}
