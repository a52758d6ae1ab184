use stackblur_iter::color::serial::StackBlurrableU32;
use stackblur_iter::image::Image;
use std::cell::Cell;

use stackblur_iter::{blur, blur_argb, blur_horiz, blur_srgb, blur_vert};

fn tent(radius: usize, distance: usize) -> u64 {
    if distance > radius {
        0
    } else {
        (radius + 1 - distance) as u64
    }
}

fn reference_line(radius: usize, input: &[u32]) -> Vec<u32> {
    (0..input.len())
        .map(|i| {
            let mut sum: u64 = 0;
            let mut total: u64 = 0;
            for (j, &x) in input.iter().enumerate() {
                let w = tent(radius, if i > j { i - j } else { j - i });
                sum = (sum + (x as u64) * w) % (1u64 << 32);
                total += w;
            }
            (sum / total) as u32
        })
        .collect()
}

/// Rows first, then columns, on a copy; padding untouched.
fn reference_image(buf: &[u32], width: usize, height: usize, stride: usize, radius: usize) -> Vec<u32> {
    let mut out = buf.to_vec();
    for y in 0..height {
        let row: Vec<u32> = (0..width).map(|x| out[y * stride + x]).collect();
        for (x, v) in reference_line(radius, &row).into_iter().enumerate() {
            out[y * stride + x] = v;
        }
    }
    for x in 0..width {
        let col: Vec<u32> = (0..height).map(|y| out[y * stride + x]).collect();
        for (y, v) in reference_line(radius, &col).into_iter().enumerate() {
            out[y * stride + x] = v;
        }
    }
    out
}

fn blur_plain(image: &mut Image<u32>, radius: usize) {
    blur(image, radius, |px: &u32| StackBlurrableU32(*px), |b: StackBlurrableU32| b.0);
}

fn pattern(len: usize) -> Vec<u32> {
    (0..len).map(|i| ((i * 2_654_435_761) % 100_000) as u32).collect()
}

#[test]
fn bright_pixel_spreads_as_the_product_of_two_tents() {
    let (width, height, radius) = (9usize, 9usize, 2usize);
    let mut buf = vec![0u32; width * height];
    buf[4 * width + 4] = 8100;
    let mut image = Image { buf, width, height, stride: width };
    blur_plain(&mut image, radius);
    for y in 0..height {
        for x in 0..width {
            let dx = if x > 4 { x - 4 } else { 4 - x };
            let dy = if y > 4 { y - 4 } else { 4 - y };
            let expected = 100 * tent(radius, dx) * tent(radius, dy);
            assert_eq!(image.buf[y * width + x] as u64, expected, "at ({x}, {y})");
        }
    }
    let energy: u64 = image.buf.iter().map(|&v| v as u64).sum();
    assert_eq!(energy, 8100);
}

#[test]
fn bright_pixel_loses_little_to_rounding() {
    // far enough from every edge that no tent that reaches the pixel is cut off
    let (width, height, radius) = (16usize, 13usize, 3usize);
    let mut buf = vec![0u32; width * height];
    buf[6 * width + 7] = 1_000_003;
    let mut image = Image { buf, width, height, stride: width };
    blur_plain(&mut image, radius);
    let energy: u64 = image.buf.iter().map(|&v| v as u64).sum();
    assert!(energy <= 1_000_003);
    assert!(1_000_003 - energy <= (width * height) as u64);
    // the peak stays where the pixel was
    let peak = image.buf.iter().copied().max().unwrap();
    assert_eq!(image.buf[6 * width + 7], peak);
}

#[test]
fn image_blur_is_rows_then_columns() {
    for radius in 0..5 {
        let (width, height) = (7usize, 5usize);
        let buf = pattern(width * height);
        let expected = reference_image(&buf, width, height, width, radius);
        let mut image = Image { buf, width, height, stride: width };
        blur_plain(&mut image, radius);
        assert_eq!(image.buf, expected);
        assert_eq!((image.width, image.height, image.stride), (width, height, width));
    }
}

#[test]
fn padding_is_left_alone() {
    let (width, height, stride, radius) = (4usize, 3usize, 6usize, 2usize);
    // the last row may stop where its pixels stop
    let buf = pattern((height - 1) * stride + width);
    let expected = reference_image(&buf, width, height, stride, radius);
    let mut image = Image { buf: buf.clone(), width, height, stride };
    blur_plain(&mut image, radius);
    assert_eq!(image.buf, expected);
    for y in 0..height - 1 {
        for x in width..stride {
            assert_eq!(image.buf[y * stride + x], buf[y * stride + x]);
        }
    }
}

#[test]
fn images_without_pixels_are_left_alone() {
    let buf = pattern(10);
    let mut image = Image { buf: buf.clone(), width: 0, height: 5, stride: 2 };
    blur_plain(&mut image, 3);
    assert_eq!(image.buf, buf);
    let mut image = Image { buf: buf.clone(), width: 5, height: 0, stride: 5 };
    blur_plain(&mut image, 3);
    assert_eq!(image.buf, buf);
    let mut image: Image<u32> = Image { buf: Vec::new(), width: 0, height: 0, stride: 0 };
    blur_plain(&mut image, 0);
    assert!(image.buf.is_empty());
}

#[test]
fn single_row_and_single_column() {
    let buf = pattern(9);
    let mut image = Image { buf: buf.clone(), width: 9, height: 1, stride: 9 };
    blur_plain(&mut image, 2);
    assert_eq!(image.buf, reference_line(2, &buf));
    let mut image = Image { buf: buf.clone(), width: 1, height: 9, stride: 1 };
    blur_plain(&mut image, 2);
    assert_eq!(image.buf, reference_line(2, &buf));
}

#[test]
fn packed_pixels_blur_channel_by_channel() {
    let (width, height, radius) = (6usize, 4usize, 2usize);
    let buf: Vec<u32> = (0..width * height)
        .map(|i| ((i * 37 % 256) << 24 | (i * 91 % 256) << 16 | (i * 13 % 256) << 8 | (i * 201 % 256)) as u32)
        .collect();
    let mut expected = vec![0u32; buf.len()];
    for shift in [24u32, 16, 8, 0] {
        let plane: Vec<u32> = buf.iter().map(|&p| (p >> shift) & 0xFF).collect();
        let blurred = reference_image(&plane, width, height, width, radius);
        for (e, b) in expected.iter_mut().zip(blurred) {
            *e |= (b & 0xFF) << shift;
        }
    }
    let mut image = Image { buf, width, height, stride: width };
    blur_argb(&mut image, radius);
    assert_eq!(image.buf, expected);
}

#[test]
fn flat_packed_image_stays_flat() {
    let mut image = Image { buf: vec![0x80FF_4001u32; 35], width: 7, height: 5, stride: 7 };
    blur_argb(&mut image, 3);
    assert_eq!(image.buf, vec![0x80FF_4001u32; 35]);
    let mut image = Image { buf: vec![0x80FF_4001u32; 35], width: 7, height: 5, stride: 7 };
    blur_srgb(&mut image, 3);
    assert_eq!(image.buf, vec![0x80FF_4001u32; 35]);
}

#[test]
fn srgb_blur_mixes_in_linear_light() {
    // black next to white: the even mix of the two is brighter than sRGB 128
    let mut image = Image { buf: vec![0xFF00_0000u32, 0xFFFF_FFFF], width: 2, height: 1, stride: 2 };
    blur_srgb(&mut image, 1);
    // weights 2 and 1: (0 * 2 + 4095) / 3 = 1365 and (0 + 4095 * 2) / 3 = 2730
    assert_eq!(image.buf, vec![0xFF9C_9C9C, 0xFFD5_D5D5]);
    let mut image = Image { buf: vec![0xFF00_0000u32, 0xFFFF_FFFF], width: 2, height: 1, stride: 2 };
    blur_argb(&mut image, 1);
    assert_eq!(image.buf, vec![0xFF55_5555, 0xFFAA_AAAA]);
}

#[test]
fn rows_alone_and_columns_alone() {
    let (width, height, stride, radius) = (5usize, 4usize, 7usize, 2usize);
    let buf = pattern((height - 1) * stride + width);
    let into = |px: &u32| StackBlurrableU32(*px);
    let back = |b: StackBlurrableU32| b.0;

    let mut rows = Image { buf: buf.clone(), width, height, stride };
    blur_horiz(&mut rows, radius, into, back);
    for y in 0..height {
        let line: Vec<u32> = (0..width).map(|x| buf[y * stride + x]).collect();
        let expected = reference_line(radius, &line);
        for x in 0..width {
            assert_eq!(rows.buf[y * stride + x], expected[x]);
        }
    }

    let mut cols = Image { buf: buf.clone(), width, height, stride };
    blur_vert(&mut cols, radius, into, back);
    for x in 0..width {
        let line: Vec<u32> = (0..height).map(|y| buf[y * stride + x]).collect();
        let expected = reference_line(radius, &line);
        for y in 0..height {
            assert_eq!(cols.buf[y * stride + x], expected[y]);
        }
    }

    // the two passes one after the other are the whole blur
    blur_vert(&mut rows, radius, into, back);
    let mut both = Image { buf, width, height, stride };
    blur_plain(&mut both, radius);
    assert_eq!(rows.buf, both.buf);
}

#[test]
fn conversions_are_applied_once_per_pixel_and_pass() {
    let reads = Cell::new(0usize);
    let writes = Cell::new(0usize);
    let mut image = Image { buf: pattern(12), width: 4, height: 3, stride: 4 };
    blur(
        &mut image,
        1,
        |px: &u32| {
            reads.set(reads.get() + 1);
            StackBlurrableU32(*px)
        },
        |b: StackBlurrableU32| {
            writes.set(writes.get() + 1);
            b.0
        },
    );
    assert_eq!(reads.get(), 24);
    assert_eq!(writes.get(), 24);
}

#[test]
fn buffer_must_hold_its_rows() {
    let image = |len: usize, width: usize, height: usize, stride: usize| Image {
        buf: vec![0u32; len],
        width,
        height,
        stride,
    };
    assert!(image(12, 4, 3, 4).is_wf());
    assert!(image(11, 4, 3, 4).is_wf() == false);
    // the last row needs no padding
    assert!(image(16, 4, 3, 6).is_wf());
    assert!(image(15, 4, 3, 6).is_wf() == false);
    // a row cannot be wider than the stride
    assert!(image(100, 5, 3, 4).is_wf() == false);
    // nothing is needed for no pixels
    assert!(image(0, 0, 9, 0).is_wf());
    assert!(image(0, 9, 0, 9).is_wf());
    assert!(image(0, 1, usize::MAX, usize::MAX).is_wf() == false);
}

#[test]
fn parts_are_cut_out_and_put_back() {
    let (width, height, stride) = (5usize, 4usize, 7usize);
    let buf = pattern((height - 1) * stride + width);
    let image = Image { buf: buf.clone(), width, height, stride };
    let part = image.crop(1, 2, 3, 2);
    assert_eq!((part.width, part.height, part.stride), (3, 2, 3));
    assert!(part.is_wf());
    let expected: Vec<u32> =
        (0..6).map(|i| buf[(2 + i / 3) * stride + 1 + i % 3]).collect();
    assert_eq!(part.buf, expected);

    let mut blank = Image { buf: vec![0u32; buf.len()], width, height, stride };
    blank.paste(1, 2, &part);
    for (p, &v) in blank.buf.iter().enumerate() {
        let (y, x) = (p / stride, p % stride);
        let inside = (2..4).contains(&y) && (1..4).contains(&x);
        assert_eq!(v, if inside { buf[p] } else { 0 });
    }
    // rows and columns are parts too
    assert_eq!(image.crop(0, 1, width, 1).buf, buf[stride..stride + width].to_vec());
    let column: Vec<u32> = (0..height).map(|y| buf[y * stride + 4]).collect();
    assert_eq!(image.crop(4, 0, 1, height).buf, column);
    // a part of nothing is nothing
    assert!(image.crop(2, 2, 0, 2).buf.is_empty());
    assert!(image.crop(5, 4, 0, 0).buf.is_empty());
}

#[test]
fn parts_blurred_one_by_one_make_the_whole_blur() {
    let (width, height, stride, radius) = (6usize, 5usize, 6usize, 2usize);
    let source = pattern(width * height);
    let into = |px: &u32| StackBlurrableU32(*px);
    let back = |b: StackBlurrableU32| b.0;
    let mut whole = Image { buf: source.clone(), width, height, stride };
    blur_plain(&mut whole, radius);
    let mut pieces = Image { buf: source, width, height, stride };
    for y in 0..height {
        let mut row = pieces.crop(0, y, width, 1);
        blur_horiz(&mut row, radius, into, back);
        pieces.paste(0, y, &row);
    }
    for x in 0..width {
        let mut col = pieces.crop(x, 0, 1, height);
        blur_vert(&mut col, radius, into, back);
        pieces.paste(x, 0, &col);
    }
    assert_eq!(pieces.buf, whole.buf);
}

#[test]
fn lone_packed_pixel_spreads_as_two_tents() {
    let (width, height, radius) = (7usize, 6usize, 2usize);
    let (x0, y0) = (1usize, 4usize);
    let divisor = |len: usize, at: usize| -> u64 {
        (0..len).map(|j| tent(radius, if at > j { at - j } else { j - at })).sum()
    };
    let spread = |channel: u64, from: usize, at: usize, len: usize| -> u64 {
        let distance = if from > at { from - at } else { at - from };
        channel * tent(radius, distance) / divisor(len, at) % 256
    };
    let pixel: u32 = 0xC8FF_6401;
    let mut buf = vec![0u32; width * height];
    buf[y0 * width + x0] = pixel;
    let mut image = Image { buf, width, height, stride: width };
    blur_argb(&mut image, radius);
    for y in 0..height {
        for x in 0..width {
            let mut expected = 0u32;
            for shift in [24u32, 16, 8, 0] {
                let channel = ((pixel >> shift) & 0xFF) as u64;
                let along_row = spread(channel, x0, x, width);
                let along_col = spread(along_row, y0, y, height);
                expected |= (along_col as u32) << shift;
            }
            assert_eq!(image.buf[y * width + x], expected, "at ({x}, {y})");
        }
    }
}

#[test]
fn bright_pixel_in_five_by_five() {
    let mut buf = vec![0u32; 25];
    buf[12] = 1600;
    let mut image = Image { buf, width: 5, height: 5, stride: 5 };
    blur_plain(&mut image, 1);
    let expected: Vec<u32> = [
        [0, 0, 0, 0, 0],
        [0, 100, 200, 100, 0],
        [0, 200, 400, 200, 0],
        [0, 100, 200, 100, 0],
        [0, 0, 0, 0, 0],
    ]
    .concat();
    assert_eq!(image.buf, expected);
    assert_eq!(image.buf.iter().sum::<u32>(), 1600);
}

#[test]
fn bright_pixel_at_an_edge_gains_weight() {
    // the tents that reach the pixel are cut off, and divide by less
    let mut buf = vec![0u32; 9];
    buf[4] = 240;
    let mut image = Image { buf, width: 3, height: 3, stride: 3 };
    blur_plain(&mut image, 1);
    assert_eq!(image.buf, vec![26, 40, 26, 40, 60, 40, 26, 40, 26]);
    assert_eq!(image.buf.iter().sum::<u32>(), 324);
}
