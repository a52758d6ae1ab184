use stackblur_iter::color::serial::StackBlurrableU32;
use stackblur_iter::color::simd::StackBlurrableU32xN;
use stackblur_iter::color::Argb;
use stackblur_iter::cvt::{
    AsStackBlurrable, AsStackBlurrableSimd, AsStackBlurrableSrgb, AsStackBlurrableSrgbSimd,
};
use stackblur_iter::traits::StackBlurrable;

fn channels(pixel: Argb<StackBlurrableU32, 4>) -> [u32; 4] {
    [pixel.0[0].0, pixel.0[1].0, pixel.0[2].0, pixel.0[3].0]
}

#[test]
fn single_channel_wraps() {
    let a = StackBlurrableU32(u32::MAX);
    assert_eq!(a.add(StackBlurrableU32(2)), StackBlurrableU32(1));
    assert_eq!(StackBlurrableU32(1).sub(StackBlurrableU32(2)), StackBlurrableU32(u32::MAX));
    assert_eq!(StackBlurrableU32(0x8000_0001).mul(2), StackBlurrableU32(2));
    assert_eq!(StackBlurrableU32(7).mul(0), StackBlurrableU32(0));
    assert_eq!(StackBlurrableU32(100).div(7), StackBlurrableU32(14));
    assert_eq!(StackBlurrableU32(100).div(1), StackBlurrableU32(100));
    assert_eq!(StackBlurrableU32::zero(), StackBlurrableU32(0));
    let mut b = StackBlurrableU32(5);
    b.add_assign(StackBlurrableU32(6));
    assert_eq!(b, StackBlurrableU32(11));
    b.sub_assign(StackBlurrableU32(12));
    assert_eq!(b, StackBlurrableU32(u32::MAX));
}

#[test]
fn single_channel_divides_by_large_numbers() {
    if usize::BITS > 32 {
        let big = (1u64 << 32) as usize;
        assert_eq!(StackBlurrableU32(u32::MAX).div(big), StackBlurrableU32(0));
        assert_eq!(StackBlurrableU32(u32::MAX).div(big + 1), StackBlurrableU32(0));
        // multiplying by a number beyond 32 bits wraps as the product does
        assert_eq!(StackBlurrableU32(3).mul(big + 5), StackBlurrableU32(15));
    }
}

#[test]
fn lanes_wrap_one_by_one() {
    let a = StackBlurrableU32xN::<3>([u32::MAX, 1, 10]);
    let b = StackBlurrableU32xN::<3>([1, 2, 3]);
    assert_eq!(a.add(b), StackBlurrableU32xN([0, 3, 13]));
    assert_eq!(a.sub(b), StackBlurrableU32xN([u32::MAX - 1, u32::MAX, 7]));
    assert_eq!(a.mul(2), StackBlurrableU32xN([u32::MAX - 1, 2, 20]));
    assert_eq!(a.div(3), StackBlurrableU32xN([u32::MAX / 3, 0, 3]));
    assert_eq!(StackBlurrableU32xN::<3>::zero(), StackBlurrableU32xN([0, 0, 0]));
    let mut c = a;
    c.add_assign(b);
    c.sub_assign(b);
    assert_eq!(c, a);
}

#[test]
fn pixel_channels_go_side_by_side() {
    let a = Argb([StackBlurrableU32(1), StackBlurrableU32(u32::MAX), StackBlurrableU32(30)]);
    let b = Argb([StackBlurrableU32(4), StackBlurrableU32(1), StackBlurrableU32(31)]);
    assert_eq!(a.add(b).0, [StackBlurrableU32(5), StackBlurrableU32(0), StackBlurrableU32(61)]);
    assert_eq!(
        a.sub(b).0,
        [StackBlurrableU32(u32::MAX - 2), StackBlurrableU32(u32::MAX - 1), StackBlurrableU32(u32::MAX)]
    );
    assert_eq!(a.mul(3).0, [StackBlurrableU32(3), StackBlurrableU32(u32::MAX - 2), StackBlurrableU32(90)]);
    assert_eq!(a.div(2).0, [StackBlurrableU32(0), StackBlurrableU32(u32::MAX / 2), StackBlurrableU32(15)]);
    assert_eq!(Argb::<StackBlurrableU32, 3>::zero().0, [StackBlurrableU32(0); 3]);
    let mut c = a;
    c.add_assign(b);
    c.sub_assign(b);
    assert_eq!(c.0, a.0);
    assert_eq!(a.clone().0, a.0);
}

#[test]
fn packed_pixel_comes_apart_from_the_top_byte_down() {
    let pixel = Argb::from_u32(0x1234_5678);
    assert_eq!(channels(pixel), [0x12, 0x34, 0x56, 0x78]);
    assert_eq!(channels(Argb::from_u32(0)), [0, 0, 0, 0]);
    assert_eq!(channels(Argb::from_u32(u32::MAX)), [255, 255, 255, 255]);
}

#[test]
fn packing_keeps_the_low_byte_of_each_channel() {
    let pixel = Argb([
        StackBlurrableU32(0x1FF),
        StackBlurrableU32(0x02),
        StackBlurrableU32(0xABCD_EF03),
        StackBlurrableU32(0x104),
    ]);
    assert_eq!(pixel.to_u32(), 0xFF02_0304);
}

#[test]
fn packed_pixel_round_trips() {
    for argb in [0u32, 1, 0x0102_0304, 0xFF00_FF00, 0x8000_0001, u32::MAX] {
        assert_eq!(Argb::from_u32(argb).to_u32(), argb);
        assert_eq!(Argb::from_u32_srgb(argb).to_u32_srgb(), argb);
    }
}

#[test]
fn srgb_colours_are_made_linear_and_alpha_is_not() {
    let pixel = Argb::from_u32_srgb(0x80FF_8001);
    assert_eq!(channels(pixel), [0x80, 4095, 884, 1]);
    assert_eq!(channels(Argb::from_u32_srgb(0xFF00_0000)), [255, 0, 0, 0]);
}

#[test]
fn linear_colours_are_taken_back_to_srgb() {
    let pixel = Argb([
        StackBlurrableU32(0x80),
        StackBlurrableU32(4095),
        StackBlurrableU32(884),
        StackBlurrableU32(0),
    ]);
    assert_eq!(pixel.to_u32_srgb(), 0x80FF_8000);
    // half of full linear light is brighter than half of full sRGB
    let half = Argb([
        StackBlurrableU32(0),
        StackBlurrableU32(2000),
        StackBlurrableU32(2000),
        StackBlurrableU32(2000),
    ]);
    assert_eq!(half.to_u32_srgb(), 0x00B9_B9B9);
}

#[test]
fn several_pixels_come_apart_lane_by_lane() {
    let pixel = Argb::from_u32xN([0x0102_0304, 0xA0B0_C0D0, 0xFFFF_FFFF]);
    assert_eq!(pixel.0[0].0, [0x01, 0xA0, 0xFF]);
    assert_eq!(pixel.0[1].0, [0x02, 0xB0, 0xFF]);
    assert_eq!(pixel.0[2].0, [0x03, 0xC0, 0xFF]);
    assert_eq!(pixel.0[3].0, [0x04, 0xD0, 0xFF]);
    assert_eq!(pixel.to_u32xN(), [0x0102_0304, 0xA0B0_C0D0, 0xFFFF_FFFF]);
}

#[test]
fn several_srgb_pixels_come_apart_lane_by_lane() {
    let pixel = Argb::from_u32xN_srgb([0x80FF_8001, 0x0000_0000]);
    assert_eq!(pixel.0[0].0, [0x80, 0]);
    assert_eq!(pixel.0[1].0, [4095, 0]);
    assert_eq!(pixel.0[2].0, [884, 0]);
    assert_eq!(pixel.0[3].0, [1, 0]);
    assert_eq!(pixel.to_u32xN_srgb(), [0x80FF_8001, 0x0000_0000]);
}

#[test]
fn several_pixels_pack_the_low_bits_of_each_lane() {
    let pixel = Argb([
        StackBlurrableU32xN([0x1FF, 0x00]),
        StackBlurrableU32xN([0x02, 0x1_0000 + 4095]),
        StackBlurrableU32xN([0x103, 884]),
        StackBlurrableU32xN([0x04, 0]),
    ]);
    assert_eq!(pixel.to_u32xN(), [0xFF02_0304, 0x00FF_7400]);
    assert_eq!(pixel.to_u32xN_srgb()[1], 0x00FF_8000);
}

#[test]
fn conversions_of_a_packed_pixel() {
    let px: u32 = 0x80FF_8001;
    assert_eq!(channels(px.as_stackblurrable()), [0x80, 0xFF, 0x80, 0x01]);
    assert_eq!(u32::from_stackblurrable(px.as_stackblurrable()), px);
    assert_eq!(channels(px.as_stackblurrable_srgb()), [0x80, 4095, 884, 1]);
    assert_eq!(u32::from_stackblurrable_srgb(px.as_stackblurrable_srgb()), px);
}

#[test]
fn conversions_of_several_packed_pixels() {
    let a: u32 = 0x0102_0304;
    let b: u32 = 0x80FF_8001;
    let both = <u32 as AsStackBlurrableSimd<2>>::as_stackblurrable_simd([&a, &b]);
    assert_eq!(both.0[1].0, [0x02, 0xFF]);
    assert_eq!(<u32 as AsStackBlurrableSimd<2>>::from_stackblurrable_simd(both), [a, b]);
    let both = <u32 as AsStackBlurrableSrgbSimd<2>>::as_stackblurrable_srgb_simd([&a, &b]);
    assert_eq!(both.0[0].0, [0x01, 0x80]);
    assert_eq!(both.0[1].0[1], 4095);
    assert_eq!(<u32 as AsStackBlurrableSrgbSimd<2>>::from_stackblurrable_srgb_simd(both), [a, b]);
}

#[test]
fn pixels_compare_and_start_at_nothing() {
    let zero: Argb<StackBlurrableU32, 4> = Argb::default();
    assert_eq!(zero, Argb([StackBlurrableU32(0); 4]));
    assert_eq!(zero, Argb::zero());
    assert_ne!(zero, Argb::from_u32(1));
    assert_eq!(Argb::from_u32(0x0A0B_0C0D).add(zero), Argb::from_u32(0x0A0B_0C0D));
    assert_eq!(StackBlurrableU32::default(), StackBlurrableU32(0));
}
