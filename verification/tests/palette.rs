use asmimg::palette::{encode_palette, pack_color};
use asmimg::pixel::{LumaA, Pixel, Rgba};
use asmimg::sample::{scale, scale_nearest, Sample};

#[test]
fn red_packs_to_full_red_field() {
    let word = pack_color(Rgba { r: 255u8, g: 0, b: 0, a: 255 }, false);
    assert_eq!(word, 0x001F);
    assert_eq!(word & 0x1F, 31);
    assert_eq!(word >> 15, 0);
}

#[test]
fn fields_of_a_color_word() {
    assert_eq!(pack_color(Rgba { r: 0u8, g: 255, b: 0, a: 255 }, false), 0x03E0);
    assert_eq!(pack_color(Rgba { r: 0u8, g: 0, b: 255, a: 255 }, false), 0x7C00);
    assert_eq!(pack_color(Rgba { r: 255u8, g: 255, b: 255, a: 255 }, false), 0x7FFF);
    assert_eq!(pack_color(Rgba { r: 255u8, g: 255, b: 255, a: 255 }, true), 0xFFFF);
    assert_eq!(pack_color(Rgba { r: 0u8, g: 0, b: 0, a: 255 }, true), 0x8000);
    assert_eq!(pack_color(Rgba { r: 0u8, g: 0, b: 0, a: 0 }, true), 0x0000);
}

#[test]
fn channels_lose_their_low_three_bits() {
    assert_eq!(pack_color(Rgba { r: 7u8, g: 7, b: 7, a: 255 }, false), 0x0000);
    assert_eq!(pack_color(Rgba { r: 8u8, g: 15, b: 16, a: 255 }, false), 0x0821);
    assert_eq!(pack_color(Rgba { r: 0xF8u8, g: 0xF7, b: 0x80, a: 255 }, false), 0x43DF);
}

#[test]
fn alpha_flag_follows_the_top_bit_of_alpha() {
    assert_eq!(pack_color(Rgba { r: 0u8, g: 0, b: 0, a: 127 }, true), 0x0000);
    assert_eq!(pack_color(Rgba { r: 0u8, g: 0, b: 0, a: 128 }, true), 0x8000);
    assert_eq!(pack_color(Rgba { r: 0u8, g: 0, b: 0, a: 128 }, false), 0x0000);
}

#[test]
fn palette_bytes_are_little_endian() {
    let colors = vec![Rgba { r: 0xF8u8, g: 0xF7, b: 0x80, a: 255 }, Rgba { r: 255u8, g: 0, b: 0, a: 255 }];
    assert_eq!(encode_palette(&colors, false), vec![0xDF, 0x43, 0x1F, 0x00]);
    assert_eq!(encode_palette(&colors, true), vec![0xDF, 0xC3, 0x1F, 0x80]);
    let none: Vec<Rgba<u8>> = Vec::new();
    assert_eq!(encode_palette(&none, true), Vec::<u8>::new());
}

#[test]
fn sixteen_bit_channels_scale_through_their_maximum() {
    assert_eq!(pack_color(Rgba { r: 0xFFFFu16, g: 0, b: 0, a: 0 }, false), 0x001F);
    // 0x0807 comes to 7, 0x0808 to 8
    assert_eq!(pack_color(Rgba { r: 0x0807u16, g: 0, b: 0, a: 0 }, false), 0x0000);
    assert_eq!(pack_color(Rgba { r: 0x0808u16, g: 0, b: 0, a: 0 }, false), 0x0001);
    // 0x807F comes to 127, 0x8080 to 128
    assert_eq!(pack_color(Rgba { r: 0u16, g: 0, b: 0, a: 0x807F }, true), 0x0000);
    assert_eq!(pack_color(Rgba { r: 0u16, g: 0, b: 0, a: 0x8080 }, true), 0x8000);
}

#[test]
fn scaling_rounds_down() {
    assert_eq!(scale(0, 255, 15), 0);
    assert_eq!(scale(255, 255, 15), 15);
    assert_eq!(scale(254, 255, 15), 14);
    assert_eq!(scale(17, 255, 15), 1);
    assert_eq!(scale(16, 255, 15), 0);
    assert_eq!(scale(111, 255, 255), 111);
    assert_eq!(scale(1, 15, 255), 17);
    assert_eq!(scale(6, 7, 255), 218);
    assert_eq!(scale(7, 7, 255), 255);
    assert_eq!(scale(0xFFFF_FFFF, 0xFFFF_FFFF, 0xFFFF_FFFF), 0xFFFF_FFFF);
    assert_eq!(scale(0x8000, 0xFFFF, 255), 127);
}

#[test]
fn scaling_to_the_nearest() {
    assert_eq!(scale_nearest(1, 16, 255), 16);
    assert_eq!(scale_nearest(1, 2, 255), 128);
    assert_eq!(scale_nearest(6, 7, 255), 219);
    assert_eq!(scale_nearest(0, 7, 255), 0);
    assert_eq!(scale_nearest(7, 7, 255), 255);
    assert_eq!(scale_nearest(111, 255, 255), 111);
    assert_eq!(scale_nearest(0xFFFF_FFFF, 0xFFFF_FFFF, 0xFFFF_FFFF), 0xFFFF_FFFF);
    assert_eq!(scale_nearest(0x8000, 0xFFFF, 255), 128);
}

#[test]
fn luminance_weighs_the_channels() {
    // 2126, 7152 and 722 parts in 10000, rounded down
    assert_eq!(<u8 as Sample>::rgba_to_luma_alpha(255, 0, 0, 9), (54, 9));
    assert_eq!(<u8 as Sample>::rgba_to_luma_alpha(0, 255, 0, 9), (182, 9));
    assert_eq!(<u8 as Sample>::rgba_to_luma_alpha(0, 0, 255, 9), (18, 9));
    assert_eq!(<u8 as Sample>::rgba_to_luma_alpha(12, 200, 77, 0), (151, 0));
    assert_eq!(<u16 as Sample>::rgba_to_luma_alpha(0xFFFF, 0, 0, 1), (13932, 1));
    assert_eq!(<u16 as Sample>::rgba_to_luma_alpha(1200, 20000, 7700, 2), (15115, 2));
    assert_eq!(<u32 as Sample>::rgba_to_luma_alpha(0xFFFF_FFFF, 0, 0, 3), (913110046, 3));
    assert_eq!(<u32 as Sample>::rgba_to_luma_alpha(0, 0xFFFF_FFFF, 0xFFFF_FFFF, 4), (3381857248, 4));
    for v in [0u8, 1, 77, 128, 254, 255] {
        assert_eq!(Rgba { r: v, g: v, b: v, a: 5u8 }.to_luma_alpha(), LumaA { luma: v, alpha: 5 });
    }
    for v in [0u32, 1, 0x8000_0000, 0xFFFF_FFFF] {
        assert_eq!(Rgba { r: v, g: v, b: v, a: 5u32 }.to_luma_alpha(), LumaA { luma: v, alpha: 5 });
    }
    // every eight-bit colour on a coarse grid
    for r in (0..=255u32).step_by(15) {
        for g in (0..=255u32).step_by(15) {
            for b in (0..=255u32).step_by(15) {
                let want = ((2126 * r + 7152 * g + 722 * b) / 10000) as u8;
                assert_eq!(<u8 as Sample>::rgba_to_luma_alpha(r as u8, g as u8, b as u8, 0).0, want);
            }
        }
    }
}

#[test]
fn thirty_two_bit_samples() {
    assert_eq!(<u32 as Sample>::max_value(), 0xFFFF_FFFF);
    assert_eq!(0x8000_0000u32.to_u32(), 0x8000_0000);
    assert_eq!(<u32 as Sample>::from_u32(7), 7u32);
    assert_eq!(pack_color(Rgba { r: 0xFFFF_FFFFu32, g: 0x8000_0000, b: 0, a: 0x8080_8080 }, true), 0x81FF);
    let want = image::Pixel::to_luma_alpha(&image::Rgba([5u32, 0xFFFF_FFFF, 70000, 9])).0;
    assert_eq!(Rgba { r: 5u32, g: 0xFFFF_FFFF, b: 70000, a: 9 }.to_luma_alpha(), LumaA { luma: want[0], alpha: 9 });
}

#[test]
fn sample_types_and_their_maxima() {
    assert_eq!(<u8 as Sample>::max_value(), 255);
    assert_eq!(<u16 as Sample>::max_value(), 65535);
    assert_eq!(200u8.to_u32(), 200);
    assert_eq!(40000u16.to_u32(), 40000);
    assert_eq!(<u8 as Sample>::from_u32(200), 200u8);
    assert_eq!(<u16 as Sample>::from_u32(40000), 40000u16);
}

#[test]
fn gray_pixels_read_as_colors() {
    let p = LumaA { luma: 9u8, alpha: 4 };
    assert_eq!(p.to_rgba(), Rgba { r: 9, g: 9, b: 9, a: 4 });
    assert_eq!(p.to_luma_alpha(), p);
    let c = Rgba { r: 1u16, g: 2, b: 3, a: 4 };
    assert_eq!(c.to_rgba(), c);
}

#[test]
fn colors_read_as_gray_keep_alpha_and_follow_the_image_crate() {
    let colors = [(255u8, 0u8, 0u8), (0, 255, 0), (0, 0, 255), (12, 200, 77), (255, 255, 255), (0, 0, 0)];
    for (r, g, b) in colors {
        let want = image::Pixel::to_luma_alpha(&image::Rgba([r, g, b, 99u8])).0;
        let got = Rgba { r, g, b, a: 99u8 }.to_luma_alpha();
        assert_eq!(got, LumaA { luma: want[0], alpha: 99 });
        assert_eq!(want[1], 99);
        assert_eq!(<u8 as Sample>::rgba_to_luma_alpha(r, g, b, 3), (want[0], 3));
    }
    // pure red is darker than its red channel is bright
    assert!(Rgba { r: 255u8, g: 0, b: 0, a: 255 }.to_luma_alpha().luma < 128);
    assert_eq!(Rgba { r: 255u8, g: 255, b: 255, a: 0 }.to_luma_alpha(), LumaA { luma: 255, alpha: 0 });
}

#[test]
fn sixteen_bit_colors_read_as_gray_follow_the_image_crate() {
    let colors = [(0xFFFFu16, 0u16, 0u16), (0, 0xFFFF, 0), (0, 0, 0xFFFF), (1200, 20000, 7700)];
    for (r, g, b) in colors {
        let want = image::Pixel::to_luma_alpha(&image::Rgba([r, g, b, 7u16])).0;
        let got = Rgba { r, g, b, a: 7u16 }.to_luma_alpha();
        assert_eq!(got, LumaA { luma: want[0], alpha: want[1] });
        assert_eq!(want[1], 7);
    }
    assert!(Rgba { r: 0u16, g: 0, b: 0xFFFF, a: 0 }.to_luma_alpha().luma < 0x8000);
    assert_eq!(Rgba { r: 0xFFFFu16, g: 0xFFFF, b: 0xFFFF, a: 1 }.to_luma_alpha().luma, 0xFFFF);
}

#[test]
fn gray_pixels_read_as_colors_like_the_image_crate() {
    for (l, a) in [(0u8, 0u8), (9, 4), (200, 255), (255, 1)] {
        let want = image::Pixel::to_rgba(&image::LumaA([l, a])).0;
        let got = LumaA { luma: l, alpha: a }.to_rgba();
        assert_eq!([got.r, got.g, got.b, got.a], want);
    }
    let want = image::Pixel::to_rgba(&image::LumaA([40000u16, 7u16])).0;
    let got = LumaA { luma: 40000u16, alpha: 7u16 }.to_rgba();
    assert_eq!([got.r, got.g, got.b, got.a], want);
}
