use asmimg::conversion::{
    ceil_sqrt_of, index_of_luma, indexes_from_luma, luma_from_indexes, luma_of_index,
};
use asmimg::pixel::{LumaA, Pixel, Rgba};
use asmimg::raster::Raster;

fn gray_image(width: u32, height: u32, f: fn(u32, u32) -> LumaA<u8>) -> Raster<LumaA<u8>> {
    let mut pixels = Vec::new();
    for y in 0..height {
        for x in 0..width {
            pixels.push(f(x, y));
        }
    }
    Raster::from_vec(width, height, pixels).unwrap()
}

#[test]
fn conv_roundtrip_test() {
    let test_input: Raster<LumaA<u8>> = gray_image(16, 16, |x, y| {
        let l: u8 = (y * 16 + x) as u8;

        LumaA { luma: l, alpha: 255u8 }
    });

    let test_mid = indexes_from_luma(&test_input, 255, (8, 8));

    assert_eq!(test_mid.len(), 256);

    let test_output = luma_from_indexes(test_mid, 255, (8, 8), Some((16, 16))).unwrap();

    let mut grays0: Vec<u8> = Vec::with_capacity(255);
    let mut grays1: Vec<u8> = Vec::with_capacity(255);

    for pixel in test_input.pixels() {
        grays0.push(pixel.to_rgba().r);
    }

    for pixel in test_output.pixels() {
        grays1.push(pixel.to_rgba().r);
    }

    assert_eq!(&grays0, &grays1);
}

#[test]
fn indexes_come_in_tile_order() {
    // 4 by 4 pixels, each as bright as its raster position, in tiles of 2 by 2
    let image = gray_image(4, 4, |x, y| LumaA { luma: (y * 4 + x) as u8, alpha: 255 });
    let indexes = indexes_from_luma(&image, 255, (2, 2));
    assert_eq!(indexes, vec![0, 1, 4, 5, 2, 3, 6, 7, 8, 9, 12, 13, 10, 11, 14, 15]);
}

#[test]
fn indexes_use_the_tile_height_for_rows() {
    // 4 by 4 pixels in tiles of 4 wide and 2 high
    let image = gray_image(4, 4, |x, y| LumaA { luma: (y * 4 + x) as u8, alpha: 255 });
    let indexes = indexes_from_luma(&image, 255, (4, 2));
    assert_eq!(indexes, (0..16).collect::<Vec<u8>>());
    let indexes = indexes_from_luma(&image, 255, (2, 4));
    assert_eq!(indexes, vec![0, 1, 4, 5, 8, 9, 12, 13, 2, 3, 6, 7, 10, 11, 14, 15]);
}

#[test]
fn luminance_is_brought_to_the_range_of_indexes() {
    let image = gray_image(4, 1, |x, _| LumaA { luma: [0u8, 16, 17, 255][x as usize], alpha: 255 });
    assert_eq!(indexes_from_luma(&image, 15, (1, 1)), vec![0, 0, 1, 15]);
    assert_eq!(indexes_from_luma(&image, 255, (1, 1)), vec![0, 16, 17, 255]);
    assert_eq!(indexes_from_luma(&image, 3, (1, 1)), vec![0, 0, 0, 3]);
    assert_eq!(indexes_from_luma(&image, 0, (1, 1)), vec![0, 0, 0, 0]);
    assert_eq!(index_of_luma(LumaA { luma: 254u8, alpha: 1 }, 15), 14);
    assert_eq!(index_of_luma(LumaA { luma: 254u8, alpha: 0 }, 15), 0);
    assert_eq!(index_of_luma(LumaA { luma: 0x8000u16, alpha: 0xFFFF }, 255), 127);
    assert_eq!(index_of_luma(LumaA { luma: 0xFFFFu16, alpha: 1 }, 0xFFFF), 0xFFFF);
}

#[test]
fn transparent_pixels_at_the_end_are_left_out() {
    // two tiles of 2 by 2 side by side; the right one is blank
    let image = gray_image(4, 2, |x, _| {
        if x < 2 {
            LumaA { luma: 100, alpha: 255 }
        } else {
            LumaA { luma: 50, alpha: 0 }
        }
    });
    assert_eq!(indexes_from_luma(&image, 255, (2, 2)), vec![100, 100, 100, 100]);
}

#[test]
fn transparent_pixels_before_the_end_give_index_zero() {
    // one tile of 2 by 2: only the last pixel in tile order is opaque
    let image = gray_image(2, 2, |x, y| {
        if x == 1 && y == 1 {
            LumaA { luma: 200, alpha: 1 }
        } else {
            LumaA { luma: 77, alpha: 0 }
        }
    });
    assert_eq!(indexes_from_luma(&image, 255, (2, 2)), vec![0, 0, 0, 200]);
    // the data ends with the last opaque pixel, inside a tile too
    let image = gray_image(2, 2, |x, y| {
        if x == 1 && y == 0 {
            LumaA { luma: 200, alpha: 255 }
        } else {
            LumaA { luma: 77, alpha: 0 }
        }
    });
    assert_eq!(indexes_from_luma(&image, 255, (2, 2)), vec![0, 200]);
}

#[test]
fn fully_transparent_image_gives_no_indexes() {
    let image = gray_image(8, 8, |_, _| LumaA { luma: 255, alpha: 0 });
    assert_eq!(indexes_from_luma(&image, 255, (8, 8)), Vec::<u8>::new());
    let empty: Raster<LumaA<u8>> = Raster::from_vec(0, 0, Vec::new()).unwrap();
    assert_eq!(indexes_from_luma(&empty, 255, (8, 8)), Vec::<u8>::new());
}

#[test]
fn pixels_outside_whole_tiles_give_no_indexes() {
    // 3 by 3 pixels in tiles of 2 by 2: one whole tile
    let image = gray_image(3, 3, |x, y| LumaA { luma: (y * 3 + x) as u8, alpha: 255 });
    assert_eq!(indexes_from_luma(&image, 255, (2, 2)), vec![0, 1, 3, 4]);
    // no whole tile at all, and tiles without area
    assert_eq!(indexes_from_luma(&image, 255, (4, 4)), Vec::<u8>::new());
    assert_eq!(indexes_from_luma(&image, 255, (0, 2)), Vec::<u8>::new());
    assert_eq!(indexes_from_luma(&image, 255, (2, 0)), Vec::<u8>::new());
}

#[test]
fn indexes_of_a_color_image_go_through_its_luminance() {
    let pixels = vec![
        Rgba { r: 255u8, g: 255, b: 255, a: 255 },
        Rgba { r: 0u8, g: 0, b: 0, a: 255 },
        Rgba { r: 255u8, g: 0, b: 0, a: 255 },
        Rgba { r: 10u8, g: 200, b: 30, a: 255 },
    ];
    let want: Vec<u8> = pixels
        .iter()
        .map(|p| image::Pixel::to_luma_alpha(&image::Rgba([p.r, p.g, p.b, p.a])).0[0])
        .collect();
    let image = Raster::from_vec(2, 2, pixels).unwrap();
    let indexes = indexes_from_luma(&image, 255, (1, 1));
    assert_eq!(indexes, want);
    assert_eq!(indexes[0], 255);
    assert_eq!(indexes[1], 0);
    assert!(indexes[2] > 0 && indexes[2] < 128);
}

#[test]
fn no_image_of_indexes_that_do_not_fill_whole_tiles() {
    let data: Vec<u8> = vec![0; 65];
    assert!(luma_from_indexes(data.clone(), 255, (8, 8), None).is_none());
    assert!(luma_from_indexes(data, 255, (8, 8), Some((16, 16))).is_none());
    let data: Vec<u8> = vec![0; 3];
    assert!(luma_from_indexes(data, 15, (2, 2), Some((2, 2))).is_none());
    let data: Vec<u8> = vec![0; 64];
    assert!(luma_from_indexes(data, 255, (8, 8), None).is_some());
}

#[test]
fn no_image_whose_extent_is_not_made_of_whole_tiles() {
    let data: Vec<u8> = vec![0; 64];
    assert!(luma_from_indexes(data.clone(), 255, (8, 8), Some((12, 8))).is_none());
    assert!(luma_from_indexes(data.clone(), 255, (8, 8), Some((8, 12))).is_none());
    assert!(luma_from_indexes(data.clone(), 255, (8, 8), Some((8, 8))).is_some());
    assert!(luma_from_indexes(data, 255, (8, 8), Some((0, 0))).is_some());
}

#[test]
fn no_image_of_tiles_without_area() {
    let data: Vec<u8> = vec![0; 64];
    assert!(luma_from_indexes(data.clone(), 255, (0, 8), None).is_none());
    assert!(luma_from_indexes(data, 255, (8, 0), Some((8, 8))).is_none());
    assert!(luma_from_indexes(Vec::<u8>::new(), 255, (0, 0), None).is_none());
}

#[test]
fn image_extent_is_a_roughly_square_grid() {
    // five tiles of 2 by 2: three tiles wide, two rows
    let data: Vec<u8> = vec![15; 20];
    let image = luma_from_indexes(data, 15, (2, 2), None).unwrap();
    assert_eq!(image.dimensions(), (6, 4));
    // the sixth tile has no indexes
    for y in 0..4 {
        for x in 0..6 {
            let want = if x >= 4 && y >= 2 {
                LumaA { luma: 0u8, alpha: 0u8 }
            } else {
                LumaA { luma: 255u8, alpha: 255u8 }
            };
            assert_eq!(image.get_pixel(x, y), Some(want));
        }
    }
    // four tiles: two by two; one tile; none
    assert_eq!(luma_from_indexes(vec![0u8; 16], 15, (2, 2), None).unwrap().dimensions(), (4, 4));
    assert_eq!(luma_from_indexes(vec![0u8; 6], 15, (3, 2), None).unwrap().dimensions(), (3, 2));
    assert_eq!(luma_from_indexes(vec![0u8; 12], 15, (3, 2), None).unwrap().dimensions(), (6, 2));
    assert_eq!(luma_from_indexes(vec![0u8; 18], 15, (3, 2), None).unwrap().dimensions(), (6, 4));
    assert_eq!(luma_from_indexes(Vec::<u8>::new(), 15, (2, 2), None).unwrap().dimensions(), (0, 0));
    assert_eq!(luma_from_indexes(vec![0u8; 10 * 64], 15, (8, 8), None).unwrap().dimensions(), (32, 24));
}

#[test]
fn indexes_are_drawn_as_gray_levels() {
    let data: Vec<u8> = vec![0, 1, 7, 8, 14, 15];
    let image = luma_from_indexes(data, 15, (1, 1), Some((6, 1))).unwrap();
    let lumas: Vec<u8> = image.pixels().iter().map(|p| p.luma).collect();
    assert_eq!(lumas, vec![0, 17, 119, 136, 238, 255]);
    assert!(image.pixels().iter().all(|p| p.alpha == 255));
    let data: Vec<u8> = vec![0, 1, 2, 3];
    let image = luma_from_indexes(data, 3, (1, 1), Some((4, 1))).unwrap();
    assert_eq!(image.pixels().iter().map(|p| p.luma).collect::<Vec<u8>>(), vec![0, 85, 170, 255]);
    let data: Vec<u8> = vec![0, 3, 6, 7];
    let image = luma_from_indexes(data, 7, (1, 1), Some((4, 1))).unwrap();
    assert_eq!(image.pixels().iter().map(|p| p.luma).collect::<Vec<u8>>(), vec![0, 109, 219, 255]);
    assert_eq!(luma_of_index(1u8, 15), 17);
    assert_eq!(luma_of_index(300u16, 1000), 77);
    assert_eq!(luma_of_index(70000u32, 65535), 255);
}

#[test]
fn gray_levels_are_rounded_to_the_nearest() {
    // 1 of 16 comes to 15.9375, which is nearer to 16
    let image = luma_from_indexes(vec![1u8], 16, (1, 1), Some((1, 1))).unwrap();
    assert_eq!(image.get_pixel(0, 0), Some(LumaA { luma: 16u8, alpha: 255u8 }));
    // 1 of 2 comes to 127.5: a half is rounded up
    assert_eq!(luma_of_index(1u8, 2), 128);
    // 1 of 4 comes to 63.75, 1 of 1000 to 0.255
    assert_eq!(luma_of_index(1u8, 4), 64);
    assert_eq!(luma_of_index(1u16, 1000), 0);
    assert_eq!(luma_of_index(2u16, 1000), 1);
    // the last index below the largest never reaches it from far away
    assert_eq!(luma_of_index(65534u16, 65535), 255);
    assert_eq!(luma_of_index(2u8, 3), 170);
    // with 255 as the largest index nothing is rounded
    for i in 0..=255u8 {
        assert_eq!(luma_of_index(i, 255), i);
    }
}

#[test]
fn indexes_above_the_largest_are_drawn_white() {
    let data: Vec<u8> = vec![15, 16, 255];
    let image = luma_from_indexes(data, 15, (1, 1), Some((3, 1))).unwrap();
    assert_eq!(image.pixels().iter().map(|p| p.luma).collect::<Vec<u8>>(), vec![255, 255, 255]);
    assert_eq!(luma_of_index(0u8, 0), 255);
    assert_eq!(luma_of_index(0xFFFFu16, 255), 255);
}

#[test]
fn image_is_laid_out_in_tiles() {
    // two tiles of 2 by 2 side by side
    let data: Vec<u8> = vec![1, 2, 3, 4, 5, 6, 7, 8];
    let image = luma_from_indexes(data, 255, (2, 2), Some((4, 2))).unwrap();
    let lumas: Vec<u8> = image.pixels().iter().map(|p| p.luma).collect();
    assert_eq!(lumas, vec![1, 2, 5, 6, 3, 4, 7, 8]);
    // the same tiles one below the other
    let data: Vec<u8> = vec![1, 2, 3, 4, 5, 6, 7, 8];
    let image = luma_from_indexes(data, 255, (2, 2), Some((2, 4))).unwrap();
    let lumas: Vec<u8> = image.pixels().iter().map(|p| p.luma).collect();
    assert_eq!(lumas, vec![1, 2, 3, 4, 5, 6, 7, 8]);
}

#[test]
fn image_larger_or_smaller_than_the_data() {
    let data: Vec<u8> = vec![9, 9, 9, 9];
    let image = luma_from_indexes(data.clone(), 255, (2, 2), Some((4, 2))).unwrap();
    let want_opaque = LumaA { luma: 9u8, alpha: 255u8 };
    let want_blank = LumaA { luma: 0u8, alpha: 0u8 };
    assert_eq!(
        image.pixels(),
        &vec![want_opaque, want_opaque, want_blank, want_blank, want_opaque, want_opaque, want_blank, want_blank]
    );
    let data: Vec<u8> = vec![1, 2, 3, 4, 5, 6, 7, 8];
    let image = luma_from_indexes(data, 255, (2, 2), Some((2, 2))).unwrap();
    assert_eq!(image.pixels().iter().map(|p| p.luma).collect::<Vec<u8>>(), vec![1, 2, 3, 4]);
}

#[test]
fn round_trip_keeps_opaque_luminance_with_transparent_pixels_inside() {
    let image = gray_image(8, 4, |x, y| {
        if (x + y) % 3 == 0 && !(x == 7 && y == 3) {
            LumaA { luma: 0xEE, alpha: 0 }
        } else {
            LumaA { luma: (x * 31 + y * 7) as u8, alpha: if x % 2 == 0 { 255 } else { 1 } }
        }
    });
    let indexes = indexes_from_luma(&image, 255, (4, 2));
    assert_eq!(indexes.len(), 32);
    let back = luma_from_indexes(indexes, 255, (4, 2), Some((8, 4))).unwrap();
    assert_eq!(back.dimensions(), (8, 4));
    for y in 0..4 {
        for x in 0..8 {
            let before = image.get_pixel(x, y).unwrap();
            let after = back.get_pixel(x, y).unwrap();
            if before.alpha != 0 {
                assert_eq!(after, LumaA { luma: before.luma, alpha: 255 });
            } else {
                assert_eq!(after, LumaA { luma: 0, alpha: 255 });
            }
        }
    }
}

#[test]
fn round_trip_fails_where_the_indexes_end_inside_a_tile() {
    let image = gray_image(2, 2, |x, y| LumaA { luma: 9, alpha: if x == 0 && y == 0 { 255 } else { 0 } });
    let indexes = indexes_from_luma(&image, 255, (2, 2));
    assert_eq!(indexes, vec![9]);
    assert!(luma_from_indexes(indexes, 255, (2, 2), Some((2, 2))).is_none());
}

#[test]
fn square_roots_round_up() {
    let cases: [(u64, u64); 12] = [
        (0, 0), (1, 1), (2, 2), (3, 2), (4, 2), (5, 3), (9, 3), (10, 4), (16, 4), (17, 5),
        (1_000_000, 1000), (1_000_001, 1001),
    ];
    for (n, want) in cases {
        assert_eq!(ceil_sqrt_of(n), want);
    }
}
