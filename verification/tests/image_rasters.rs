use automation::image::gray_image::fourth_root_of;
use automation::image::{CompressedGrayImage, FlattenArray, GrayImage, Pixel, Screenshot};
use automation::Error;

fn bgra(width: u32, height: u32, luma: &dyn Fn(u32, u32) -> u8) -> Vec<u8> {
    let mut buf = Vec::new();
    for y in 0..height {
        for x in 0..width {
            let v = luma(x, y);
            buf.extend_from_slice(&[v, v, v, 255]);
        }
    }
    buf
}

#[test]
fn pixels_compare_by_their_bytes() {
    let one = [1u8, 2, 3, 4];
    let same = [1u8, 2, 3, 4];
    let other = [1u8, 2, 3, 5];
    assert!(Pixel::new(&one) == Pixel::new(&same));
    assert!(Pixel::new(&one) != Pixel::new(&other));
}

#[test]
fn pixel_components_follow_bgra_order() {
    let bytes = [10u8, 20, 30, 40];
    let pixel = Pixel::new(&bytes);
    assert_eq!(pixel.b(), 10);
    assert_eq!(pixel.g(), 20);
    assert_eq!(pixel.r(), 30);
    assert_eq!(pixel.a(), 40);
}

#[test]
fn luma_weights_red_green_blue() {
    // (2126 * 255) / 10000 = 54, (7152 * 255) / 10000 = 182, (722 * 255) / 10000 = 18
    assert_eq!(Pixel::new(&[0, 0, 255, 0]).luma(), 54);
    assert_eq!(Pixel::new(&[0, 255, 0, 0]).luma(), 182);
    assert_eq!(Pixel::new(&[255, 0, 0, 0]).luma(), 18);
    // (2126 * 30 + 7152 * 20 + 722 * 10) / 10000 = 214040 / 10000 = 21
    assert_eq!(Pixel::new(&[10, 20, 30, 99]).luma(), 21);
}

#[test]
fn luma_stays_within_a_byte() {
    assert_eq!(Pixel::new(&[0, 0, 0, 0]).luma(), 0);
    assert_eq!(Pixel::new(&[255, 255, 255, 255]).luma(), 255);
    assert_eq!(Pixel::new(&[255, 255, 255, 0]).luma(), 255);
    for v in [1u8, 17, 128, 200, 254] {
        assert_eq!(Pixel::new(&[v, v, v, 7]).luma(), v);
    }
}

#[test]
fn screenshot_from_bgra_buf_keeps_bytes() {
    let buf: Vec<u8> = (0..24).collect();
    let shot = Screenshot::from_bgra_buf(3, 2, buf).unwrap();
    assert_eq!(shot.width(), 3);
    assert_eq!(shot.height(), 2);
    let pixel = shot.pixel(1, 1);
    assert_eq!(pixel.b(), 16);
    assert_eq!(pixel.g(), 17);
    assert_eq!(pixel.r(), 18);
    assert_eq!(pixel.a(), 19);
    // (2126 * 18 + 7152 * 17 + 722 * 16) / 10000 = 171404 / 10000 = 17
    assert_eq!(shot.luma(1, 1), 17);
}

#[test]
fn screenshot_rejects_wrong_length() {
    assert_eq!(
        Screenshot::from_bgra_buf(3, 2, vec![0; 23]).err(),
        Some(Error::Dimension)
    );
    assert_eq!(
        Screenshot::from_bgra_buf(3, 2, vec![0; 25]).err(),
        Some(Error::Dimension)
    );
    assert_eq!(
        Screenshot::from_bgra_buf(0, 5, vec![0; 4]).err(),
        Some(Error::Dimension)
    );
    assert!(Screenshot::from_bgra_buf(0, 5, Vec::new()).is_ok());
}

#[test]
fn screenshot_rejects_raster_beyond_32_bits() {
    assert_eq!(
        Screenshot::from_bgra_buf(65536, 65536, Vec::new()).err(),
        Some(Error::Dimension)
    );
    assert_eq!(
        Screenshot::from_bgra_buf(u32::MAX, u32::MAX, vec![0; 4]).err(),
        Some(Error::Dimension)
    );
    assert_eq!(
        Screenshot::from_raw(32768, 32768, Vec::new()).err(),
        Some(Error::Dimension)
    );
}

#[test]
fn screenshot_from_raw_swaps_red_and_blue() {
    let rgba = vec![1, 2, 3, 4, 5, 6, 7, 8];
    let shot = Screenshot::from_raw(2, 1, rgba.clone()).unwrap();
    let first = shot.pixel(0, 0);
    assert_eq!((first.r(), first.g(), first.b(), first.a()), (1, 2, 3, 4));
    let second = shot.pixel(1, 0);
    assert_eq!((second.r(), second.g(), second.b(), second.a()), (5, 6, 7, 8));
    assert_eq!(shot.to_rgba_buf(), rgba);
    assert_eq!(
        Screenshot::from_raw(2, 1, vec![0; 7]).err(),
        Some(Error::Dimension)
    );
}

#[test]
fn swap_channel_exchanges_every_group() {
    let mut buf = vec![1, 2, 3, 4, 5, 6, 7, 8, 9, 10, 11, 12];
    Screenshot::swap_channel_r_and_b(&mut buf);
    assert_eq!(buf, vec![3, 2, 1, 4, 7, 6, 5, 8, 11, 10, 9, 12]);
    Screenshot::swap_channel_r_and_b(&mut buf);
    assert_eq!(buf, vec![1, 2, 3, 4, 5, 6, 7, 8, 9, 10, 11, 12]);
    let mut empty: Vec<u8> = Vec::new();
    Screenshot::swap_channel_r_and_b(&mut empty);
    assert!(empty.is_empty());
}

#[test]
fn gray_image_from_raw_checks_length() {
    let image = GrayImage::from_raw(3, 2, vec![1, 2, 3, 4, 5, 6]).unwrap();
    assert_eq!(image.width(), 3);
    assert_eq!(image.height(), 2);
    assert_eq!(image.pixel(0, 0), 1);
    assert_eq!(image.pixel(2, 0), 3);
    assert_eq!(image.pixel(0, 1), 4);
    assert_eq!(image.pixel(2, 1), 6);
    assert_eq!(
        GrayImage::from_raw(3, 2, vec![0; 5]).err(),
        Some(Error::Dimension)
    );
    assert_eq!(
        GrayImage::from_raw(65536, 65536, Vec::new()).err(),
        Some(Error::Dimension)
    );
}

#[test]
fn gray_image_from_screenshot_projects_luma() {
    let buf = vec![
        0, 0, 255, 0, // red
        0, 255, 0, 0, // green
        255, 0, 0, 0, // blue
        10, 20, 30, 40,
    ];
    let shot = Screenshot::from_bgra_buf(2, 2, buf).unwrap();
    let image = GrayImage::from_screenshot(&shot);
    assert_eq!(image.width(), 2);
    assert_eq!(image.height(), 2);
    assert_eq!(image.pixel(0, 0), 54);
    assert_eq!(image.pixel(1, 0), 182);
    assert_eq!(image.pixel(0, 1), 18);
    assert_eq!(image.pixel(1, 1), 21);
}

#[test]
fn fourth_root_rounds_down() {
    assert_eq!(fourth_root_of(0), 0);
    assert_eq!(fourth_root_of(1), 1);
    assert_eq!(fourth_root_of(15), 1);
    assert_eq!(fourth_root_of(16), 2);
    assert_eq!(fourth_root_of(80), 2);
    assert_eq!(fourth_root_of(81), 3);
    assert_eq!(fourth_root_of(4095), 7);
    assert_eq!(fourth_root_of(4096), 8);
    assert_eq!(fourth_root_of(u32::MAX), 255);
}

#[test]
fn compress_takes_block_means() {
    let data = vec![
        1, 3, 10, 20, 99, //
        5, 7, 30, 41, 99, //
        0, 0, 255, 255, 99, //
        0, 1, 255, 254, 99, //
        9, 9, 9, 9, 9,
    ];
    let image = GrayImage::from_raw(5, 5, data).unwrap();
    let small = image.into_compressed(Some(2));
    assert_eq!(small.factor(), 2);
    assert_eq!(small.width(), 2);
    assert_eq!(small.height(), 2);
    assert_eq!(small.pixel(0, 0), 4); // 16 / 4
    assert_eq!(small.pixel(1, 0), 25); // 101 / 4
    assert_eq!(small.pixel(0, 1), 0); // 1 / 4
    assert_eq!(small.pixel(1, 1), 254); // 1019 / 4
    assert_eq!(small.to_vec(), vec![4, 25, 0, 254]);
}

#[test]
fn compress_by_three_drops_partial_blocks() {
    let data: Vec<u8> = (0..28).collect();
    let image = GrayImage::from_raw(7, 4, data).unwrap();
    let small = CompressedGrayImage::from_gray_image(&image, Some(3));
    assert_eq!(small.factor(), 3);
    assert_eq!(small.width(), 2);
    assert_eq!(small.height(), 1);
    // rows 0..3, columns 0..3: 0+1+2 + 7+8+9 + 14+15+16 = 72, 72 / 9 = 8
    assert_eq!(small.pixel(0, 0), 8);
    // columns 3..6: 3+4+5 + 10+11+12 + 17+18+19 = 99, 99 / 9 = 11
    assert_eq!(small.pixel(1, 0), 11);
}

#[test]
fn compress_constant_image_stays_constant() {
    for factor in [2u32, 3, 4, 7] {
        for value in [0u8, 1, 77, 255] {
            let image = GrayImage::from_raw(13, 9, vec![value; 13 * 9]).unwrap();
            let small = image.into_compressed(Some(factor));
            assert_eq!(small.width(), 13 / factor);
            assert_eq!(small.height(), 9 / factor);
            for y in 0..small.height() {
                for x in 0..small.width() {
                    assert_eq!(small.pixel(x, y), value);
                }
            }
        }
    }
}

#[test]
fn compress_factor_is_at_least_two() {
    let image = GrayImage::from_raw(4, 4, vec![8; 16]).unwrap();
    assert_eq!(CompressedGrayImage::from_gray_image(&image, Some(0)).factor(), 2);
    assert_eq!(CompressedGrayImage::from_gray_image(&image, Some(1)).factor(), 2);
    assert_eq!(CompressedGrayImage::from_gray_image(&image, Some(5)).factor(), 5);
    assert_eq!(CompressedGrayImage::from_gray_image(&image, Some(5)).width(), 0);
    assert_eq!(CompressedGrayImage::from_gray_image(&image, None).factor(), 2);
}

#[test]
fn compress_picks_factor_from_area() {
    // 200 * 100 / 250 = 80, whose fourth root is 2
    let image = GrayImage::from_raw(200, 100, vec![0; 20000]).unwrap();
    assert_eq!(image.into_compressed(None).factor(), 2);
    // 225 * 90 / 250 = 81, whose fourth root is 3
    let image = GrayImage::from_raw(225, 90, vec![0; 20250]).unwrap();
    let small = image.into_compressed(None);
    assert_eq!(small.factor(), 3);
    assert_eq!(small.width(), 75);
    assert_eq!(small.height(), 30);
    // 400 * 160 / 250 = 256, whose fourth root is 4
    let image = GrayImage::from_raw(400, 160, vec![0; 64000]).unwrap();
    assert_eq!(image.into_compressed(None).factor(), 4);
}

#[test]
fn screenshot_luma_feeds_gray_image() {
    let shot = Screenshot::from_bgra_buf(4, 2, bgra(4, 2, &|x, y| (x * 10 + y) as u8)).unwrap();
    let image = GrayImage::from_screenshot(&shot);
    for y in 0..2 {
        for x in 0..4 {
            assert_eq!(image.pixel(x, y), (x * 10 + y) as u8);
        }
    }
}

#[test]
fn flatten_array_new_fills_every_cell() {
    let table = FlattenArray::new(3, 2, 7u16);
    assert_eq!(table.width(), 3);
    assert_eq!(table.len(), 6);
    assert_eq!(table.to_vec(), vec![7u16; 6]);
    assert_eq!(table.into_vec(), vec![7u16; 6]);
    let empty = FlattenArray::new(0, 9, 1u8);
    assert_eq!(empty.len(), 0);
}

#[test]
fn flatten_array_addresses_row_then_column() {
    let mut table = FlattenArray::from_vec(3, vec![1u8, 2, 3, 4, 5, 6]);
    assert_eq!(table.get(0, 0), 1);
    assert_eq!(table.get(0, 2), 3);
    assert_eq!(table.get(1, 0), 4);
    assert_eq!(*table.get_ref(1, 2), 6);
    assert_eq!(table[(0, 1)], 2);
    assert_eq!(table[(1, 1)], 5);
    table.set(1, 1, 50);
    assert_eq!(table[(1, 1)], 50);
    assert_eq!(table.to_vec(), vec![1, 2, 3, 4, 50, 6]);
}

#[test]
fn flatten_array_values_stop_at_row_end() {
    let table = FlattenArray::from_vec(4, vec![1u8, 2, 3, 4, 5, 6, 7, 8]);
    assert_eq!(table.values(0, 1, 2), &[2, 3]);
    assert_eq!(table.values(1, 2, 8), &[7, 8]);
    assert_eq!(table.values(1, 0, 4), &[5, 6, 7, 8]);
    assert_eq!(table.values(1, 4, 3), &[] as &[u8]);
    assert_eq!(table.values(0, 3, 0), &[] as &[u8]);
}
