use automation::image::{
    integer_sqrt, match_score, Direction, Finder, GrayImage, LumaMatrix, Pattern, Screenshot,
};
use automation::Error;

fn noise(seed: u32, x: u32, y: u32) -> u8 {
    let mut v = seed
        .wrapping_mul(2654435761)
        .wrapping_add(x.wrapping_mul(40503))
        .wrapping_add(y.wrapping_mul(65599));
    v ^= v >> 15;
    v = v.wrapping_mul(2246822519);
    v ^= v >> 13;
    (v % 251) as u8 + 3
}

fn textured(width: u32, height: u32, seed: u32) -> Vec<u8> {
    // Each block of two by two pixels has one value, so that shrinking by 2
    // keeps the texture exactly.
    let mut data = Vec::new();
    for y in 0..height {
        for x in 0..width {
            data.push(noise(seed, x / 2, y / 2));
        }
    }
    data
}

fn gray_frame(width: u32, height: u32, luma: &[u8]) -> Screenshot {
    let mut buf = Vec::new();
    for v in luma {
        buf.extend_from_slice(&[*v, *v, *v, 255]);
    }
    Screenshot::from_bgra_buf(width, height, buf).unwrap()
}

fn paste(canvas: &mut [u8], canvas_width: u32, patch: &[u8], width: u32, height: u32, x: u32, y: u32) {
    for dy in 0..height {
        for dx in 0..width {
            canvas[((y + dy) * canvas_width + x + dx) as usize] = patch[(dy * width + dx) as usize];
        }
    }
}

fn png_of_gray(width: u32, height: u32, luma: Vec<u8>) -> Vec<u8> {
    let picture = image::GrayImage::from_raw(width, height, luma).unwrap();
    let mut bytes = Vec::new();
    picture
        .write_to(&mut std::io::Cursor::new(&mut bytes), image::ImageFormat::Png)
        .unwrap();
    bytes
}

fn png_of_rgba(width: u32, height: u32, rgba: Vec<u8>) -> Vec<u8> {
    let picture = image::RgbaImage::from_raw(width, height, rgba).unwrap();
    let mut bytes = Vec::new();
    picture
        .write_to(&mut std::io::Cursor::new(&mut bytes), image::ImageFormat::Png)
        .unwrap();
    bytes
}

#[test]
fn integer_sqrt_rounds_down() {
    assert_eq!(integer_sqrt(0), 0);
    assert_eq!(integer_sqrt(1), 1);
    assert_eq!(integer_sqrt(3), 1);
    assert_eq!(integer_sqrt(4), 2);
    assert_eq!(integer_sqrt(99), 9);
    assert_eq!(integer_sqrt(100), 10);
    assert_eq!(integer_sqrt(1_000_000_000_000), 1_000_000);
    assert_eq!(integer_sqrt(999_999_999_999), 999_999);
    assert_eq!(integer_sqrt(u128::MAX), u64::MAX);
}

#[test]
fn match_score_is_one_for_equal_sums() {
    assert_eq!(match_score(1, 1, 1), 1_000_000);
    assert_eq!(match_score(65025, 65025, 65025), 1_000_000);
    assert_eq!(match_score(17_455_074_508_800, 17_455_074_508_800, 17_455_074_508_800), 1_000_000);
}

#[test]
fn match_score_counts_millionths() {
    // 99 / sqrt(100 * 100) = 0.99
    assert_eq!(match_score(99, 100, 100), 990_000);
    // 3 / sqrt(2 * 8) = 0.75
    assert_eq!(match_score(3, 2, 8), 750_000);
    // 1 / sqrt(1 * 2) = 0.70710678...
    assert_eq!(match_score(1, 1, 2), 707_106);
    // 2 / sqrt(3 * 3) = 0.666666...
    assert_eq!(match_score(2, 3, 3), 666_666);
    assert_eq!(match_score(0, 5, 5), 0);
}

#[test]
fn match_score_of_black_is_zero() {
    assert_eq!(match_score(0, 0, 0), 0);
    assert_eq!(match_score(0, 0, 10), 0);
    assert_eq!(match_score(0, 10, 0), 0);
}

#[test]
fn direction_meets_only_strictly() {
    assert!(Direction::Up.meet((5, 5), (5, 4)));
    assert!(!Direction::Up.meet((5, 5), (5, 5)));
    assert!(!Direction::Up.meet((5, 5), (0, 6)));
    assert!(Direction::Down.meet((5, 5), (9, 6)));
    assert!(!Direction::Down.meet((5, 5), (9, 5)));
    assert!(Direction::Left.meet((5, 5), (4, 9)));
    assert!(!Direction::Left.meet((5, 5), (5, 0)));
    assert!(Direction::Right.meet((5, 5), (6, 0)));
    assert!(!Direction::Right.meet((5, 5), (5, 9)));
}

#[test]
fn luma_matrix_sums_squares_of_rectangles() {
    let data = vec![
        1, 2, 3, 4, //
        5, 6, 7, 8, //
        9, 10, 11, 12, //
        13, 14, 15, 16, //
        0, 0, 255, 255, //
        0, 0, 255, 255,
    ];
    // Shrinking by 2 gives a raster of 2 by 3: 3, 5 / 11, 13 / 0, 255.
    let small = GrayImage::from_raw(4, 6, data).unwrap().into_compressed(Some(2));
    assert_eq!(small.to_vec(), vec![3, 5, 11, 13, 0, 255]);
    let matrix = LumaMatrix::new(&small);
    assert_eq!(matrix.width(), 2);
    assert_eq!(matrix.height(), 3);
    assert_eq!(matrix.square_sum_partial([0, 0, 3, 2]), 9 + 25 + 121 + 169 + 65025);
    assert_eq!(matrix.square_sum_partial([0, 0, 1, 1]), 9);
    assert_eq!(matrix.square_sum_partial([1, 1, 2, 2]), 169);
    assert_eq!(matrix.square_sum_partial([1, 0, 3, 2]), 121 + 169 + 65025);
    assert_eq!(matrix.square_sum_partial([0, 1, 3, 2]), 25 + 169 + 65025);
    assert_eq!(matrix.square_sum_partial([2, 0, 3, 1]), 0);
    assert_eq!(matrix.square_sum_partial([1, 1, 1, 2]), 0);
    assert_eq!(matrix.square_sum_partial([3, 2, 3, 2]), 0);
}

#[test]
fn luma_matrix_agrees_with_direct_sums() {
    let width = 14u32;
    let height = 10u32;
    let mut data = Vec::new();
    for y in 0..height {
        for x in 0..width {
            data.push(noise(5, x / 2, y / 2));
        }
    }
    let small = GrayImage::from_raw(width, height, data).unwrap().into_compressed(Some(2));
    let matrix = LumaMatrix::new(&small);
    for y in 0..small.height() {
        for x in 0..small.width() {
            for yy in (y + 1)..=small.height() {
                for xx in (x + 1)..=small.width() {
                    let mut sum = 0u64;
                    for cy in y..yy {
                        for cx in x..xx {
                            let v = small.pixel(cx, cy) as u64;
                            sum += v * v;
                        }
                    }
                    assert_eq!(matrix.square_sum_partial([y, x, yy, xx]), sum);
                }
            }
        }
    }
}

#[test]
fn pattern_holds_shrunk_image_and_square_sum() {
    let data = vec![
        1, 3, 10, 20, //
        5, 7, 30, 41, //
        0, 0, 255, 255, //
        0, 1, 255, 254,
    ];
    let pattern = Pattern::from_gray_image(GrayImage::from_raw(4, 4, data).unwrap());
    assert_eq!(pattern.factor(), 2);
    assert_eq!(pattern.width(), 2);
    assert_eq!(pattern.height(), 2);
    assert_eq!(pattern.pixel(0, 0), 4);
    assert_eq!(pattern.pixel(1, 0), 25);
    assert_eq!(pattern.pixel(0, 1), 0);
    assert_eq!(pattern.pixel(1, 1), 254);
    assert_eq!(pattern.square_sum(), 16 + 625 + 0 + 64516);
    assert_eq!(pattern.packed_pixels(0, 0).to_array(), [4, 25, 0, 0, 0, 0, 0, 0]);
    assert_eq!(pattern.packed_pixels(0, 1).to_array(), [0, 254, 0, 0, 0, 0, 0, 0]);
}

#[test]
fn packed_layouts_hold_eight_pixels() {
    let mut data = Vec::new();
    for y in 0..4u32 {
        for x in 0..20u32 {
            data.push((10 * (y / 2) + x / 2 + 1) as u8);
        }
    }
    // Shrinking by 2 gives 10 by 2: row 0 is 1..=10, row 1 is 11..=20.
    let small = GrayImage::from_raw(20, 4, data).unwrap().into_compressed(Some(2));
    assert_eq!(small.to_vec(), (1..=20).collect::<Vec<u8>>());

    let redundant = small.to_redundant_packed();
    assert_eq!(redundant.pixels(0, 0).to_array(), [1, 2, 3, 4, 5, 6, 7, 8]);
    assert_eq!(redundant.pixels(2, 0).to_array(), [3, 4, 5, 6, 7, 8, 9, 10]);
    assert_eq!(redundant.pixels(3, 0).to_array(), [4, 5, 6, 7, 8, 9, 10, 0]);
    assert_eq!(redundant.pixels(9, 1).to_array(), [20, 0, 0, 0, 0, 0, 0, 0]);
    assert_eq!(redundant.pixels(5, 1).to_array(), [16, 17, 18, 19, 20, 0, 0, 0]);

    let packed = small.to_packed();
    assert_eq!(packed.pixels(0, 0).to_array(), [1, 2, 3, 4, 5, 6, 7, 8]);
    assert_eq!(packed.pixels(8, 0).to_array(), [9, 10, 0, 0, 0, 0, 0, 0]);
    assert_eq!(packed.pixels(9, 0).to_array(), [9, 10, 0, 0, 0, 0, 0, 0]);
    assert_eq!(packed.pixels(7, 1).to_array(), [11, 12, 13, 14, 15, 16, 17, 18]);
    assert_eq!(packed.pixels(8, 1).to_array(), [19, 20, 0, 0, 0, 0, 0, 0]);
}

#[test]
fn pattern_from_png_bytes() {
    let data = vec![
        1, 3, 10, 20, //
        5, 7, 30, 41, //
        0, 0, 255, 255, //
        0, 1, 255, 254,
    ];
    let pattern = Pattern::from_file_buf(&png_of_gray(4, 4, data)).unwrap();
    assert_eq!(pattern.factor(), 2);
    assert_eq!(pattern.width(), 2);
    assert_eq!(pattern.height(), 2);
    assert_eq!(pattern.pixel(0, 0), 4);
    assert_eq!(pattern.pixel(1, 0), 25);
    assert_eq!(pattern.pixel(0, 1), 0);
    assert_eq!(pattern.pixel(1, 1), 254);
    assert_eq!(pattern.square_sum(), 16 + 625 + 0 + 64516);
}

#[test]
fn pattern_cut_from_a_colour_screenshot_is_found_in_it() {
    // A colourful patch on a dark blue screen; every block of two by two
    // pixels has one colour.
    let colour = |x: u32, y: u32| -> [u8; 4] {
        [noise(21, x / 2, y / 2), noise(22, x / 2, y / 2), noise(23, x / 2, y / 2), 255]
    };
    let mut screen_rgba = Vec::new();
    for y in 0..60u32 {
        for x in 0..90u32 {
            if (40..56).contains(&x) && (20..32).contains(&y) {
                screen_rgba.extend_from_slice(&colour(x - 40, y - 20));
            } else {
                screen_rgba.extend_from_slice(&[0, 0, 40, 255]);
            }
        }
    }
    let mut patch_rgba = Vec::new();
    for y in 0..12u32 {
        for x in 0..16u32 {
            patch_rgba.extend_from_slice(&colour(x, y));
        }
    }
    let pattern = Pattern::from_file_buf(&png_of_rgba(16, 12, patch_rgba)).unwrap();
    assert_eq!((pattern.width(), pattern.height(), pattern.factor()), (8, 6, 2));
    // The luma of the pattern is the luma of the screenshot's pixels.
    let first = colour(0, 0);
    let luma = (2126 * first[0] as u32 + 7152 * first[1] as u32 + 722 * first[2] as u32) / 10000;
    assert_eq!(pattern.pixel(0, 0) as u32, luma);
    let shot = Screenshot::from_raw(90, 60, screen_rgba).unwrap();
    assert_eq!(shot.luma(40, 20) as u32, luma);
    // ((20 + 8 / 2) * 2, (10 + 6 / 2) * 2)
    assert_eq!(Finder::new(&shot).find(&pattern, Direction::Up), Some((48, 26)));
}

#[test]
fn gray_image_from_png_bytes() {
    let data: Vec<u8> = (0..12).map(|v| v * 20).collect();
    let image = GrayImage::from_file_buf(&png_of_gray(4, 3, data.clone())).unwrap();
    assert_eq!(image.width(), 4);
    assert_eq!(image.height(), 3);
    for y in 0..3 {
        for x in 0..4 {
            assert_eq!(image.pixel(x, y), data[(y * 4 + x) as usize]);
        }
    }
}

#[test]
fn screenshot_from_png_bytes() {
    let rgba = vec![
        255, 0, 0, 255, //
        0, 255, 0, 128, //
        0, 0, 255, 0, //
        30, 20, 10, 40,
    ];
    let shot = Screenshot::from_png_buf(&png_of_rgba(2, 2, rgba.clone())).unwrap();
    assert_eq!(shot.width(), 2);
    assert_eq!(shot.height(), 2);
    assert_eq!(shot.to_rgba_buf(), rgba);
    let last = shot.pixel(1, 1);
    assert_eq!((last.r(), last.g(), last.b(), last.a()), (30, 20, 10, 40));
    assert_eq!(shot.luma(0, 0), 54);
    assert_eq!(shot.luma(1, 0), 182);
    assert_eq!(shot.luma(0, 1), 18);
    assert_eq!(shot.luma(1, 1), 21);
}

#[test]
fn bytes_that_are_no_png_are_refused() {
    assert_eq!(Pattern::from_file_buf(&[]).err(), Some(Error::Decode));
    assert_eq!(Pattern::from_file_buf(b"not a picture").err(), Some(Error::Decode));
    assert_eq!(GrayImage::from_file_buf(&[0x89, b'P', b'N', b'G']).err(), Some(Error::Decode));
    assert_eq!(Screenshot::from_png_buf(b"GIF89a").err(), Some(Error::Decode));
    let mut cut = png_of_gray(4, 4, vec![9; 16]);
    cut.truncate(cut.len() / 2);
    assert_eq!(Pattern::from_file_buf(&cut).err(), Some(Error::Decode));
}

#[test]
fn error_has_a_message() {
    assert_eq!(Error::Decode.message(), "image data could not be decoded");
    assert_eq!(
        Error::Dimension.message(),
        "buffer length does not match the dimensions"
    );
}

#[test]
fn find_exact_match_returns_center() {
    let luma = textured(20, 12, 1);
    let pattern = Pattern::from_gray_image(GrayImage::from_raw(20, 12, luma.clone()).unwrap());
    assert_eq!(pattern.factor(), 2);
    let shot = gray_frame(20, 12, &luma);
    let finder = Finder::new(&shot);
    for dir in [Direction::Up, Direction::Down, Direction::Left, Direction::Right] {
        assert_eq!(finder.find(&pattern, dir), Some((10, 6)));
    }
}

#[test]
fn find_maps_center_back_to_screen() {
    let patch = textured(16, 10, 2);
    let pattern = Pattern::from_gray_image(GrayImage::from_raw(16, 10, patch.clone()).unwrap());
    assert_eq!((pattern.width(), pattern.height()), (8, 5));
    let mut canvas = vec![0u8; 120 * 80];
    paste(&mut canvas, 120, &patch, 16, 10, 60, 30);
    let shot = gray_frame(120, 80, &canvas);
    // The window starts at column 30 of row 15 of the shrunk screen:
    // ((30 + 8 / 2) * 2, (15 + 5 / 2) * 2)
    assert_eq!(Finder::new(&shot).find(&pattern, Direction::Left), Some((68, 34)));
}

#[test]
fn find_returns_none_for_absent_pattern() {
    let patch = textured(16, 16, 3);
    let pattern = Pattern::from_gray_image(GrayImage::from_raw(16, 16, patch).unwrap());
    let shot = gray_frame(64, 48, &textured(64, 48, 4));
    let finder = Finder::new(&shot);
    for dir in [Direction::Up, Direction::Down, Direction::Left, Direction::Right] {
        assert_eq!(finder.find(&pattern, dir), None);
    }
}

#[test]
fn find_returns_none_on_black_screen() {
    let patch = textured(8, 8, 5);
    let pattern = Pattern::from_gray_image(GrayImage::from_raw(8, 8, patch).unwrap());
    let shot = gray_frame(32, 32, &vec![0u8; 32 * 32]);
    assert_eq!(Finder::new(&shot).find(&pattern, Direction::Down), None);
}

#[test]
fn find_returns_none_for_black_pattern() {
    let pattern = Pattern::from_gray_image(GrayImage::from_raw(8, 8, vec![0; 64]).unwrap());
    assert_eq!(pattern.square_sum(), 0);
    let shot = gray_frame(32, 32, &textured(32, 32, 6));
    assert_eq!(Finder::new(&shot).find(&pattern, Direction::Down), None);
    let black = gray_frame(32, 32, &vec![0u8; 32 * 32]);
    assert_eq!(Finder::new(&black).find(&pattern, Direction::Down), None);
}

#[test]
fn find_returns_none_for_empty_pattern_or_screen() {
    // A picture of one pixel shrinks to nothing.
    let empty = Pattern::from_gray_image(GrayImage::from_raw(1, 1, vec![200]).unwrap());
    assert_eq!((empty.width(), empty.height()), (0, 0));
    assert_eq!(empty.square_sum(), 0);
    let shot = gray_frame(16, 16, &textured(16, 16, 11));
    assert_eq!(Finder::new(&shot).find(&empty, Direction::Left), None);

    let pattern = Pattern::from_gray_image(GrayImage::from_raw(8, 8, textured(8, 8, 12)).unwrap());
    let nothing = Screenshot::from_bgra_buf(0, 0, Vec::new()).unwrap();
    assert_eq!(Finder::new(&nothing).find(&pattern, Direction::Left), None);
    assert_eq!(Finder::new(&nothing).find(&empty, Direction::Left), None);
}

#[test]
fn find_returns_none_when_pattern_is_larger() {
    let patch = textured(40, 40, 7);
    let pattern = Pattern::from_gray_image(GrayImage::from_raw(40, 40, patch).unwrap());
    let shot = gray_frame(30, 60, &textured(30, 60, 7));
    assert_eq!(Finder::new(&shot).find(&pattern, Direction::Up), None);
    let shot = gray_frame(60, 30, &textured(60, 30, 7));
    assert_eq!(Finder::new(&shot).find(&pattern, Direction::Up), None);
}

#[test]
fn find_breaks_ties_by_direction() {
    let patch = textured(20, 20, 8);
    let pattern = Pattern::from_gray_image(GrayImage::from_raw(20, 20, patch.clone()).unwrap());
    let mut canvas = vec![0u8; 400 * 300];
    paste(&mut canvas, 400, &patch, 20, 20, 100, 100);
    paste(&mut canvas, 400, &patch, 20, 20, 200, 100);
    let shot = gray_frame(400, 300, &canvas);
    let finder = Finder::new(&shot);
    assert_eq!(finder.find(&pattern, Direction::Left), Some((110, 110)));
    assert_eq!(finder.find(&pattern, Direction::Right), Some((210, 110)));
    // Neither copy lies above or below the other: the first one found stays.
    assert_eq!(finder.find(&pattern, Direction::Up), Some((110, 110)));
    assert_eq!(finder.find(&pattern, Direction::Down), Some((110, 110)));
}

#[test]
fn find_breaks_ties_up_and_down() {
    let patch = textured(12, 12, 9);
    let pattern = Pattern::from_gray_image(GrayImage::from_raw(12, 12, patch.clone()).unwrap());
    let mut canvas = vec![0u8; 100 * 120];
    paste(&mut canvas, 100, &patch, 12, 12, 40, 20);
    paste(&mut canvas, 100, &patch, 12, 12, 10, 80);
    let shot = gray_frame(100, 120, &canvas);
    let finder = Finder::new(&shot);
    assert_eq!(finder.find(&pattern, Direction::Up), Some((46, 26)));
    assert_eq!(finder.find(&pattern, Direction::Down), Some((16, 86)));
    assert_eq!(finder.find(&pattern, Direction::Left), Some((16, 86)));
    assert_eq!(finder.find(&pattern, Direction::Right), Some((46, 26)));
}

fn spoil(patch: &[u8], value: u8) -> Vec<u8> {
    // The upper left block of two by two pixels becomes the upper left pixel
    // of the shrunk pattern.
    let mut spoiled = patch.to_vec();
    for y in 0..2 {
        for x in 0..2 {
            spoiled[y * 16 + x] = value;
        }
    }
    spoiled
}

#[test]
fn find_prefers_clearly_better_match() {
    let patch = textured(16, 16, 10);
    let pattern = Pattern::from_gray_image(GrayImage::from_raw(16, 16, patch.clone()).unwrap());
    assert_eq!(pattern.pixel(0, 0), 9);
    assert_eq!(pattern.square_sum(), 1_324_854);
    // With the upper left pixel 150 in place of 9 the copy scores 0.992594:
    // a match, and more than 0.005 below the true copy.
    assert_eq!(
        match_score(1_324_854 - 81 + 9 * 150, 1_324_854 - 81 + 150 * 150, 1_324_854),
        992_594
    );
    let mut canvas = vec![0u8; 200 * 60];
    paste(&mut canvas, 200, &spoil(&patch, 150), 16, 16, 20, 20);
    paste(&mut canvas, 200, &patch, 16, 16, 120, 20);
    let shot = gray_frame(200, 60, &canvas);
    let finder = Finder::new(&shot);
    for dir in [Direction::Up, Direction::Down, Direction::Left, Direction::Right] {
        assert_eq!(finder.find(&pattern, dir), Some((128, 28)));
    }

    let mut canvas = vec![0u8; 200 * 60];
    paste(&mut canvas, 200, &patch, 16, 16, 20, 20);
    paste(&mut canvas, 200, &spoil(&patch, 150), 16, 16, 120, 20);
    let shot = gray_frame(200, 60, &canvas);
    let finder = Finder::new(&shot);
    for dir in [Direction::Up, Direction::Down, Direction::Left, Direction::Right] {
        assert_eq!(finder.find(&pattern, dir), Some((28, 28)));
    }
}

#[test]
fn find_lets_direction_decide_between_near_ties() {
    let patch = textured(16, 16, 10);
    let pattern = Pattern::from_gray_image(GrayImage::from_raw(16, 16, patch.clone()).unwrap());
    // With the upper left pixel 100 in place of 9 the copy scores 0.996893:
    // within 0.005 of the true copy.
    assert_eq!(
        match_score(1_324_854 - 81 + 9 * 100, 1_324_854 - 81 + 100 * 100, 1_324_854),
        996_893
    );
    let mut canvas = vec![0u8; 200 * 60];
    paste(&mut canvas, 200, &spoil(&patch, 100), 16, 16, 20, 20);
    paste(&mut canvas, 200, &patch, 16, 16, 120, 20);
    let shot = gray_frame(200, 60, &canvas);
    let finder = Finder::new(&shot);
    assert_eq!(finder.find(&pattern, Direction::Left), Some((28, 28)));
    assert_eq!(finder.find(&pattern, Direction::Right), Some((128, 28)));
    assert_eq!(finder.find(&pattern, Direction::Up), Some((28, 28)));
    assert_eq!(finder.find(&pattern, Direction::Down), Some((28, 28)));
}

#[test]
fn find_ignores_copies_below_threshold() {
    let patch = textured(16, 16, 10);
    let pattern = Pattern::from_gray_image(GrayImage::from_raw(16, 16, patch.clone()).unwrap());
    // With the upper left pixel 255 in place of 9 the copy scores below 0.99.
    assert!(match_score(1_324_854 - 81 + 9 * 255, 1_324_854 - 81 + 255 * 255, 1_324_854) < 990_000);
    let mut canvas = vec![0u8; 200 * 60];
    paste(&mut canvas, 200, &spoil(&patch, 255), 16, 16, 20, 20);
    let shot = gray_frame(200, 60, &canvas);
    assert_eq!(Finder::new(&shot).find(&pattern, Direction::Left), None);
    paste(&mut canvas, 200, &patch, 16, 16, 120, 20);
    let shot = gray_frame(200, 60, &canvas);
    assert_eq!(Finder::new(&shot).find(&pattern, Direction::Left), Some((128, 28)));
}

#[test]
fn finder_keeps_its_screenshot() {
    let shot = gray_frame(4, 4, &vec![7u8; 16]);
    let finder = Finder::new(&shot);
    assert_eq!(finder.screenshot().width(), 4);
    assert_eq!(finder.screenshot().luma(3, 3), 7);
}
