use pngopt::alpha_choice::smallest_size;
use pngopt::colors::{AlphaOptim, BitDepth, ColorType};
use pngopt::headers::IhdrData;
use pngopt::png::PngData;

fn image(width: u32, color_type: ColorType, bit_depth: BitDepth, raw_data: Vec<u8>) -> PngData {
    PngData {
        idat_data: vec![],
        ihdr_data: IhdrData { width, height: 2, color_type, bit_depth, interlaced: 0 },
        raw_data,
        palette: None,
        transparency_pixel: None,
        transparency_palette: None,
        aux_headers: vec![],
    }
}

/// Three pixels in each of two lines: the outer ones of the first line and the middle one of the
/// second line are transparent.
fn gray() -> PngData {
    image(3, ColorType::GrayscaleAlpha, BitDepth::Eight, vec![
        0, 10, 0, 20, 255, 30, 0, 0, 40, 1, 50, 0, 60, 255,
    ])
}

fn rewritten(mut png: PngData, optim: AlphaOptim) -> Vec<u8> {
    assert!(png.reduce_alpha_channel(optim));
    png.raw_data
}

#[test]
fn transparent_pixels_become_black_or_white() {
    assert_eq!(
        rewritten(gray(), AlphaOptim::Black),
        vec![0, 0, 0, 20, 255, 0, 0, 0, 40, 1, 0, 0, 60, 255]
    );
    assert_eq!(
        rewritten(gray(), AlphaOptim::White),
        vec![0, 255, 0, 20, 255, 255, 0, 0, 40, 1, 255, 0, 60, 255]
    );
}

#[test]
fn transparent_pixels_take_the_colour_beside_them() {
    // The colour to the right, black at the right end
    assert_eq!(
        rewritten(gray(), AlphaOptim::Left),
        vec![0, 20, 0, 20, 255, 0, 0, 0, 40, 1, 60, 0, 60, 255]
    );
    // The colour to the left, black at the left end
    assert_eq!(
        rewritten(gray(), AlphaOptim::Right),
        vec![0, 0, 0, 20, 255, 20, 0, 0, 40, 1, 40, 0, 60, 255]
    );
}

#[test]
fn transparent_pixels_take_bytes_from_above_or_below() {
    // The line is taken with its filter byte, so the bytes are those one place to the left
    assert_eq!(
        rewritten(gray(), AlphaOptim::Down),
        vec![0, 0, 0, 20, 255, 0, 0, 0, 40, 1, 0, 0, 60, 255]
    );
    let mut opaque = gray();
    opaque.raw_data = vec![0, 10, 7, 20, 8, 30, 9, 0, 40, 0, 50, 0, 60, 0];
    assert_eq!(
        rewritten(opaque, AlphaOptim::Down),
        vec![0, 10, 7, 20, 8, 30, 9, 0, 0, 0, 7, 0, 8, 0]
    );
    let mut below = gray();
    below.raw_data = vec![0, 10, 0, 20, 0, 30, 0, 0, 40, 1, 50, 2, 60, 3];
    assert_eq!(
        rewritten(below, AlphaOptim::Up),
        vec![0, 0, 0, 1, 0, 2, 0, 0, 40, 1, 50, 2, 60, 3]
    );
}

#[test]
fn colours_of_several_samples_are_rewritten_together() {
    let png = image(2, ColorType::RGBA, BitDepth::Eight, vec![
        0, 1, 2, 3, 0, 4, 5, 6, 7, 0, 8, 9, 10, 11, 12, 13, 14, 0,
    ]);
    assert_eq!(
        rewritten(png.clone(), AlphaOptim::Left),
        vec![0, 4, 5, 6, 0, 4, 5, 6, 7, 0, 8, 9, 10, 11, 0, 0, 0, 0]
    );
    assert_eq!(
        rewritten(png, AlphaOptim::Up),
        vec![0, 0, 8, 9, 0, 4, 5, 6, 7, 0, 8, 9, 10, 11, 0, 0, 0, 0]
    );
}

#[test]
fn both_bytes_of_an_alpha_sample_count() {
    let png = image(1, ColorType::GrayscaleAlpha, BitDepth::Sixteen, vec![
        0, 1, 2, 0, 1, 0, 3, 4, 0, 0,
    ]);
    assert_eq!(rewritten(png, AlphaOptim::White), vec![0, 1, 2, 0, 1, 0, 255, 255, 0, 0]);
}

#[test]
fn what_shows_is_left_alone() {
    let optims = [
        AlphaOptim::Black,
        AlphaOptim::White,
        AlphaOptim::Up,
        AlphaOptim::Down,
        AlphaOptim::Left,
        AlphaOptim::Right,
    ];
    for optim in optims {
        let before = gray().raw_data;
        let after = rewritten(gray(), optim);
        assert_eq!(after.len(), before.len());
        for i in [0, 2, 3, 4, 6, 7, 8, 9, 11, 12, 13] {
            assert_eq!(after[i], before[i]);
        }
    }
}

#[test]
fn interlaced_lines_are_filled_from_all_before() {
    let mut png = image(5, ColorType::GrayscaleAlpha, BitDepth::Eight, vec![
        0, 1, 9, 0, 2, 0, 0, 3, 0,
    ]);
    png.ihdr_data.height = 1;
    png.ihdr_data.interlaced = 1;
    assert_eq!(rewritten(png, AlphaOptim::Down), vec![0, 1, 9, 0, 0, 0, 0, 0, 0]);
}

#[test]
fn nothing_is_rewritten_without_alpha_or_without_an_aim() {
    let mut png = gray();
    assert!(!png.reduce_alpha_channel(AlphaOptim::NoOp));
    assert_eq!(png.raw_data, gray().raw_data);
    let mut rgb = image(1, ColorType::RGB, BitDepth::Eight, vec![0, 1, 2, 0, 0, 1, 2, 0]);
    assert!(!rgb.reduce_alpha_channel(AlphaOptim::White));
    assert_eq!(rgb.raw_data, vec![0, 1, 2, 0, 0, 1, 2, 0]);
}

/// A line of transparent pixels whose colours do not repeat.
fn noise() -> PngData {
    let mut raw = vec![];
    let mut color: u32 = 1;
    for _ in 0..2 {
        raw.push(0);
        for _ in 0..64 {
            color = color * 75 % 65537;
            raw.push(color as u8);
            raw.push(0);
        }
    }
    image(64, ColorType::GrayscaleAlpha, BitDepth::Eight, raw)
}

#[test]
fn the_rewriting_that_compresses_best_is_chosen() {
    let mut png = noise();
    png.try_alpha_reduction(&[AlphaOptim::NoOp, AlphaOptim::Black]);
    assert_eq!(png.raw_data, vec![0; 258]);
    let mut same = noise();
    same.try_alpha_reduction(&[AlphaOptim::NoOp, AlphaOptim::Left]);
    assert_eq!(same.ihdr_data, noise().ihdr_data);
}

#[test]
fn the_first_of_equally_good_rewritings_is_chosen() {
    let mut png = gray();
    png.ihdr_data.color_type = ColorType::RGB;
    png.ihdr_data.width = 2;
    png.try_alpha_reduction(&[AlphaOptim::White, AlphaOptim::Black]);
    assert_eq!(png.raw_data, gray().raw_data);
    assert_eq!(smallest_size(&[3, 2, 2, 5]), 1);
    assert_eq!(smallest_size(&[7]), 0);
    assert_eq!(smallest_size(&[4, 4, 3]), 2);
}
