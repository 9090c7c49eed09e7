use pngopt::bit_depth::DepthReduction;
use pngopt::colors::{BitDepth, ColorType};
use pngopt::headers::IhdrData;
use pngopt::png::PngData;
use pngopt::steps::{ColorReduction, ColorStep, InterlaceStep};

fn image(width: u32, color_type: ColorType, bit_depth: BitDepth, raw_data: Vec<u8>) -> PngData {
    PngData {
        idat_data: vec![],
        ihdr_data: IhdrData { width, height: 2, color_type, bit_depth, interlaced: 0 },
        raw_data,
        palette: None,
        transparency_pixel: None,
        transparency_palette: None,
        aux_headers: vec![],
    }
}

#[test]
fn sixteen_bits_become_eight_where_the_bytes_repeat() {
    let raw = vec![1, 5, 5, 6, 6, 2, 7, 7, 8, 8];
    let mut png = image(2, ColorType::Grayscale, BitDepth::Sixteen, raw.clone());
    assert_eq!(png.reduce_bit_depth(), DepthReduction::Reduced);
    assert_eq!(png.ihdr_data.bit_depth, BitDepth::Eight);
    assert_eq!(png.raw_data, vec![1, 5, 6, 2, 7, 8]);
    let mut doubled = vec![];
    let mut lines = png.scan_lines();
    while let Some(line) = lines.next() {
        doubled.push(line.filter);
        for byte in line.data {
            doubled.push(byte);
            doubled.push(byte);
        }
    }
    assert_eq!(doubled, raw);
}

#[test]
fn sixteen_bits_are_kept_where_the_bytes_differ() {
    let raw = vec![0, 5, 5, 6, 6, 0, 7, 7, 8, 9];
    let mut png = image(2, ColorType::Grayscale, BitDepth::Sixteen, raw.clone());
    assert_eq!(png.reduce_bit_depth(), DepthReduction::Kept);
    assert_eq!(png.ihdr_data.bit_depth, BitDepth::Sixteen);
    assert_eq!(png.raw_data, raw);
}

#[test]
fn lower_bit_depths_are_tried_for_one_channel_only() {
    let mut gray = image(1, ColorType::Grayscale, BitDepth::Eight, vec![0, 1, 0, 1]);
    assert_eq!(gray.reduce_bit_depth(), DepthReduction::EightOrLess);
    let mut indexed = image(1, ColorType::Indexed, BitDepth::Four, vec![0, 1, 0, 1]);
    assert_eq!(indexed.reduce_bit_depth(), DepthReduction::EightOrLess);
    assert_eq!(indexed.raw_data, vec![0, 1, 0, 1]);
    let mut rgb = image(1, ColorType::RGB, BitDepth::Eight, vec![0, 1, 1, 1, 0, 1, 1, 1]);
    assert_eq!(rgb.reduce_bit_depth(), DepthReduction::Kept);
}

/// The conversions that are tried on an image of the given colour type, if those in `good` succeed
/// and lead to the colour type beside them, and whether the image has changed.
fn tried(color_type: ColorType, good: &[(ColorStep, ColorType)]) -> (Vec<ColorStep>, bool) {
    let mut current = color_type;
    let mut state: ColorReduction = image(1, color_type, BitDepth::Eight, vec![]).reduce_color_type();
    let mut steps = vec![];
    while let Some(step) = state.next {
        steps.push(step);
        let mut succeeded = false;
        for (other, after) in good {
            if *other == step {
                succeeded = true;
                current = *after;
            }
        }
        state.advance(succeeded, current);
    }
    (steps, state.changed)
}

#[test]
fn all_conversions_of_an_rgba_image_are_tried_until_one_succeeds() {
    let (all, changed) = tried(ColorType::RGBA, &[]);
    assert_eq!(
        all,
        vec![ColorStep::RgbaToGrayscaleAlpha, ColorStep::RgbaToRgb, ColorStep::RgbaToPalette]
    );
    assert!(!changed);
    let indexed = tried(ColorType::RGBA, &[(ColorStep::RgbaToPalette, ColorType::Indexed)]);
    assert_eq!(
        indexed,
        (
            vec![
                ColorStep::RgbaToGrayscaleAlpha,
                ColorStep::RgbaToRgb,
                ColorStep::RgbaToPalette,
                ColorStep::BitDepthEightOrLess,
            ],
            true,
        )
    );
}

#[test]
fn conversions_follow_one_another() {
    let down = tried(ColorType::RGBA, &[
        (ColorStep::RgbaToGrayscaleAlpha, ColorType::GrayscaleAlpha),
        (ColorStep::GrayscaleAlphaToGrayscale, ColorType::Grayscale),
    ]);
    assert_eq!(
        down,
        (
            vec![
                ColorStep::RgbaToGrayscaleAlpha,
                ColorStep::GrayscaleAlphaToGrayscale,
                ColorStep::BitDepthEightOrLess,
            ],
            true,
        )
    );
    let rgb = tried(ColorType::RGBA, &[(ColorStep::RgbaToRgb, ColorType::RGB)]);
    assert_eq!(
        rgb,
        (
            vec![
                ColorStep::RgbaToGrayscaleAlpha,
                ColorStep::RgbaToRgb,
                ColorStep::RgbToGrayscale,
                ColorStep::RgbToPalette,
            ],
            true,
        )
    );
}

#[test]
fn other_images_start_further_down() {
    assert_eq!(tried(ColorType::Grayscale, &[]), (vec![], false));
    assert_eq!(tried(ColorType::Indexed, &[]), (vec![], false));
    assert_eq!(
        tried(ColorType::GrayscaleAlpha, &[]),
        (vec![ColorStep::GrayscaleAlphaToGrayscale], false)
    );
    assert_eq!(
        tried(ColorType::RGB, &[(ColorStep::RgbToPalette, ColorType::Indexed)]),
        (
            vec![
                ColorStep::RgbToGrayscale,
                ColorStep::RgbToPalette,
                ColorStep::BitDepthEightOrLess,
            ],
            true,
        )
    );
}

#[test]
fn interlacing_is_changed_where_it_differs() {
    let mut png = image(1, ColorType::Grayscale, BitDepth::Eight, vec![]);
    assert_eq!(png.change_interlacing(0), InterlaceStep::Keep);
    assert_eq!(png.change_interlacing(1), InterlaceStep::Interlace);
    png.ihdr_data.interlaced = 1;
    assert_eq!(png.change_interlacing(1), InterlaceStep::Keep);
    assert_eq!(png.change_interlacing(0), InterlaceStep::Deinterlace);
}
