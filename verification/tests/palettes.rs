use pngopt::colors::{BitDepth, ColorType};
use pngopt::headers::IhdrData;
use pngopt::png::PngData;

fn indexed(width: u32, bit_depth: BitDepth, raw_data: Vec<u8>, palette: Vec<u8>, alphas: Option<Vec<u8>>) -> PngData {
    PngData {
        idat_data: vec![],
        ihdr_data: IhdrData { width, height: 1, color_type: ColorType::Indexed, bit_depth, interlaced: 0 },
        raw_data,
        palette: Some(palette),
        transparency_pixel: None,
        transparency_palette: alphas,
        aux_headers: vec![],
    }
}

/// The colour and opacity of each pixel of an image with 8 bits per pixel.
fn pixels(png: &PngData) -> Vec<Vec<u8>> {
    let palette = png.palette.clone().unwrap();
    let alphas = png.transparency_palette.clone().unwrap_or(vec![]);
    let mut list = vec![];
    let mut lines = png.scan_lines();
    while let Some(line) = lines.next() {
        for index in line.data {
            let at = index as usize;
            let mut pixel = palette[3 * at..3 * at + 3].to_vec();
            pixel.push(*alphas.get(at).unwrap_or(&255));
            list.push(pixel);
        }
    }
    list
}

#[test]
fn repeated_entries_are_merged() {
    let mut png = indexed(
        4,
        BitDepth::Eight,
        vec![0, 0, 1, 2, 3],
        vec![1, 1, 1, 2, 2, 2, 1, 1, 1, 3, 3, 3],
        None,
    );
    let before = pixels(&png);
    assert!(png.reduce_palette());
    assert_eq!(png.palette, Some(vec![1, 1, 1, 2, 2, 2, 3, 3, 3]));
    assert_eq!(png.raw_data, vec![0, 0, 1, 0, 2]);
    assert_eq!(pixels(&png), before);
}

#[test]
fn unused_entries_are_taken_out() {
    let mut png = indexed(
        3,
        BitDepth::Eight,
        vec![0, 4, 1, 4],
        vec![9, 9, 9, 1, 1, 1, 8, 8, 8, 7, 7, 7, 2, 2, 2],
        None,
    );
    let before = pixels(&png);
    assert!(png.reduce_palette());
    assert_eq!(png.palette, Some(vec![1, 1, 1, 2, 2, 2]));
    assert_eq!(png.raw_data, vec![0, 1, 0, 1]);
    assert_eq!(pixels(&png), before);
}

#[test]
fn repeated_and_unused_entries_are_taken_out_together() {
    let mut png = indexed(
        4,
        BitDepth::Eight,
        vec![0, 1, 3, 4, 1],
        vec![5, 5, 5, 6, 6, 6, 7, 7, 7, 6, 6, 6, 8, 8, 8, 5, 5, 5],
        None,
    );
    let before = pixels(&png);
    assert!(png.reduce_palette());
    assert_eq!(png.palette, Some(vec![6, 6, 6, 8, 8, 8]));
    assert_eq!(png.raw_data, vec![0, 0, 0, 1, 0]);
    assert_eq!(pixels(&png), before);
}

#[test]
fn a_full_palette_is_kept() {
    let mut png = indexed(2, BitDepth::Eight, vec![0, 1, 0], vec![1, 1, 1, 2, 2, 2], None);
    assert!(!png.reduce_palette());
    assert_eq!(png.palette, Some(vec![1, 1, 1, 2, 2, 2]));
    assert_eq!(png.raw_data, vec![0, 1, 0]);
}

#[test]
fn entries_of_different_opacity_are_different() {
    let mut png = indexed(
        4,
        BitDepth::Eight,
        vec![0, 0, 1, 2, 3],
        vec![1, 1, 1, 1, 1, 1, 1, 1, 1, 1, 1, 1],
        Some(vec![0, 255, 0]),
    );
    let before = pixels(&png);
    assert!(png.reduce_palette());
    assert_eq!(png.palette, Some(vec![1, 1, 1, 1, 1, 1]));
    assert_eq!(png.transparency_palette, Some(vec![0]));
    assert_eq!(png.raw_data, vec![0, 0, 1, 0, 1]);
    assert_eq!(pixels(&png), before);
}

#[test]
fn opacities_move_with_their_colours() {
    let mut png = indexed(
        2,
        BitDepth::Eight,
        vec![0, 1, 3],
        vec![1, 1, 1, 2, 2, 2, 3, 3, 3, 4, 4, 4],
        Some(vec![10, 20, 30, 255]),
    );
    let before = pixels(&png);
    assert!(png.reduce_palette());
    assert_eq!(png.palette, Some(vec![2, 2, 2, 4, 4, 4]));
    assert_eq!(png.transparency_palette, Some(vec![20]));
    assert_eq!(pixels(&png), before);
}

#[test]
fn nothing_is_done_without_a_palette_or_with_one_bit() {
    let mut gray = indexed(1, BitDepth::Eight, vec![0, 0], vec![1, 1, 1], None);
    gray.ihdr_data.color_type = ColorType::Grayscale;
    gray.palette = None;
    assert!(!gray.reduce_palette());
    assert_eq!(gray.palette, None);
    let mut bits = indexed(8, BitDepth::One, vec![0, 0], vec![1, 1, 1, 1, 1, 1], None);
    assert!(!bits.reduce_palette());
    assert_eq!(bits.palette, Some(vec![1, 1, 1, 1, 1, 1]));
}

#[test]
fn four_bit_indices_are_met_in_both_halves() {
    // Indices 0, 2, 1 and padding 0
    let mut png = indexed(3, BitDepth::Four, vec![0, 0x02, 0x10], vec![1, 1, 1, 2, 2, 2, 3, 3, 3], None);
    assert!(!png.reduce_palette());
    assert_eq!(png.raw_data, vec![0, 0x02, 0x10]);
    // Index 1 is met nowhere, index 2 in a lower half
    let mut gap = indexed(2, BitDepth::Four, vec![0, 0x02], vec![1, 1, 1, 2, 2, 2, 3, 3, 3], None);
    assert!(gap.reduce_palette());
    assert_eq!(gap.palette, Some(vec![1, 1, 1, 3, 3, 3]));
    assert_eq!(gap.raw_data, vec![0, 0x01]);
}

#[test]
fn four_bit_indices_are_renumbered_in_both_halves() {
    let mut png = indexed(2, BitDepth::Four, vec![0, 0x22], vec![1, 1, 1, 2, 2, 2, 3, 3, 3], None);
    assert!(png.reduce_palette());
    assert_eq!(png.palette, Some(vec![3, 3, 3]));
    assert_eq!(png.raw_data, vec![0, 0x00]);
    let mut upper = indexed(2, BitDepth::Four, vec![0, 0x20], vec![1, 2, 3, 4, 5, 6, 7, 8, 9], None);
    assert!(upper.reduce_palette());
    assert_eq!(upper.palette, Some(vec![1, 2, 3, 7, 8, 9]));
    assert_eq!(upper.raw_data, vec![0, 0x10]);
    // Entry 2 repeats entry 0
    let mut repeat = indexed(2, BitDepth::Four, vec![0, 0x21], vec![1, 1, 1, 2, 2, 2, 1, 1, 1], None);
    assert!(repeat.reduce_palette());
    assert_eq!(repeat.palette, Some(vec![1, 1, 1, 2, 2, 2]));
    assert_eq!(repeat.raw_data, vec![0, 0x01]);
}

#[test]
fn two_bit_indices_are_met_in_all_four_places() {
    let mut png = indexed(4, BitDepth::Two, vec![0, 0b00_01_10_11], vec![1, 1, 1, 2, 2, 2, 3, 3, 3, 4, 4, 4], None);
    assert!(!png.reduce_palette());
    assert_eq!(png.raw_data, vec![0, 0b00_01_10_11]);
}

#[test]
fn two_bit_indices_are_renumbered_in_all_four_places() {
    let palette = vec![1, 1, 1, 2, 2, 2, 3, 3, 3];
    let mut high = indexed(4, BitDepth::Two, vec![0, 0b10_10_10_00], palette.clone(), None);
    assert!(high.reduce_palette());
    assert_eq!(high.palette, Some(vec![1, 1, 1, 3, 3, 3]));
    assert_eq!(high.raw_data, vec![0, 0b01_01_01_00]);
    // Indices 0 and 1 do not move when entry 2 goes
    let mut low = indexed(4, BitDepth::Two, vec![0, 0x11], palette, None);
    assert!(low.reduce_palette());
    assert_eq!(low.palette, Some(vec![1, 1, 1, 2, 2, 2]));
    assert_eq!(low.raw_data, vec![0, 0x11]);
}

#[test]
fn unused_entries_are_taken_out_of_the_largest_palette() {
    let mut palette = vec![];
    for i in 0..256 {
        palette.extend(vec![i as u8, 0, 0]);
    }
    let mut png = indexed(2, BitDepth::Eight, vec![0, 7, 255], palette, None);
    let before = pixels(&png);
    assert!(png.reduce_palette());
    assert_eq!(png.palette, Some(vec![7, 0, 0, 255, 0, 0]));
    assert_eq!(png.raw_data, vec![0, 0, 1]);
    assert_eq!(pixels(&png), before);
}

#[test]
fn nothing_changes_where_nothing_is_reported() {
    // The index 7 is not in the palette, so the number met is never that of the entries
    let mut stray = indexed(3, BitDepth::Eight, vec![0, 0, 1, 7], vec![1, 1, 1, 2, 2, 2], Some(vec![255, 0]));
    assert!(!stray.reduce_palette());
    assert_eq!(stray.palette, Some(vec![1, 1, 1, 2, 2, 2]));
    assert_eq!(stray.transparency_palette, Some(vec![255, 0]));
    assert_eq!(stray.raw_data, vec![0, 0, 1, 7]);
    let mut packed = indexed(4, BitDepth::Two, vec![0, 0b00_01_11_00], vec![1, 1, 1, 2, 2, 2], None);
    assert!(!packed.reduce_palette());
    assert_eq!(packed.palette, Some(vec![1, 1, 1, 2, 2, 2]));
    assert_eq!(packed.raw_data, vec![0, 0b00_01_11_00]);
}

#[test]
fn full_opacities_at_the_end_are_dropped() {
    let mut stray = indexed(3, BitDepth::Eight, vec![0, 0, 1, 7], vec![1, 1, 1, 2, 2, 2], Some(vec![0, 255]));
    assert!(stray.reduce_palette());
    assert_eq!(stray.palette, Some(vec![1, 1, 1, 2, 2, 2]));
    assert_eq!(stray.transparency_palette, Some(vec![0]));
    assert_eq!(stray.raw_data, vec![0, 0, 1, 7]);
    // Where all entries are met, the search ends early, and they stay
    let mut met = indexed(2, BitDepth::Eight, vec![0, 0, 1], vec![1, 1, 1, 2, 2, 2], Some(vec![0, 255]));
    assert!(!met.reduce_palette());
    assert_eq!(met.transparency_palette, Some(vec![0, 255]));
}

#[test]
fn each_entry_of_a_reduced_palette_is_used() {
    let mut png = indexed(
        5,
        BitDepth::Eight,
        vec![0, 5, 1, 5, 3, 1],
        vec![1, 1, 1, 2, 2, 2, 1, 1, 1, 2, 2, 2, 9, 9, 9, 3, 3, 3],
        None,
    );
    let before = pixels(&png);
    assert!(png.reduce_palette());
    assert_eq!(png.palette, Some(vec![2, 2, 2, 3, 3, 3]));
    assert_eq!(png.raw_data, vec![0, 1, 0, 1, 0, 0]);
    assert_eq!(pixels(&png), before);
}

#[test]
fn a_reduced_palette_has_no_repeats() {
    let mut png = indexed(
        6,
        BitDepth::Eight,
        vec![0, 5, 4, 3, 2, 1, 0],
        vec![1, 1, 1, 2, 2, 2, 1, 1, 1, 2, 2, 2, 1, 1, 1, 3, 3, 3],
        None,
    );
    let before = pixels(&png);
    assert!(png.reduce_palette());
    assert_eq!(png.palette, Some(vec![1, 1, 1, 2, 2, 2, 3, 3, 3]));
    assert_eq!(png.raw_data, vec![0, 2, 0, 1, 0, 1, 0]);
    assert_eq!(pixels(&png), before);
    assert!(!png.reduce_palette());
}
