use pngopt::colors::{BitDepth, ColorType};
use pngopt::filters::{filter_line, unfilter_line};
use pngopt::headers::IhdrData;
use pngopt::png::PngData;

fn image(width: u32, height: u32, color_type: ColorType, bit_depth: BitDepth, interlaced: u8, raw_data: Vec<u8>) -> PngData {
    PngData {
        idat_data: vec![],
        ihdr_data: IhdrData { width, height, color_type, bit_depth, interlaced },
        raw_data,
        palette: None,
        transparency_pixel: None,
        transparency_palette: None,
        aux_headers: vec![],
    }
}

/// The lengths and passes of the lines of an image whose raw data has `len` bytes.
fn layout(width: u32, height: u32, bit_depth: BitDepth, interlaced: u8, len: usize) -> Vec<(usize, Option<u8>)> {
    let png = image(width, height, ColorType::Grayscale, bit_depth, interlaced, vec![0; len]);
    let mut lines = png.scan_lines();
    let mut list = vec![];
    while let Some(line) = lines.next() {
        list.push((line.data.len(), line.pass));
    }
    list
}

#[test]
fn lines_of_a_progressive_image() {
    let png = image(2, 2, ColorType::RGB, BitDepth::Eight, 0, vec![1, 2, 3, 4, 5, 6, 7, 0, 8, 9, 10, 11, 12, 13]);
    let mut lines = png.scan_lines();
    let first = lines.next().unwrap();
    assert_eq!(first.filter, 1);
    assert_eq!(first.data, vec![2, 3, 4, 5, 6, 7]);
    assert_eq!(first.pass, None);
    let second = lines.next().unwrap();
    assert_eq!(second.filter, 0);
    assert_eq!(second.data, vec![8, 9, 10, 11, 12, 13]);
    assert!(lines.next().is_none());
    assert!(lines.next().is_none());
}

#[test]
fn lines_make_up_the_raw_data() {
    let raw: Vec<u8> = (0..79).collect();
    let png = image(8, 8, ColorType::Grayscale, BitDepth::Eight, 1, raw.clone());
    let mut joined = vec![];
    let mut lines = png.scan_lines();
    while let Some(line) = lines.next() {
        joined.push(line.filter);
        joined.extend(line.data);
    }
    assert_eq!(joined, raw);
}

#[test]
fn lines_of_packed_pixels_are_rounded_up() {
    assert_eq!(layout(9, 2, BitDepth::One, 0, 6), vec![(2, None), (2, None)]);
    assert_eq!(layout(5, 1, BitDepth::Two, 0, 3), vec![(2, None)]);
    assert_eq!(layout(3, 1, BitDepth::Four, 0, 3), vec![(2, None)]);
    assert_eq!(layout(3, 1, BitDepth::Sixteen, 0, 7), vec![(6, None)]);
}

#[test]
fn lines_of_the_seven_passes() {
    let mut expected = vec![(1, Some(1)), (1, Some(2)), (2, Some(3))];
    expected.extend(vec![(2, Some(4)); 2]);
    expected.extend(vec![(4, Some(5)); 2]);
    expected.extend(vec![(4, Some(6)); 4]);
    expected.extend(vec![(8, Some(7)); 4]);
    assert_eq!(layout(8, 8, BitDepth::Eight, 1, 79), expected);
}

#[test]
fn small_interlaced_images_skip_passes() {
    // Narrower than five pixels: no second pass; lower than five pixels: no third pass
    assert_eq!(
        layout(4, 4, BitDepth::Eight, 1, 23),
        vec![
            (1, Some(1)),
            (1, Some(4)),
            (2, Some(5)),
            (2, Some(6)),
            (2, Some(6)),
            (4, Some(7)),
            (4, Some(7)),
        ]
    );
    // A final, incomplete block
    assert_eq!(
        layout(5, 1, BitDepth::Eight, 1, 6),
        vec![(1, Some(1)), (1, Some(2)), (1, Some(4))]
    );
    assert_eq!(
        layout(11, 5, BitDepth::Eight, 1, 66),
        vec![
            (2, Some(1)),
            (1, Some(2)),
            (3, Some(3)),
            (3, Some(4)),
            (3, Some(4)),
            (6, Some(5)),
            (5, Some(6)),
            (5, Some(6)),
            (5, Some(6)),
            (11, Some(7)),
            (11, Some(7)),
        ]
    );
}

#[test]
fn the_smallest_interlaced_images_have_only_passes_with_pixels() {
    let png = image(2, 1, ColorType::Grayscale, BitDepth::Eight, 1, vec![0, 7, 0, 9]);
    let mut lines = png.scan_lines();
    let first = lines.next().unwrap();
    assert_eq!((first.filter, first.data, first.pass), (0, vec![7], Some(1)));
    let second = lines.next().unwrap();
    assert_eq!((second.filter, second.data, second.pass), (0, vec![9], Some(6)));
    assert!(lines.next().is_none());
    assert_eq!(
        layout(2, 2, BitDepth::Eight, 1, 7),
        vec![(1, Some(1)), (1, Some(6)), (2, Some(7))]
    );
    assert_eq!(layout(1, 1, BitDepth::Eight, 1, 2), vec![(1, Some(1))]);
    assert_eq!(layout(1, 2, BitDepth::Eight, 1, 4), vec![(1, Some(1)), (1, Some(7))]);
    assert_eq!(
        layout(3, 3, BitDepth::Eight, 1, 15),
        vec![(1, Some(1)), (1, Some(4)), (2, Some(5)), (1, Some(6)), (1, Some(6)), (3, Some(7))]
    );
    // One pixel has one line only
    assert!(!image(1, 1, ColorType::Grayscale, BitDepth::Eight, 1, vec![0; 4]).has_whole_lines());
}

#[test]
fn a_full_interlaced_image_has_one_line_per_drawn_row() {
    let passes = [(0, 8, 0, 8), (4, 8, 0, 8), (0, 4, 4, 8), (2, 4, 0, 4), (0, 2, 2, 4), (1, 2, 0, 2), (0, 1, 1, 2)];
    for width in 1..18u32 {
        for height in 1..18u32 {
            let mut expected: Vec<(usize, Option<u8>)> = vec![];
            for (i, (first_column, column_step, first_row, row_step)) in passes.iter().enumerate() {
                let columns = (0..width).filter(|x| x % column_step == *first_column).count();
                for y in 0..height {
                    if columns > 0 && y % row_step == *first_row {
                        expected.push(((columns * 2 + 7) / 8, Some(i as u8 + 1)));
                    }
                }
            }
            let len = expected.iter().map(|(bytes, _)| bytes + 1).sum();
            assert_eq!(layout(width, height, BitDepth::Two, 1, len), expected);
        }
    }
}

#[test]
fn a_full_progressive_image_has_one_line_per_row() {
    assert_eq!(layout(9, 3, BitDepth::Four, 0, 18), vec![(5, None); 3]);
}

#[test]
fn the_first_lines_of_cut_data_are_handed_out() {
    let png = image(2, 2, ColorType::Grayscale, BitDepth::Eight, 0, vec![0, 1, 2, 0, 3]);
    assert!(!png.has_whole_lines());
    let mut lines = png.scan_lines();
    assert!(lines.is_ready());
    assert_eq!(lines.next().unwrap().data, vec![1, 2]);
    assert!(!lines.is_ready());
    let whole = image(2, 1, ColorType::Grayscale, BitDepth::Eight, 0, vec![0, 1, 2]);
    let mut all = whole.scan_lines();
    all.next();
    assert!(all.is_ready());
    assert!(all.next().is_none());
}

#[test]
fn each_filter_and_its_inverse() {
    let line = [10, 20, 30, 5];
    let last = [1, 200, 3, 4];
    assert_eq!(filter_line(0, 1, &line, &last), vec![10, 20, 30, 5]);
    assert_eq!(filter_line(1, 1, &line, &last), vec![10, 10, 10, 231]);
    assert_eq!(filter_line(2, 1, &line, &last), vec![9, 76, 27, 1]);
    assert_eq!(filter_line(3, 1, &line, &last), vec![10, 171, 19, 244]);
    assert_eq!(filter_line(4, 1, &line, &last), vec![9, 76, 27, 231]);
    for filter in 0..5 {
        let filtered = filter_line(filter, 1, &line, &last);
        assert_eq!(unfilter_line(filter, 1, &filtered, &last), line.to_vec());
        let unfiltered = unfilter_line(filter, 1, &line, &last);
        assert_eq!(filter_line(filter, 1, &unfiltered, &last), line.to_vec());
    }
}

#[test]
fn filters_look_a_whole_pixel_back() {
    assert_eq!(filter_line(1, 3, &[1, 2, 3, 5, 7, 9], &[]), vec![1, 2, 3, 4, 5, 6]);
    assert_eq!(unfilter_line(1, 3, &[1, 2, 3, 4, 5, 6], &[]), vec![1, 2, 3, 5, 7, 9]);
}

#[test]
fn an_image_is_filtered_and_unfiltered() {
    let raw = vec![0, 10, 20, 30, 0, 11, 21, 31, 0, 11, 22, 33];
    let png = image(3, 3, ColorType::Grayscale, BitDepth::Eight, 0, raw.clone());
    assert_eq!(png.filter_image(0), raw);
    assert_eq!(png.filter_image(1), vec![1, 10, 10, 10, 1, 11, 10, 10, 1, 11, 11, 11]);
    assert_eq!(png.filter_image(2), vec![2, 10, 20, 30, 2, 1, 1, 1, 2, 0, 1, 2]);
    for filter in 0..6 {
        let mut filtered = png.clone();
        filtered.raw_data = png.filter_image(filter);
        assert_eq!(filtered.unfilter_image(), raw);
    }
}

#[test]
fn the_smoothest_filter_is_picked_for_each_line() {
    // Sub and Paeth leave the first line equally smooth: the lower number wins
    let raw = vec![0, 10, 20, 30, 0, 11, 21, 31];
    let png = image(3, 2, ColorType::Grayscale, BitDepth::Eight, 0, raw);
    assert_eq!(png.filter_image(5), vec![1, 10, 10, 10, 2, 1, 1, 1]);
    // Bytes above 127 count as negative numbers
    let dark = image(2, 1, ColorType::Grayscale, BitDepth::Eight, 0, vec![0, 250, 250]);
    assert_eq!(dark.filter_image(5), vec![1, 250, 0]);
}

#[test]
fn filters_do_not_look_into_another_pass() {
    let png = image(4, 4, ColorType::Grayscale, BitDepth::Eight, 1, vec![
        0, 7, 0, 9, 0, 1, 2, 0, 3, 4, 0, 5, 6, 0, 1, 2, 3, 4, 0, 5, 6, 7, 8,
    ]);
    // Only the second lines of the last two passes stand below a line of their pass
    assert_eq!(
        png.filter_image(2),
        vec![0, 7, 0, 9, 0, 1, 2, 0, 3, 4, 2, 2, 2, 0, 1, 2, 3, 4, 2, 4, 4, 4, 4]
    );
    for filter in 0..6 {
        let mut filtered = png.clone();
        filtered.raw_data = png.filter_image(filter);
        assert_eq!(filtered.unfilter_image(), png.raw_data);
    }
}

#[test]
fn an_image_without_lines_is_filtered_to_nothing() {
    let png = image(3, 0, ColorType::Grayscale, BitDepth::Eight, 0, vec![]);
    assert_eq!(png.filter_image(5), vec![]);
    assert_eq!(png.unfilter_image(), vec![]);
}

#[test]
fn whole_lines_are_told_from_others() {
    assert!(image(3, 2, ColorType::Grayscale, BitDepth::Eight, 0, vec![0; 8]).has_whole_lines());
    assert!(image(3, 2, ColorType::Grayscale, BitDepth::Eight, 0, vec![]).has_whole_lines());
    assert!(!image(3, 2, ColorType::Grayscale, BitDepth::Eight, 0, vec![0; 7]).has_whole_lines());
    assert!(image(8, 8, ColorType::Grayscale, BitDepth::Eight, 1, vec![0; 79]).has_whole_lines());
    assert!(!image(8, 8, ColorType::Grayscale, BitDepth::Eight, 1, vec![0; 88]).has_whole_lines());
}
