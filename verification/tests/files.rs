use pngopt::bytes::read_u32_be;
use pngopt::chunks::{file_header_is_valid, parse_next_header, write_png_block};
use pngopt::colors::{BitDepth, ColorType};
use pngopt::decode::read_parts;
use pngopt::error::PngError;
use pngopt::headers::parse_ihdr_header;
use pngopt::png::PngData;

/// A grayscale image of 3 by 2 pixels with the chunks gAMA, tRNS and bKGD. Its image data is
/// stored, its first line has filter 1 and its second line filter 2.
const GRAY: [u8; 120] = [
    0x89, 0x50, 0x4E, 0x47, 0x0D, 0x0A, 0x1A, 0x0A, 0x00, 0x00, 0x00, 0x0D, 0x49, 0x48, 0x44, 0x52,
    0x00, 0x00, 0x00, 0x03, 0x00, 0x00, 0x00, 0x02, 0x08, 0x00, 0x00, 0x00, 0x00, 0xB8, 0x1F, 0x39,
    0xC6, 0x00, 0x00, 0x00, 0x04, 0x67, 0x41, 0x4D, 0x41, 0x00, 0x00, 0xB1, 0x8F, 0x0B, 0xFC, 0x61,
    0x05, 0x00, 0x00, 0x00, 0x02, 0x74, 0x52, 0x4E, 0x53, 0x00, 0x0A, 0x96, 0x46, 0x24, 0x26, 0x00,
    0x00, 0x00, 0x02, 0x62, 0x4B, 0x47, 0x44, 0x00, 0x10, 0xB7, 0x3A, 0x33, 0x56, 0x00, 0x00, 0x00,
    0x13, 0x49, 0x44, 0x41, 0x54, 0x78, 0x01, 0x01, 0x08, 0x00, 0xF7, 0xFF, 0x01, 0x0A, 0x05, 0xFA,
    0x02, 0x01, 0x01, 0x01, 0x05, 0x64, 0x01, 0x10, 0x23, 0x29, 0xFC, 0x47, 0x00, 0x00, 0x00, 0x00,
    0x49, 0x45, 0x4E, 0x44, 0xAE, 0x42, 0x60, 0x82,
];

const IHDR: [u8; 13] = [0, 0, 0, 3, 0, 0, 0, 2, 8, 0, 0, 0, 0];

const SIGNATURE: [u8; 8] = [0x89, 0x50, 0x4E, 0x47, 0x0D, 0x0A, 0x1A, 0x0A];

const STORED: [u8; 19] = [
    0x78, 0x01, 0x01, 0x08, 0x00, 0xF7, 0xFF, 0x01, 0x0A, 0x05, 0xFA, 0x02, 0x01, 0x01, 0x01, 0x05,
    0x64, 0x01, 0x10,
];

fn file_of(chunks: &[(&str, &[u8])]) -> Vec<u8> {
    let mut file = SIGNATURE.to_vec();
    for (name, content) in chunks {
        write_png_block(name.as_bytes(), content, &mut file);
    }
    write_png_block(b"IEND", &[], &mut file);
    file
}

fn read(file: &[u8], fix_errors: bool) -> PngData {
    match PngData::try_from_slice(file, fix_errors) {
        Some(Ok(png)) => png,
        Some(Err(error)) => panic!("{}", error.description()),
        None => panic!("unreadable raw data"),
    }
}

fn error_of(file: &[u8], fix_errors: bool) -> String {
    match PngData::try_from_slice(file, fix_errors) {
        Some(Err(error)) => error.description().to_string(),
        Some(Ok(_)) => panic!("the file was read"),
        None => panic!("unreadable raw data"),
    }
}

#[test]
fn a_file_is_read() {
    let png = read(&GRAY, false);
    assert_eq!(png.ihdr_data.width, 3);
    assert_eq!(png.ihdr_data.height, 2);
    assert_eq!(png.ihdr_data.color_type, ColorType::Grayscale);
    assert_eq!(png.ihdr_data.bit_depth, BitDepth::Eight);
    assert_eq!(png.ihdr_data.interlaced, 0);
    assert_eq!(png.idat_data, STORED.to_vec());
    assert_eq!(png.raw_data, vec![0, 10, 15, 9, 0, 11, 16, 10]);
    assert_eq!(png.palette, None);
    assert_eq!(png.transparency_pixel, Some(vec![0, 10]));
    assert_eq!(png.transparency_palette, None);
    assert_eq!(png.aux_headers.len(), 2);
    assert_eq!(png.aux_headers[0], ("gAMA".to_string(), vec![0, 0, 0xB1, 0x8F]));
    assert_eq!(png.aux_headers[1], ("bKGD".to_string(), vec![0, 16]));
    assert_eq!(png.channels_per_pixel(), 1);
}

#[test]
fn from_slice_reads_the_same() {
    let png = PngData::from_slice(&GRAY, false).unwrap();
    assert_eq!(png.raw_data, read(&GRAY, false).raw_data);
}

#[test]
fn the_same_file_is_written() {
    assert_eq!(read(&GRAY, false).output(), GRAY.to_vec());
}

#[test]
fn rewriting_a_file_keeps_the_image() {
    let scrambled = file_of(&[
        ("bKGD", &[0, 7]),
        ("IHDR", &IHDR),
        ("IDAT", &STORED[0..5]),
        ("tIME", &[1]),
        ("IDAT", &STORED[5..]),
        ("tIME", &[2]),
    ]);
    let png = read(&scrambled, false);
    assert_eq!(png.idat_data, STORED.to_vec());
    assert_eq!(
        png.aux_headers,
        vec![("bKGD".to_string(), vec![0, 7]), ("tIME".to_string(), vec![2])]
    );
    let written = png.output();
    assert_eq!(
        written,
        file_of(&[("IHDR", &IHDR), ("tIME", &[2]), ("bKGD", &[0, 7]), ("IDAT", &STORED)])
    );
    let again = read(&written, false);
    assert_eq!(again.raw_data, png.raw_data);
    assert_eq!(again.ihdr_data, png.ihdr_data);
    assert_eq!(again.idat_data, png.idat_data);
    assert_eq!(
        again.aux_headers,
        vec![("tIME".to_string(), vec![2]), ("bKGD".to_string(), vec![0, 7])]
    );
}

#[test]
fn palettes_are_written_with_their_transparency() {
    let ihdr = [0, 0, 0, 3, 0, 0, 0, 2, 8, 3, 0, 0, 0];
    let file = file_of(&[
        ("IHDR", &ihdr),
        ("PLTE", &[1, 2, 3]),
        ("tRNS", &[9]),
        ("hIST", &[5, 5]),
        ("IDAT", &STORED),
    ]);
    let png = read(&file, false);
    assert_eq!(png.ihdr_data.color_type, ColorType::Indexed);
    assert_eq!(png.palette, Some(vec![1, 2, 3]));
    assert_eq!(png.transparency_palette, Some(vec![9]));
    assert_eq!(png.transparency_pixel, None);
    assert_eq!(png.output(), file);
}

#[test]
fn a_transparent_pixel_is_not_written_beside_a_palette() {
    let file = file_of(&[
        ("IHDR", &IHDR),
        ("PLTE", &[1, 2, 3]),
        ("tRNS", &[0, 9]),
        ("IDAT", &STORED),
    ]);
    let png = read(&file, false);
    assert_eq!(png.transparency_pixel, Some(vec![0, 9]));
    assert_eq!(
        png.output(),
        file_of(&[("IHDR", &IHDR), ("PLTE", &[1, 2, 3]), ("IDAT", &STORED)])
    );
}

#[test]
fn a_wrong_signature_is_refused() {
    assert_eq!(error_of(&GRAY[0..7], false), "Invalid PNG header detected");
    let mut file = GRAY.to_vec();
    file[1] = 0x51;
    assert_eq!(error_of(&file, true), "Invalid PNG header detected");
    assert!(file_header_is_valid(&SIGNATURE));
    assert!(!file_header_is_valid(&file[0..8]));
}

#[test]
fn a_wrong_checksum_is_refused_unless_errors_are_fixed() {
    let mut file = GRAY.to_vec();
    file[45] = file[45] ^ 1;
    assert_eq!(error_of(&file, false), "Corrupt data chunk found--CRC Mismatch");
    assert_eq!(read(&file, true).output(), GRAY.to_vec());
}

#[test]
fn good_files_read_the_same_when_errors_are_fixed() {
    let (strict, lenient) = (read(&GRAY, false), read(&GRAY, true));
    assert_eq!(strict.raw_data, lenient.raw_data);
    assert_eq!(strict.aux_headers, lenient.aux_headers);
}

#[test]
fn a_cut_file_is_refused() {
    assert_eq!(error_of(&GRAY[0..20], false), "Invalid data found; unable to read PNG file");
    assert_eq!(error_of(&GRAY[0..110], false), "Invalid data found; unable to read PNG file");
    assert_eq!(error_of(&GRAY[0..8], false), "Invalid data found; unable to read PNG file");
    // The name of the last chunk is enough
    assert_eq!(read(&GRAY[0..116], false).raw_data.len(), 8);
}

#[test]
fn a_chunk_name_that_is_no_text_is_refused() {
    let mut file = GRAY.to_vec();
    file[37] = 0xFF;
    assert_eq!(error_of(&file, true), "Invalid data found; unable to read PNG file");
}

#[test]
fn missing_chunks_are_reported() {
    assert_eq!(error_of(&file_of(&[("IHDR", &IHDR)]), false), "Image data was empty, skipping");
    assert_eq!(
        error_of(&file_of(&[("IDAT", &STORED)]), false),
        "Image header data was missing, skipping"
    );
}

#[test]
fn bad_headers_are_reported() {
    let short = file_of(&[("IHDR", &IHDR[0..12]), ("IDAT", &STORED)]);
    assert_eq!(error_of(&short, false), "Image header data was too short");
    let color = file_of(&[("IHDR", &[0, 0, 0, 3, 0, 0, 0, 2, 8, 1, 0, 0, 0]), ("IDAT", &STORED)]);
    assert_eq!(error_of(&color, false), "Unexpected color type in header");
    let depth = file_of(&[("IHDR", &[0, 0, 0, 3, 0, 0, 0, 2, 7, 0, 0, 0, 0]), ("IDAT", &STORED)]);
    assert_eq!(error_of(&depth, false), "Unexpected bit depth in header");
}

#[test]
fn data_that_is_not_compressed_is_reported() {
    let file = file_of(&[("IHDR", &IHDR), ("IDAT", &[1, 2, 3, 4])]);
    assert_eq!(error_of(&file, false), "Image data could not be decompressed");
}

#[test]
fn raw_data_that_is_not_made_of_lines_gives_nothing() {
    // Four pixels per line do not divide the eight bytes
    let wide = file_of(&[("IHDR", &[0, 0, 0, 4, 0, 0, 0, 2, 8, 0, 0, 0, 0]), ("IDAT", &STORED)]);
    assert!(PngData::try_from_slice(&wide, false).is_none());
    // A line of one pixel starts with the byte 5, which is no filter
    let narrow = file_of(&[("IHDR", &[0, 0, 0, 1, 0, 0, 0, 2, 8, 0, 0, 0, 0]), ("IDAT", &STORED)]);
    assert!(PngData::try_from_slice(&narrow, false).is_none());
}

#[test]
fn a_chunk_is_written_with_its_length_and_checksum() {
    let mut out = vec![7];
    write_png_block(b"gAMA", &[0, 0, 0xB1, 0x8F], &mut out);
    assert_eq!(out[0], 7);
    assert_eq!(&out[1..], &GRAY[33..49]);
    assert_eq!(read_u32_be(&out, 13), 0x0BFC_6105);
}

#[test]
fn auxiliary_chunks_have_different_names() {
    let file = file_of(&[
        ("tIME", &[1]),
        ("IHDR", &IHDR),
        ("gAMA", &[3]),
        ("tIME", &[2]),
        ("IDAT", &STORED),
        ("gAMA", &[4]),
    ]);
    assert_eq!(
        read(&file, false).aux_headers,
        vec![("tIME".to_string(), vec![2]), ("gAMA".to_string(), vec![4])]
    );
}

#[test]
fn a_written_chunk_is_read_back() {
    let mut file = vec![1, 2, 3];
    write_png_block(b"tEXt", b"abc", &mut file);
    write_png_block(b"IEND", &[], &mut file);
    let mut offset: usize = 3;
    let chunk = parse_next_header(&file, &mut offset, false).unwrap();
    assert_eq!(chunk, Some(("tEXt".to_string(), b"abc".to_vec())));
    assert_eq!(offset, 18);
    assert_eq!(parse_next_header(&file, &mut offset, false).unwrap(), None);
    assert_eq!(offset, 18);
}

#[test]
fn headers_are_read() {
    let ihdr = parse_ihdr_header(&[0, 1, 0, 2, 0xFF, 0, 0, 0, 16, 6, 0, 0, 1]).unwrap();
    assert_eq!(ihdr.width, 65538);
    assert_eq!(ihdr.height, 0xFF00_0000);
    assert_eq!(ihdr.bit_depth, BitDepth::Sixteen);
    assert_eq!(ihdr.color_type, ColorType::RGBA);
    assert_eq!(ihdr.interlaced, 1);
}

#[test]
fn parts_and_raw_data_make_up_an_image() {
    let parts = read_parts(&GRAY, false).unwrap();
    assert_eq!(parts.idat_data, STORED.to_vec());
    assert_eq!(parts.aux_headers.len(), 3);
    let png = PngData::from_parts(parts, vec![4, 1, 1, 1, 3, 2, 2, 2]);
    assert_eq!(png.raw_data, vec![0, 1, 2, 3, 0, 2, 4, 5]);
    assert_eq!(png.transparency_pixel, Some(vec![0, 10]));
}

#[test]
fn an_image_is_copied_and_reset() {
    let original = read(&GRAY, false);
    let mut png = original.clone();
    png.raw_data = vec![0];
    png.palette = Some(vec![1, 2, 3]);
    png.aux_headers.clear();
    png.ihdr_data.width = 9;
    png.reset_from_original(&original);
    assert_eq!(png.output(), GRAY.to_vec());
    assert_eq!(png.raw_data, original.raw_data);
    assert_eq!(png.palette, None);
    assert_eq!(png.ihdr_data, original.ihdr_data);
}

#[test]
fn an_error_keeps_its_words() {
    assert_eq!(PngError::new("words").description(), "words");
}
