//! Lossless rewriting of PNG images.

pub mod alpha;
pub mod alpha_choice;
pub mod alpha_laws;
pub mod bit_depth;
pub mod bytes;
pub mod chunks;
pub mod clear_pixels;
pub mod colors;
pub mod decode;
pub mod encode;
pub mod error;
pub mod file_laws;
pub mod filter_laws;
pub mod filtering;
pub mod filters;
pub mod format_laws;
pub mod headers;
pub mod outside;
pub mod palette;
pub mod palette_bytes;
pub mod palette_laws;
pub mod png;
pub mod renumber;
pub mod rewriting;
pub mod round_trip;
pub mod scan;
pub mod scan_laws;
pub mod steps;
