# pngopt

Lossless rewriting of PNG images: reading and writing files, scan lines and their filters, and the
reductions that make an image smaller. The library is verified with Verus.

- `src/chunks.rs`, `src/headers.rs`, `src/decode.rs`, `src/encode.rs`: the file format. What
  reading gives back of what was written stands in `src/round_trip.rs` and `src/rewriting.rs`.
- `src/scan.rs`, `src/filters.rs`, `src/filtering.rs`: scan lines, also of interlaced images, and
  the five filters with the choice among them. Which rows of an image its lines are stands in
  `src/scan_laws.rs`.
- `src/palette.rs`, `src/renumber.rs`, `src/palette_laws.rs`: taking repeated and unused entries out
  of a palette.
- `src/bit_depth.rs`: going from 16 to 8 bits per sample.
- `src/alpha.rs`, `src/alpha_choice.rs`, `src/alpha_laws.rs`: the colours of transparent pixels.
- `src/steps.rs`: which conversions of the colour type and of the interlacing to try, and in which
  order. The conversions themselves are made by the user of the library.
- `src/outside.rs`: the calls into other crates, with what is believed of them.
- `app/`: opening files, iterating over scan lines, and driving the conversions.
