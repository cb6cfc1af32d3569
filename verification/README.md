# Baseline JPEG encoder with verified stages

A baseline sequential DCT JPEG encoder (ITU-T T.81, JFIF 1.02) for 8-bit RGB
and grayscale images, with a PPM (P3/P6) reader and a command-line front end.
Every stage of the library is written in Verus and carries a contract that
the verifier checks.

Layout:

- `src/` — the verified library:
  - `types`, `error` — image and configuration types, validation, errors;
  - `color`, `sampling`, `block`, `dct`, `quantize` — color conversion,
    chroma subsampling, 8x8 block extraction, the integer forward DCT and
    quantization;
  - `entropy` — the symbol stream of Huffman coding, frequency counting,
    optimised table construction (T.81 Annex K) and block coding;
  - `bitstream`, `marker` — the bit writer with byte stuffing and the
    marker segments;
  - `scan_stats` — the events of a scan in coding order and the symbol
    counts that the Huffman tables are built from;
  - `encoder` — the whole pipeline, from pixels to the JFIF file;
  - `ppm` — PPM decoding from bytes held in memory;
  - `cli` — command-line argument parsing;
  - `text` — number formatting and parsing for messages and arguments.
- `app/main.rs` — the program: reads the PPM file, prints progress, writes
  the JPEG file.
- `tests/` — tests of the library.
