use rawloader::bits::BitPump;
use rawloader::ljpeg::decompressors::{
    decode_hasselblad, decode_leaf_strip, decode_ljpeg_420, decode_ljpeg_422,
    decode_ljpeg_standard, lossless_predictor, set_yuv_420, set_yuv_422,
};
use rawloader::ljpeg::frame::{JpegComponentInfo, LjpegDecompressor, SOFInfo};
use rawloader::ljpeg::huffman::HuffTable;

#[test]
fn standard_lossless_predictors_match_the_jpeg_definitions() {
    let left = 120;
    let above = 90;
    let upper_left = 70;
    assert_eq!(lossless_predictor(1, left, above, upper_left), Ok(120));
    assert_eq!(lossless_predictor(2, left, above, upper_left), Ok(90));
    assert_eq!(lossless_predictor(3, left, above, upper_left), Ok(70));
    assert_eq!(lossless_predictor(4, left, above, upper_left), Ok(140));
    assert_eq!(lossless_predictor(5, left, above, upper_left), Ok(130));
    assert_eq!(lossless_predictor(6, left, above, upper_left), Ok(115));
    assert_eq!(lossless_predictor(7, left, above, upper_left), Ok(105));
}

#[test]
fn nonstandard_predictor_is_rejected() {
    assert_eq!(
        lossless_predictor(8, 1, 2, 3),
        Err("ljpeg: predictor 8 not supported".to_string())
    );
}

#[test]
fn half_of_a_negative_number_is_rounded_down() {
    assert_eq!(lossless_predictor(5, 10, 4, 7), Ok(8));
    assert_eq!(lossless_predictor(6, 4, 10, 7), Ok(8));
    assert_eq!(lossless_predictor(7, -3, 0, 0), Ok(-2));
}

/// Bits, the first of them the most significant of the first byte.
struct Bits(Vec<bool>);

impl Bits {
    fn put(&mut self, value: u32, n: u32) {
        for i in (0..n).rev() {
            self.0.push(value >> i & 1 == 1);
        }
    }

    /// A code word of the table: the category in five bits.
    fn word(&mut self, diff: i32) {
        self.put(category(diff), 5);
    }

    fn bits_of(&mut self, diff: i32) {
        let n = category(diff);
        let value = if diff < 0 { diff + (1 << n) - 1 } else { diff };
        self.put(value as u32, n);
    }

    fn diff(&mut self, diff: i32) {
        self.word(diff);
        self.bits_of(diff);
    }

    fn bytes(&self) -> Vec<u8> {
        let mut bytes = Vec::new();
        for byte in self.0.chunks(8) {
            let mut value = 0;
            for i in 0..8 {
                value = value * 2 + if i < byte.len() && byte[i] { 1 } else { 0 };
            }
            bytes.push(value);
        }
        bytes
    }

    /// The bytes of a JPEG scan.
    fn stuffed(&self) -> Vec<u8> {
        let mut out = Vec::new();
        for byte in self.bytes() {
            out.push(byte);
            if byte == 0xff {
                out.push(0);
            }
        }
        out
    }
}

fn category(diff: i32) -> u32 {
    32 - (diff.abs() as u32).leading_zeros()
}

/// The code whose words are the categories from 0 to 16 in five bits.
const COUNTS: [u8; 16] = [0, 0, 0, 0, 17, 0, 0, 0, 0, 0, 0, 0, 0, 0, 0, 0];

fn values() -> Vec<u8> {
    (0..17).collect()
}

fn table() -> HuffTable {
    HuffTable::new(COUNTS, &values()).unwrap()
}

fn dht(id: u8) -> Vec<u8> {
    let mut out = vec![0xff, 0xc4, 0, 2 + 1 + 16 + 17, id];
    out.extend(COUNTS);
    out.extend(values());
    out
}

fn sof3(precision: u8, width: u16, height: u16, factors: &[u8]) -> Vec<u8> {
    let n = factors.len() as u8;
    let mut out = vec![0xff, 0xc3, 0, 8 + 3 * n, precision];
    out.extend(height.to_be_bytes());
    out.extend(width.to_be_bytes());
    out.push(n);
    for (i, f) in factors.iter().enumerate() {
        out.extend([i as u8 + 1, *f, 0]);
    }
    out
}

fn sos(cps: u8, predictor: u8, point_transform: u8) -> Vec<u8> {
    let mut out = vec![0xff, 0xda, 0, 6 + 2 * cps, cps];
    for i in 0..cps {
        out.extend([i + 1, 0]);
    }
    out.extend([predictor, 0, point_transform]);
    out
}

fn jpeg(precision: u8, width: u16, height: u16, factors: &[u8], predictor: u8, scan: Vec<u8>) -> Vec<u8> {
    let mut out = vec![0xff, 0xd8];
    out.extend(dht(0));
    out.extend(sof3(precision, width, height, factors));
    out.extend(sos(factors.len() as u8, predictor, 0));
    out.extend(scan);
    out.extend([0xff, 0xd9]);
    out
}

/// Some samples of 12 bits.
fn sample(row: usize, i: usize) -> i32 {
    ((row * 977 + i * 389 + row * i * 31) % 4096) as i32
}

/// The scan of `height` rows of `width` pixels of `cps` samples.
fn scan(predictor: usize, width: usize, height: usize, cps: usize) -> Vec<u8> {
    let mut bits = Bits(Vec::new());
    for row in 0..height {
        for i in 0..width * cps {
            let prediction = if row == 0 && i < cps {
                2048
            } else if row == 0 {
                sample(row, i - cps)
            } else if i < cps {
                sample(row - 1, i)
            } else {
                lossless_predictor(
                    predictor,
                    sample(row, i - cps),
                    sample(row - 1, i),
                    sample(row - 1, i - cps),
                )
                .unwrap()
            };
            bits.diff(sample(row, i) - prediction);
        }
    }
    bits.stuffed()
}

#[test]
fn every_predictor_decodes_what_it_encoded() {
    for predictor in 1..=7 {
        let src = jpeg(12, 5, 4, &[0x11], predictor as u8, scan(predictor, 5, 4, 1));
        let ljpeg = LjpegDecompressor::new(&src).unwrap();
        let mut out = vec![0; 20];
        decode_ljpeg_standard(&ljpeg, &mut out, 0, 5, 5, 4).unwrap();
        for row in 0..4 {
            for i in 0..5 {
                assert_eq!(out[row * 5 + i] as i32, sample(row, i));
            }
        }
    }
}

#[test]
fn interleaved_components_are_samples_of_a_row() {
    for cps in 1..=4 {
        let factors = vec![0x11; cps];
        let src = jpeg(12, 3, 2, &factors, 4, scan(4, 3, 2, cps));
        let ljpeg = LjpegDecompressor::new(&src).unwrap();
        let width = 3 * cps;
        let mut out = vec![0; 2 * width];
        ljpeg.decode(&mut out, 0, width, width, 2, false).unwrap();
        for row in 0..2 {
            for i in 0..width {
                assert_eq!(out[row * width + i] as i32, sample(row, i));
            }
        }
    }
}

#[test]
fn padding_keeps_the_scan_in_step_and_is_not_stored() {
    let src = jpeg(12, 8, 4, &[0x11], 7, scan(7, 8, 4, 1));
    let ljpeg = LjpegDecompressor::new(&src).unwrap();
    // Five columns from column 2 on, in rows of 9 samples.
    let mut out = vec![9999; 27];
    decode_ljpeg_standard(&ljpeg, &mut out, 2, 9, 5, 3).unwrap();
    for row in 0..3 {
        for i in 0..9 {
            let expected = if 2 <= i && i < 7 { sample(row, i - 2) } else { 9999 };
            assert_eq!(out[row * 9 + i] as i32, expected);
        }
    }
}

#[test]
fn rows_of_the_destination_can_be_stacked_in_a_row_of_the_scan() {
    let src = jpeg(12, 12, 2, &[0x11], 1, scan(1, 12, 2, 1));
    let ljpeg = LjpegDecompressor::new(&src).unwrap();
    let mut out = vec![0; 20];
    decode_ljpeg_standard(&ljpeg, &mut out, 0, 4, 4, 5).unwrap();
    for r in 0..5 {
        for c in 0..4 {
            assert_eq!(out[r * 4 + c] as i32, sample(r / 3, (r % 3) * 4 + c));
        }
    }
}

#[test]
fn components_can_be_rows_of_the_destination() {
    let src = jpeg(12, 4, 2, &[0x11, 0x11], 6, scan(6, 4, 2, 2));
    let ljpeg = LjpegDecompressor::new(&src).unwrap();
    let mut out = vec![0; 12];
    decode_ljpeg_standard(&ljpeg, &mut out, 0, 4, 4, 3).unwrap();
    for r in 0..3 {
        for c in 0..4 {
            assert_eq!(out[r * 4 + c] as i32, sample(r / 2, c * 2 + r % 2));
        }
    }
}

#[test]
fn nothing_is_decoded_into_an_empty_destination() {
    let src = jpeg(12, 4, 2, &[0x11], 1, Vec::new());
    let ljpeg = LjpegDecompressor::new(&src).unwrap();
    let mut out = vec![7; 4];
    decode_ljpeg_standard(&ljpeg, &mut out, 0, 4, 0, 2).unwrap();
    decode_ljpeg_standard(&ljpeg, &mut out, 0, 4, 4, 0).unwrap();
    assert_eq!(out, vec![7; 4]);
}

/// A frame without samples.
fn frame<'a>(width: usize, height: usize, cps: usize) -> LjpegDecompressor<'a> {
    let info = JpegComponentInfo { id: 1, dc_tbl_num: 0, super_h: 1, super_v: 1 };
    LjpegDecompressor {
        buffer: &[],
        sof: SOFInfo { width, height, cps, precision: 12, components: vec![info; cps] },
        predictor: 1,
        point_transform: 0,
        dhts: vec![table()],
    }
}

#[test]
fn every_fault_of_a_destination_has_its_message() {
    let fault = |ljpeg: &LjpegDecompressor, x, stripwidth, width, height| {
        let mut out = vec![0; 12];
        decode_ljpeg_standard(ljpeg, &mut out, x, stripwidth, width, height).unwrap_err()
    };
    assert_eq!(fault(&frame(4, 3, 0), 0, 4, 4, 3), "ljpeg: 0 component files not supported");
    assert_eq!(fault(&frame(4, 3, 5), 0, 4, 4, 3), "ljpeg: 5 component files not supported");
    assert_eq!(
        fault(&frame(usize::MAX, 3, 2), 0, 4, 4, 3),
        "ljpeg: encoded row width overflowed"
    );
    assert_eq!(
        fault(&frame(3, 3, 1), 0, 4, 4, 3),
        "ljpeg: trying to decode 3x3 with 1 components into 4x3"
    );
    assert_eq!(
        fault(&frame(4, 3, 1), usize::MAX, 4, 4, 3),
        "ljpeg: destination row width overflowed"
    );
    assert_eq!(
        fault(&frame(4, 3, 1), 2, 4, 4, 3),
        "ljpeg: destination range 2..6 exceeds row width 4"
    );
    assert_eq!(
        fault(&frame(4, 3, 1), 0, usize::MAX, 4, 3),
        "ljpeg: destination size overflowed"
    );
    assert_eq!(
        fault(&frame(4, 3, 1), 0, 5, 4, 3),
        "ljpeg: destination has 12 samples, needs 14"
    );
}

#[test]
fn a_scan_that_no_code_word_matches_is_refused() {
    // Word 31 has no category; the samples before it stay.
    let mut bits = Bits(Vec::new());
    bits.diff(5);
    bits.put(31, 5);
    let src = jpeg(12, 4, 2, &[0x11], 1, bits.stuffed());
    let ljpeg = LjpegDecompressor::new(&src).unwrap();
    let mut out = vec![0; 8];
    assert_eq!(
        decode_ljpeg_standard(&ljpeg, &mut out, 0, 4, 4, 2).unwrap_err(),
        "ljpeg: no Huffman code matches"
    );
    assert_eq!(out[..2], [2053, 0]);
}

#[test]
fn a_predictor_that_jpeg_does_not_define_fails_where_it_is_needed() {
    let src = jpeg(12, 2, 2, &[0x11], 9, Vec::new());
    let ljpeg = LjpegDecompressor::new(&src).unwrap();
    let mut out = vec![0; 4];
    assert_eq!(
        decode_ljpeg_standard(&ljpeg, &mut out, 0, 2, 2, 2).unwrap_err(),
        "ljpeg: predictor 9 not supported"
    );
    // The first row and the first column need none.
    decode_ljpeg_standard(&ljpeg, &mut out, 0, 2, 2, 1).unwrap();
    assert_eq!(out[..2], [2048, 2048]);
}

#[test]
fn squares_of_pixels_share_their_chroma() {
    let mut bits = Bits(Vec::new());
    // Two rows of two squares each.
    for diffs in [
        [1, 2, 3, 4, 10, 20],
        [5, -1, -2, 7, -3, 0],
        [100, 1, 1, 1, 2, 2],
        [-50, 0, 0, 9, 1, -1],
    ] {
        for diff in diffs {
            bits.diff(diff);
        }
    }
    let src = jpeg(12, 4, 4, &[0x22, 0x11, 0x11], 1, bits.stuffed());
    let ljpeg = LjpegDecompressor::new(&src).unwrap();
    let mut out = vec![0; 48];
    ljpeg.decode(&mut out, 0, 12, 12, 4, false).unwrap();
    let pixel = |r: usize, c: usize| [out[r * 12 + c * 3], out[r * 12 + c * 3 + 1], out[r * 12 + c * 3 + 2]];
    assert_eq!(pixel(0, 0), [2049, 2058, 2068]);
    assert_eq!(pixel(0, 1), [2051, 2058, 2068]);
    assert_eq!(pixel(1, 0), [2054, 2058, 2068]);
    assert_eq!(pixel(1, 1), [2058, 2058, 2068]);
    // The second square starts from the last pixel of the first.
    assert_eq!(pixel(0, 2), [2063, 2055, 2068]);
    assert_eq!(pixel(0, 3), [2062, 2055, 2068]);
    assert_eq!(pixel(1, 2), [2060, 2055, 2068]);
    assert_eq!(pixel(1, 3), [2067, 2055, 2068]);
    // A row of squares starts from the first pixel of the row of squares above.
    assert_eq!(pixel(2, 0), [2149, 2060, 2070]);
    assert_eq!(pixel(3, 1), [2152, 2060, 2070]);
    assert_eq!(pixel(2, 2), [2102, 2061, 2069]);
    assert_eq!(pixel(3, 3), [2111, 2061, 2069]);
}

#[test]
fn pairs_of_pixels_share_their_chroma() {
    let mut bits = Bits(Vec::new());
    for diffs in [[1, 2, 10, 20], [5, -1, -3, 0], [100, 1, 2, 2], [-50, 9, 1, -1]] {
        for diff in diffs {
            bits.diff(diff);
        }
    }
    let src = jpeg(12, 4, 2, &[0x21, 0x11, 0x11], 1, bits.stuffed());
    let ljpeg = LjpegDecompressor::new(&src).unwrap();
    let mut out = vec![0; 24];
    ljpeg.decode(&mut out, 0, 12, 12, 2, false).unwrap();
    assert_eq!(
        out,
        vec![
            2049, 2058, 2068, 2051, 2058, 2068, 2056, 2055, 2068, 2055, 2055, 2068,
            2149, 2060, 2070, 2150, 2060, 2070, 2100, 2061, 2069, 2109, 2061, 2069,
        ]
    );
}

#[test]
fn subsampled_frames_have_the_size_of_the_image() {
    let ljpeg = frame(4, 2, 3);
    let mut out = vec![0; 24];
    assert_eq!(
        decode_ljpeg_420(&ljpeg, &mut out, 12, 4).unwrap_err(),
        "ljpeg: trying to decode 12x2 into 12x4"
    );
    assert_eq!(
        decode_ljpeg_422(&ljpeg, &mut out, 9, 2).unwrap_err(),
        "ljpeg: trying to decode 12x2 into 9x2"
    );
}

#[test]
fn subsampled_scans_can_end_early() {
    let mut bits = Bits(Vec::new());
    for diff in [1, 1, 1, 1, 1, 1] {
        bits.diff(diff);
    }
    bits.put(31, 5);
    let src = jpeg(12, 4, 2, &[0x22, 0x11, 0x11], 1, bits.stuffed());
    let ljpeg = LjpegDecompressor::new(&src).unwrap();
    let mut out = vec![0; 24];
    assert_eq!(
        decode_ljpeg_420(&ljpeg, &mut out, 12, 2).unwrap_err(),
        "ljpeg: no Huffman code matches"
    );
    assert_eq!(out[..6], [2049, 2049, 2049, 2050, 2049, 2049]);
    assert_eq!(out[6..12], [0; 6]);
}

#[test]
fn what_does_not_fit_counts_where_the_scan_reaches_it() {
    for (sampling, end, fitting) in [(0x22, 6, 18), (0x21, 4, 6)] {
        let group = |bits: &mut Bits| {
            for _ in 0..end {
                bits.diff(1);
            }
        };
        // No code word matches before the second group, which lies outside, is reached.
        let mut bits = Bits(Vec::new());
        group(&mut bits);
        bits.put(31, 5);
        let src = jpeg(12, 4, 2, &[sampling, 0x11, 0x11], 1, bits.stuffed());
        let ljpeg = LjpegDecompressor::new(&src).unwrap();
        let mut out = vec![0; fitting];
        assert_eq!(
            ljpeg.decode(&mut out, 0, 12, 12, 2, false).unwrap_err(),
            "ljpeg: no Huffman code matches"
        );
        assert_eq!(out[..6], [2049, 2049, 2049, 2050, 2049, 2049]);
        // The second group is decoded, and there is no place for it.
        let mut bits = Bits(Vec::new());
        group(&mut bits);
        group(&mut bits);
        let src = jpeg(12, 4, 2, &[sampling, 0x11, 0x11], 1, bits.stuffed());
        let ljpeg = LjpegDecompressor::new(&src).unwrap();
        let mut out = vec![0; fitting];
        assert_eq!(
            ljpeg.decode(&mut out, 0, 12, 12, 2, false).unwrap_err(),
            "ljpeg: subsampled frame does not fit the destination"
        );
        assert_eq!(out[..6], [2049, 2049, 2049, 2050, 2049, 2049]);
    }
}

#[test]
fn a_subsampled_frame_that_does_not_fit_is_refused() {
    let src = jpeg(12, 3, 2, &[0x22, 0x11, 0x11], 1, Vec::new());
    let ljpeg = LjpegDecompressor::new(&src).unwrap();
    let mut out = vec![0; 18];
    assert_eq!(
        ljpeg.decode(&mut out, 0, 9, 9, 2, false).unwrap_err(),
        "ljpeg: subsampled frame does not fit the destination"
    );
    // A longer image takes the pixels that stick out.
    let mut out = vec![0; 24];
    ljpeg.decode(&mut out, 0, 9, 9, 2, false).unwrap();
    assert_eq!(out[0], 2048);
}

#[test]
fn pixels_are_stored_where_they_belong() {
    let mut out = vec![0; 24];
    set_yuv_420(&mut out, 0, 6, 12, 1, 2, 3, 65540, 5, -1);
    assert_eq!(out[6..12], [1, 5, 65535, 2, 5, 65535]);
    assert_eq!(out[18..24], [3, 5, 65535, 4, 5, 65535]);
    let mut out = vec![0; 24];
    set_yuv_422(&mut out, 1, 6, 12, 1, 2, 3, 4);
    assert_eq!(out[18..24], [1, 3, 4, 2, 3, 4]);
}

/// Little-endian 32-bit words of bits that count from the most significant on.
fn words(bits: &Bits) -> Vec<u8> {
    let mut bytes = bits.bytes();
    while bytes.len() % 4 != 0 {
        bytes.push(0);
    }
    for word in bytes.chunks_mut(4) {
        word.reverse();
    }
    bytes
}

#[test]
fn interleaved_pairs_start_every_row_from_the_middle() {
    let mut bits = Bits(Vec::new());
    for (a, b) in [(1, -2), (3, 4), (100, 200), (-5, 5)] {
        bits.word(a);
        bits.word(b);
        bits.bits_of(a);
        bits.bits_of(b);
    }
    let buffer = words(&bits);
    let mut ljpeg = frame(4, 2, 1);
    ljpeg.buffer = &buffer;
    ljpeg.predictor = 8;
    // Five columns: the last one is not of a pair, and the last sample is not of a row.
    let mut out = vec![9; 11];
    decode_hasselblad(&ljpeg, &mut out, 5).unwrap();
    assert_eq!(out, vec![32769, 32766, 32772, 32770, 9, 32868, 32968, 32863, 32973, 9, 9]);
    let mut out = vec![9; 4];
    ljpeg.decode(&mut out, 0, 4, 4, 1, false).unwrap();
    assert_eq!(out, vec![32769, 32766, 32772, 32770]);
    assert_eq!(
        ljpeg.decode(&mut out, 0, 4, 0, 1, false).unwrap_err(),
        "ljpeg: destination has no columns"
    );
}

#[test]
fn strips_of_pairs_start_a_row_from_the_row_above() {
    let mut bits = Bits(Vec::new());
    for diff in [1, 2, 3, 4, 10, 20, -1, -2] {
        bits.diff(diff);
    }
    let src = bits.stuffed();
    let mut out = vec![0; 8];
    decode_leaf_strip(&src, &mut out, 4, 2, &table(), &table(), 8192).unwrap();
    assert_eq!(out, vec![8193, 8194, 8196, 8198, 8203, 8214, 8202, 8212]);
}

#[test]
fn strips_of_an_odd_width_overlap_in_the_next_row() {
    let mut bits = Bits(Vec::new());
    for diff in [1, 2, 3, 4, 10, 20, -1, -2] {
        bits.diff(diff);
    }
    let mut out = vec![0; 7];
    decode_leaf_strip(&bits.stuffed(), &mut out, 3, 2, &table(), &table(), 0).unwrap();
    assert_eq!(out, vec![1, 2, 4, 11, 22, 10, 20]);
}

#[test]
fn strips_that_end_early_keep_what_was_decoded() {
    let mut bits = Bits(Vec::new());
    bits.diff(-1);
    bits.put(31, 5);
    let mut out = vec![7; 4];
    assert_eq!(
        decode_leaf_strip(&bits.stuffed(), &mut out, 2, 2, &table(), &table(), 0).unwrap_err(),
        "ljpeg: no Huffman code matches"
    );
    assert_eq!(out, vec![65535, 7, 7, 7]);
}

#[test]
fn a_dummy_decode_leaves_the_image_as_it_is() {
    let src = jpeg(12, 4, 2, &[0x11], 1, Vec::new());
    let ljpeg = LjpegDecompressor::new(&src).unwrap();
    let mut out = vec![3];
    ljpeg.decode(&mut out, 0, 4, 4, 2, true).unwrap();
    assert_eq!(out, vec![3]);
}

#[test]
fn headers_are_read_as_they_are_written() {
    let mut src = vec![0xff, 0xd8, 0xff, 0xe0, 0, 4, 1, 2];
    src.extend(dht(2));
    src.extend(sof3(14, 300, 200, &[0x21, 0x11]));
    src.extend([0xff, 0xda, 0, 10, 2, 2, 0x20, 1, 0x20, 5, 0, 3]);
    src.extend([0x12, 0x34]);
    let ljpeg = LjpegDecompressor::new(&src).unwrap();
    assert_eq!((ljpeg.sof.width, ljpeg.sof.height), (300, 200));
    assert_eq!((ljpeg.sof.cps, ljpeg.sof.precision), (2, 14));
    assert_eq!(
        ljpeg.sof.components,
        vec![
            JpegComponentInfo { id: 1, dc_tbl_num: 2, super_h: 2, super_v: 1 },
            JpegComponentInfo { id: 2, dc_tbl_num: 2, super_h: 1, super_v: 1 },
        ]
    );
    assert_eq!((ljpeg.predictor, ljpeg.point_transform), (5, 3));
    assert_eq!(ljpeg.buffer, [0x12, 0x34]);
    assert_eq!(ljpeg.dhts.len(), 4);
    assert_eq!(ljpeg.base(), 1024);
}

#[test]
fn every_fault_of_a_jpeg_header_has_its_message() {
    let start = vec![0xff, 0xd8];
    let fault = |rest: Vec<u8>| {
        let mut src = start.clone();
        src.extend(rest);
        LjpegDecompressor::new(&src).unwrap_err()
    };
    assert_eq!(LjpegDecompressor::new(&[]).unwrap_err(), "ljpeg: expected marker not found");
    assert_eq!(
        LjpegDecompressor::new(&[0xff, 0xd9]).unwrap_err(),
        "ljpeg: image did not start with SOI, probably not a lossless JPEG file"
    );
    assert_eq!(fault(vec![]), "ljpeg: no marker found in the rest of the data");
    assert_eq!(fault(vec![0xff, 0xd9]), "ljpeg: reached EOI before SOS");
    assert_eq!(fault(vec![0xff, 0xdb]), "ljpeg: not a lossless JPEG file, found DQT");
    assert_eq!(fault(vec![0xff, 0xc3, 0, 11]), "ljpeg: header is truncated");
    assert_eq!(fault(sof3(17, 4, 4, &[0x11])), "ljpeg: precision 17 not supported");
    assert_eq!(
        fault(sof3(12, 4, 4, &[])),
        "ljpeg: only from 1 to 4 components are supported"
    );
    let mut wrong = sof3(12, 4, 4, &[0x11]);
    wrong[3] = 12;
    assert_eq!(fault(wrong), "ljpeg: header size mismatch");
    assert_eq!(fault(sos(1, 1, 0)), "ljpeg: trying to parse SOS before SOF");
    let after_sof = |rest: Vec<u8>| {
        let mut all = sof3(12, 4, 4, &[0x11]);
        all.extend(rest);
        fault(all)
    };
    assert_eq!(after_sof(sos(2, 1, 0)), "ljpeg: component number mismatch in SOS");
    assert_eq!(after_sof(vec![0xff, 0xda, 0, 8, 1, 1]), "ljpeg: header is truncated");
    let mut wrong = sos(1, 1, 0);
    wrong[5] = 9;
    assert_eq!(after_sof(wrong), "ljpeg: invalid component selector 9");
    let mut wrong = sos(1, 1, 0);
    wrong[6] = 0x40;
    assert_eq!(after_sof(wrong), "ljpeg: invalid Huffman table selection: 4");
    assert_eq!(
        after_sof(sos(1, 1, 12)),
        "ljpeg: point transform 12 leaves no bits of precision 12"
    );
    assert_eq!(fault(vec![0xff, 0xc4, 0, 1]), "ljpeg: invalid DHT table length");
    assert_eq!(fault(vec![0xff, 0xc4, 0, 5]), "ljpeg: invalid DHT table length");
    assert_eq!(fault(dht(0x10)), "ljpeg: unsupported table class in DHT");
    assert_eq!(fault(dht(4)), "ljpeg: unsupported table id 4 in DHT");
    let mut wrong = dht(0);
    wrong[5] = 255;
    wrong[6] = 255;
    assert_eq!(fault(wrong), "ljpeg: invalid DHT table");
    let mut wrong = dht(0);
    wrong[3] = 2 + 17 + 16;
    assert_eq!(fault(wrong), "ljpeg: invalid DHT table length");
    assert_eq!(fault(dht(0)[..20].to_vec()), "ljpeg: header is truncated");
}

#[test]
fn every_fault_of_a_huffman_table_has_its_message() {
    assert_eq!(
        HuffTable::new(COUNTS, &[0, 1, 2]).unwrap_err(),
        "ljpeg: Huffman table has 17 codes but 3 values"
    );
    let mut many = values();
    many[3] = 17;
    assert_eq!(
        HuffTable::new(COUNTS, &many).unwrap_err(),
        "ljpeg: Huffman table codes a difference of 17 bits"
    );
    let mut counts = [0; 16];
    counts[0] = 3;
    assert_eq!(
        HuffTable::new(counts, &[0, 1, 2]).unwrap_err(),
        "ljpeg: Huffman code lengths are not those of a prefix code"
    );
}

#[test]
fn differences_cover_sixteen_bits() {
    for diff in [0, 1, -1, 2, -3, 127, -128, 255, 4095, -4096, 32767, -32767] {
        let mut bits = Bits(Vec::new());
        bits.diff(diff);
        let mut pump = BitPump::jpeg(&bits.stuffed());
        assert_eq!(table().huff_decode(&mut pump).unwrap(), diff);
    }
    // Category 16 has no bits of its own.
    let mut bits = Bits(Vec::new());
    bits.put(16, 5);
    bits.diff(-7);
    let mut pump = BitPump::jpeg(&bits.stuffed());
    assert_eq!(table().huff_decode(&mut pump).unwrap(), -32768);
    assert_eq!(table().huff_decode(&mut pump).unwrap(), -7);
}

#[test]
fn a_marker_ends_the_scan() {
    let mut pump = BitPump::jpeg(&[0xab, 0xff, 0x00, 0xff, 0xd9, 0x77]);
    assert_eq!(pump.get_bits(8), 0xab);
    assert_eq!(pump.peek_bits(4), 0xf);
    assert_eq!(pump.get_bits(8), 0xff);
    assert_eq!(pump.get_bits(16), 0);
}

#[test]
fn an_empty_table_matches_nothing() {
    let mut pump = BitPump::jpeg(&[0]);
    assert!(HuffTable::empty().huff_decode(&mut pump).is_err());
}
