use rawloader::camera::{Camera, Orientation, RawImage, RawLoader};
use rawloader::cfa::{align_cfa_to_sensor_origin, CFA};
use rawloader::dct::{
    decode_dct_jpeg, place_picture, plan_dct, take_plane, try_decode_dct_jpeg, JpegFrame, Picture,
};
use rawloader::dng::crop::crop_margins_from_dng;
use rawloader::dng::decoder::{linearize_samples, DngDecoder};
use rawloader::ljpeg::scan::Layout;
use rawloader::single::{single_bits, Single};
use rawloader::tiff::{Tag, TiffEntry, TiffIFD, TiffValue};
use rawloader::unpack::{decode_10le, decode_12be, decode_16le, decode_8bit_codes};

#[test]
fn cfa_pattern_is_shifted_from_active_area_to_full_sensor_coordinates() {
    let cfa = align_cfa_to_sensor_origin(CFA::new("RGGB"), 13, 12);
    assert_eq!(cfa.name, "GBRG");
}

#[test]
fn cfa_pattern_keeps_its_phase_for_repeat_aligned_active_area() {
    let cfa = align_cfa_to_sensor_origin(CFA::new("RGGB"), 12, 64);
    assert_eq!(cfa.name, "RGGB");
}

fn single(value: f32) -> Single {
    Single { bits: value.to_bits(), text: format!("{:?}", value) }
}

fn pair(values: [f32; 2]) -> [Single; 2] {
    [single(values[0]), single(values[1])]
}

fn crop(origin: [f32; 2], size: [f32; 2]) -> Option<([Single; 2], [Single; 2])> {
    Some((pair(origin), pair(size)))
}

#[test]
fn default_crop_is_resolved_relative_to_active_area() {
    let margins = crop_margins_from_dng(
        3152,
        2068,
        [12, 64, 2068, 3152],
        crop([8.0, 4.0], [3072.0, 2048.0]),
    ).unwrap();
    assert_eq!(margins, [16, 8, 4, 72]);
}

#[test]
fn active_area_remains_the_crop_when_default_crop_is_absent() {
    let margins =
        crop_margins_from_dng(4312, 2876, [18, 22, 2874, 4312], None).unwrap();
    assert_eq!(margins, [18, 0, 2, 22]);
}

#[test]
fn default_crop_cannot_escape_the_active_sensor_area() {
    let error = crop_margins_from_dng(
        100,
        80,
        [4, 6, 76, 96],
        crop([2.0, 3.0], [90.0, 70.0]),
    ).unwrap_err();
    assert!(error.contains("lies outside ActiveArea"));
}

#[test]
fn linearization_maps_each_stored_code_exactly_once() {
    let mut samples = [0_u16, 1, 3, 2, 1];
    linearize_samples(&mut samples, &[0, 8, 32, 255]);
    assert_eq!(samples, [0, 8, 255, 32, 8]);
}

#[test]
fn linearization_maps_codes_above_the_table_to_its_last_entry() {
    let mut samples = [0_u16, 3, u16::max_value()];
    linearize_samples(&mut samples, &[0, 8, 32]);
    assert_eq!(samples, [0, 32, 32]);
}

#[test]
fn crop_sizes_are_rounded_to_the_nearest_pixel() {
    // Halves are rounded up.
    let margins =
        crop_margins_from_dng(100, 80, [0, 0, 80, 100], crop([1.5, 2.49], [50.5, 9.5])).unwrap();
    assert_eq!(margins, [2, 47, 68, 2]);
}

#[test]
fn every_fault_of_a_crop_has_its_message() {
    let fault = |area, default_crop| crop_margins_from_dng(100, 80, area, default_crop).unwrap_err();
    let area = [4, 6, 76, 96];
    assert_eq!(
        fault([4, 6, 4, 96], None),
        "DNG: ActiveArea [4, 6, 4, 96] is invalid for dimensions 100x80"
    );
    assert_eq!(
        fault([4, 6, 81, 96], None),
        "DNG: ActiveArea [4, 6, 81, 96] is invalid for dimensions 100x80"
    );
    assert_eq!(
        fault(area, crop([-1.0, 0.0], [10.0, 10.0])),
        "DNG: DefaultCropOrigin [-1.0, 0.0] or DefaultCropSize [10.0, 10.0] is invalid"
    );
    assert_eq!(
        fault(area, crop([0.0, f32::NAN], [10.0, 10.0])),
        "DNG: DefaultCropOrigin [0.0, NaN] or DefaultCropSize [10.0, 10.0] is invalid"
    );
    assert_eq!(
        fault(area, crop([0.0, 0.0], [f32::INFINITY, 10.0])),
        "DNG: DefaultCropOrigin [0.0, 0.0] or DefaultCropSize [inf, 10.0] is invalid"
    );
    assert_eq!(
        fault(area, crop([0.0, 0.0], [-0.0, 10.0])),
        "DNG: DefaultCropOrigin [0.0, 0.0] or DefaultCropSize [-0.0, 10.0] is invalid"
    );
    assert_eq!(
        fault(area, crop([0.0, 0.0], [0.25, 10.0])),
        "DNG: rounded DefaultCropSize [0.25, 10.0] is empty"
    );
    assert_eq!(
        fault(area, crop([3.0e38, 0.0], [10.0, 10.0])),
        "DNG: final crop X origin overflowed"
    );
    assert_eq!(
        fault(area, crop([0.0, 3.0e38], [10.0, 10.0])),
        "DNG: final crop Y origin overflowed"
    );
    assert_eq!(
        fault(area, crop([0.0, 0.0], [3.0e38, 10.0])),
        "DNG: final crop width overflowed"
    );
    assert_eq!(
        fault(area, crop([0.0, 0.0], [10.0, 3.0e38])),
        "DNG: final crop height overflowed"
    );
    assert_eq!(
        fault(area, crop([2.0, 3.0], [90.0, 70.0])),
        "DNG: final crop [7, 8, 77, 98] lies outside ActiveArea [4, 6, 76, 96]"
    );
}

#[test]
fn negative_zero_is_a_place() {
    let margins =
        crop_margins_from_dng(100, 80, [0, 0, 80, 100], crop([-0.0, 0.0], [100.0, 80.0])).unwrap();
    assert_eq!(margins, [0, 0, 0, 0]);
}

#[test]
fn singles_round_and_cut_off_as_numbers_do() {
    for value in [
        0.0_f32, 0.49999997, 0.5, 0.75, 1.0, 1.4999999, 1.5, 2.5, 255.5, 1000.25, 65534.9, 65535.0,
        65536.0, 8388607.5, 8388608.0, 16777216.0, 1.0e10, 1.0e-40, 3.4e38,
    ] {
        assert_eq!(single(value).round(), value.round() as usize);
        assert_eq!(single(value).as_u16(), value as u16);
        assert_eq!(single(-value).as_u16(), (-value) as u16);
    }
    assert_eq!(single(f32::NAN).as_u16(), 0);
    assert_eq!(single(f32::INFINITY).as_u16(), 65535);
    assert_eq!(single(f32::NEG_INFINITY).as_u16(), 0);
    assert!(!single(f32::NAN).is_finite());
    assert!(!single(f32::INFINITY).is_finite());
    assert!(single(-1.0).is_below_zero());
    assert!(!single(-0.0).is_below_zero());
    assert!(single(-0.0).is_zero());
}

#[test]
fn integers_have_the_bits_of_their_numbers() {
    for n in [0, 1, -1, 2, 3, 453, -600, 14112, 65535, -5320, 8388607, 8388608, 16777215] {
        assert_eq!(single_bits(n), (n as f32).to_bits());
    }
}

#[test]
fn an_aligned_pattern_keeps_its_phase_in_the_area() {
    let letters = "RGBGRBGGBRGRBGRGGRBBGGRGBRGGRBGBGRGR";
    let cfa = CFA::new(letters);
    assert_eq!((cfa.width, cfa.height), (6, 6));
    let aligned = align_cfa_to_sensor_origin(CFA::new(letters), 13, 64);
    for row in 0..12 {
        for col in 0..12 {
            assert_eq!(aligned.color_at(13 + row, 64 + col), cfa.color_at(row, col));
        }
    }
}

#[test]
fn a_sensor_without_filters_stays_without() {
    let cfa = align_cfa_to_sensor_origin(CFA::new(""), 13, 12);
    assert_eq!((cfa.name.as_str(), cfa.width, cfa.height), ("", 0, 0));
}

#[test]
fn packed_samples_take_their_high_bits_first() {
    assert_eq!(decode_16le(&[1, 2, 3, 4], 2, 1, false), vec![0x0201, 0x0403]);
    assert_eq!(decode_12be(&[0x12, 0x34, 0x56], 2, 1, false), vec![0x123, 0x456]);
    assert_eq!(
        decode_10le(&[0b11111111, 0b11_000000, 0b0001_0000, 0b000001_11, 0b11111110], 4, 1, false),
        vec![1023, 1, 1, 1022]
    );
    assert_eq!(decode_8bit_codes(&[5, 6, 7], 3, 1, false).unwrap(), vec![5, 6, 7]);
}

#[test]
fn samples_behind_the_data_are_zero() {
    assert_eq!(decode_16le(&[1, 2, 3], 2, 2, false), vec![0x0201, 0, 0, 0]);
    assert_eq!(decode_12be(&[0x12, 0x34, 0x56], 3, 1, false), vec![0x123, 0x456, 0]);
    assert_eq!(decode_10le(&[255; 5], 5, 1, false), vec![1023, 1023, 1023, 1023, 0]);
    assert_eq!(
        decode_8bit_codes(&[1, 2, 3], 2, 2, false).unwrap_err(),
        "DNG: 8-bit strip contains 3 bytes, expected at least 4"
    );
    assert_eq!(
        decode_8bit_codes(&[], usize::MAX, 2, false).unwrap_err(),
        "DNG: 8-bit sample count overflowed"
    );
}

#[test]
fn dummy_decodes_have_one_sample() {
    assert_eq!(decode_16le(&[], 4, 4, true), vec![0]);
    assert_eq!(decode_12be(&[], 4, 4, true), vec![0]);
    assert_eq!(decode_10le(&[], 4, 4, true), vec![0]);
    assert_eq!(decode_8bit_codes(&[], 4, 4, true).unwrap(), vec![0]);
}

fn integers(tag: Tag, values: &[u32]) -> TiffEntry {
    let mut entry = TiffEntry { tag, values: Vec::new(), text: String::new() };
    for value in values {
        entry.values.push(TiffValue { integer: *value, number: single(*value as f32) });
    }
    entry
}

fn numbers(tag: Tag, values: &[f32]) -> TiffEntry {
    let mut entry = TiffEntry { tag, values: Vec::new(), text: String::new() };
    for value in values {
        entry.values.push(TiffValue { integer: *value as u32, number: single(*value) });
    }
    entry
}

fn text(tag: Tag, text: &str) -> TiffEntry {
    TiffEntry { tag, values: Vec::new(), text: text.to_string() }
}

fn ifd(entries: Vec<TiffEntry>) -> TiffIFD {
    TiffIFD { entries, subifds: Vec::new() }
}

fn loader() -> RawLoader {
    RawLoader { cameras: Vec::new() }
}

#[test]
fn entries_are_looked_for_from_the_top_down() {
    let mut top = ifd(vec![integers(Tag::ImageWidth, &[1])]);
    let mut first = ifd(vec![integers(Tag::ImageWidth, &[2])]);
    first.subifds.push(ifd(vec![integers(Tag::ImageLength, &[3]), integers(Tag::Compression, &[7])]));
    let second = ifd(vec![integers(Tag::ImageLength, &[4]), integers(Tag::Compression, &[1])]);
    top.subifds.push(first);
    top.subifds.push(second);
    assert_eq!(top.find_entry(Tag::ImageWidth).unwrap().get_u32(0), 1);
    assert_eq!(top.find_entry(Tag::ImageLength).unwrap().get_u32(0), 3);
    assert!(top.find_entry(Tag::Make).is_none());
    assert_eq!(
        top.fetch(Tag::Make).unwrap_err(),
        "Couldn't find tag Tag::Make"
    );
    let found = top.find_ifds_with_tag(Tag::Compression);
    assert_eq!(found.len(), 2);
    assert_eq!(found[0].find_entry(Tag::ImageLength).unwrap().get_usize(0), 3);
    assert_eq!(found[1].find_entry(Tag::ImageLength).unwrap().get_usize(0), 4);
}

#[test]
fn linearization_tables_are_checked() {
    let rawloader = loader();
    let apply = |entries: Vec<TiffEntry>, dummy: bool| {
        let decoder = DngDecoder::new(&[], ifd(entries), &rawloader);
        let mut image = vec![0, 1, 9];
        decoder.apply_linearization(&mut image, dummy).map(|_| image)
    };
    assert_eq!(apply(vec![], false).unwrap(), vec![0, 1, 9]);
    assert_eq!(apply(vec![integers(Tag::Linearization, &[4, 5])], false).unwrap(), vec![4, 5, 5]);
    assert_eq!(apply(vec![integers(Tag::Linearization, &[4, 5])], true).unwrap(), vec![0, 1, 9]);
    assert_eq!(
        apply(vec![integers(Tag::Linearization, &[])], false).unwrap_err(),
        "DNG: linearization table is empty"
    );
    assert_eq!(
        apply(vec![integers(Tag::Linearization, &[1, 65536])], false).unwrap_err(),
        "DNG: linearization value 65536 at index 1 exceeds 16-bit output"
    );
}

#[test]
fn color_filters_are_read_and_aligned() {
    let rawloader = loader();
    let decoder = DngDecoder::new(&[], ifd(vec![]), &rawloader);
    let cfa = |entries: Vec<TiffEntry>| decoder.get_cfa(&ifd(entries)).map(|cfa| cfa.name);
    let pattern = || integers(Tag::CFAPattern, &[0, 1, 1, 2]);
    let dim = || integers(Tag::CFARepeatPatternDim, &[2, 2]);
    assert_eq!(cfa(vec![pattern(), dim()]).unwrap(), "RGGB");
    assert_eq!(
        cfa(vec![pattern(), dim(), integers(Tag::ActiveArea, &[1, 0, 5, 5])]).unwrap(),
        "GBRG"
    );
    assert_eq!(cfa(vec![dim()]).unwrap_err(), "Couldn't find tag Tag::CFAPattern");
    assert_eq!(cfa(vec![pattern()]).unwrap_err(), "Couldn't find tag Tag::CFARepeatPatternDim");
    assert_eq!(
        cfa(vec![pattern(), integers(Tag::CFARepeatPatternDim, &[2])]).unwrap_err(),
        "DNG: CFA repeat dimensions have 1 values, expected 2"
    );
    assert_eq!(
        cfa(vec![pattern(), integers(Tag::CFARepeatPatternDim, &[2, 3])]).unwrap_err(),
        "DNG: CFA pattern has 4 values for 3x2 filters"
    );
    assert_eq!(
        cfa(vec![pattern(), integers(Tag::CFARepeatPatternDim, &[0, 3])]).unwrap_err(),
        "DNG: CFA repeat dimensions 3x0 are invalid"
    );
    assert_eq!(
        cfa(vec![integers(Tag::CFAPattern, &[0, 1, 5, 2]), dim()]).unwrap_err(),
        "DNG: CFA color 5 is not supported"
    );
    assert_eq!(
        cfa(vec![pattern(), dim(), integers(Tag::ActiveArea, &[1, 0, 5])]).unwrap_err(),
        "DNG: ActiveArea has 3 values, expected 4"
    );
}

#[test]
fn crops_are_read_from_their_entries() {
    let rawloader = loader();
    let decoder = DngDecoder::new(&[], ifd(vec![]), &rawloader);
    let crops = |entries: Vec<TiffEntry>| decoder.get_crops(&ifd(entries), 100, 80);
    let origin = || numbers(Tag::DefaultCropOrigin, &[2.0, 3.0]);
    let size = || numbers(Tag::DefaultCropSize, &[50.0, 40.0]);
    let area = || integers(Tag::ActiveArea, &[4, 6, 76, 96]);
    assert_eq!(crops(vec![]).unwrap(), [0, 0, 0, 0]);
    assert_eq!(crops(vec![area()]).unwrap(), [4, 4, 4, 6]);
    assert_eq!(crops(vec![area(), origin()]).unwrap(), [4, 4, 4, 6]);
    assert_eq!(crops(vec![area(), origin(), size()]).unwrap(), [7, 42, 33, 8]);
    assert_eq!(
        crops(vec![integers(Tag::ActiveArea, &[4])]).unwrap_err(),
        "DNG: ActiveArea has 1 values, expected 4"
    );
    assert_eq!(
        crops(vec![origin(), numbers(Tag::DefaultCropSize, &[50.0])]).unwrap_err(),
        "DNG: DefaultCropOrigin/DefaultCropSize have 2/1 values, expected 2/2"
    );
}

#[test]
fn levels_areas_and_matrices_are_read_from_their_entries() {
    let rawloader = loader();
    let decoder = |entries: Vec<TiffEntry>| DngDecoder::new(&[], ifd(entries), &rawloader);
    let none = decoder(vec![]);
    assert_eq!(none.base_blacklevels(&ifd(vec![])), [0; 4]);
    assert_eq!(none.base_blacklevels(&ifd(vec![numbers(Tag::BlackLevels, &[9.9, 2.0])])), [9; 4]);
    assert_eq!(
        none.base_blacklevels(&ifd(vec![numbers(Tag::BlackLevels, &[1.0, 2.5, 70000.0, -4.0])])),
        [1, 2, 65535, 0]
    );
    assert_eq!(
        none.get_whitelevels(&ifd(vec![integers(Tag::WhiteLevel, &[70000])])).unwrap(),
        [4464; 4]
    );
    assert_eq!(
        none.get_whitelevels(&ifd(vec![])).unwrap_err(),
        "Couldn't find tag Tag::WhiteLevel"
    );
    assert_eq!(
        none.get_masked_areas(&ifd(vec![integers(Tag::MaskedAreas, &[1, 2, 3, 4, 5, 6, 7, 8])])),
        vec![(1, 2, 3, 4), (5, 6, 7, 8)]
    );
    assert!(none.get_masked_areas(&ifd(vec![])).is_empty());
    let srgb = none.get_color_matrix().unwrap();
    assert_eq!(
        srgb,
        [
            [0.412453_f32.to_bits(), 0.357580_f32.to_bits(), 0.180423_f32.to_bits()],
            [0.212671_f32.to_bits(), 0.715160_f32.to_bits(), 0.072169_f32.to_bits()],
            [0.019334_f32.to_bits(), 0.119193_f32.to_bits(), 0.950227_f32.to_bits()],
            [0, 0, 0],
        ]
    );
    let matrix = decoder(vec![
        numbers(Tag::ColorMatrix1, &[9.0]),
        numbers(Tag::ColorMatrix2, &[0.5, -0.25, 1.0, 2.0]),
    ]);
    assert_eq!(
        matrix.get_color_matrix().unwrap(),
        [
            [0.5_f32.to_bits(), (-0.25_f32).to_bits(), 1.0_f32.to_bits()],
            [2.0_f32.to_bits(), 0, 0],
            [0, 0, 0],
            [0, 0, 0],
        ]
    );
    let first = decoder(vec![numbers(Tag::ColorMatrix1, &[9.0])]);
    assert_eq!(first.get_color_matrix().unwrap()[0][0], 9.0_f32.to_bits());
    let large = decoder(vec![numbers(Tag::ColorMatrix1, &[1.0; 13])]);
    assert_eq!(
        large.get_color_matrix().unwrap_err(),
        "color matrix supposedly has 13 components"
    );
}

#[test]
fn images_without_compression_are_read_by_their_depth() {
    let rawloader = loader();
    let buffer = [9, 9, 0x12, 0x34, 0x56, 0x78];
    let decoder = DngDecoder::new(&buffer, ifd(vec![]), &rawloader);
    let raw = |offset: u32, bits: u32| {
        ifd(vec![integers(Tag::StripOffsets, &[offset]), integers(Tag::BitsPerSample, &[bits])])
    };
    assert_eq!(decoder.decode_uncompressed(&raw(2, 16), 2, 1, false).unwrap(), vec![0x3412, 0x7856]);
    assert_eq!(decoder.decode_uncompressed(&raw(2, 12), 2, 1, false).unwrap(), vec![0x123, 0x456]);
    assert_eq!(decoder.decode_uncompressed(&raw(1, 10), 4, 1, false).unwrap(), vec![36, 291, 277, 632]);
    assert_eq!(decoder.decode_uncompressed(&raw(2, 8), 2, 2, false).unwrap(), vec![0x12, 0x34, 0x56, 0x78]);
    assert_eq!(decoder.decode_uncompressed(&raw(2, 8), 2, 2, true).unwrap(), vec![0]);
    assert_eq!(
        decoder.decode_uncompressed(&raw(2, 14), 2, 1, false).unwrap_err(),
        "DNG: Don't know about 14 bps images"
    );
    assert_eq!(
        decoder.decode_uncompressed(&raw(6, 8), 2, 1, false).unwrap_err(),
        "DNG: strip offset 6 is outside the file"
    );
    assert_eq!(
        decoder.decode_uncompressed(&ifd(vec![]), 2, 1, false).unwrap_err(),
        "Couldn't find tag Tag::StripOffsets"
    );
    assert_eq!(
        decoder.decode_uncompressed(&ifd(vec![integers(Tag::StripOffsets, &[0])]), 2, 1, false).unwrap_err(),
        "Couldn't find tag Tag::BitsPerSample"
    );
}

/// A lossless JPEG file of one component whose samples are all 2048 plus the given number. Its
/// scan holds the difference of the first sample, in the only two code words: `0` for no
/// difference and `10` for one of five bits.
fn lossless(width: u16, height: u16, add: u8) -> Vec<u8> {
    let mut out = vec![0xff, 0xd8, 0xff, 0xc4, 0, 2 + 17 + 2, 0];
    out.extend([1, 1, 0, 0, 0, 0, 0, 0, 0, 0, 0, 0, 0, 0, 0, 0]);
    out.extend([0, 5]);
    out.extend([0xff, 0xc3, 0, 11, 12]);
    out.extend(height.to_be_bytes());
    out.extend(width.to_be_bytes());
    out.extend([1, 1, 0x11, 0]);
    out.extend([0xff, 0xda, 0, 8, 1, 1, 0, 1, 0, 0]);
    // The word, five bits from 16 on, and words of no difference.
    let bits: u16 = 0b10 << 14 | (add as u16) << 9;
    out.extend(bits.to_be_bytes());
    out.extend([0xff, 0xd9]);
    out
}

#[test]
fn a_strip_of_lossless_jpeg_is_decoded() {
    let rawloader = loader();
    let mut buffer = vec![7; 10];
    let jpeg = lossless(3, 2, 17);
    buffer.extend(&jpeg);
    let decoder = DngDecoder::new(&buffer, ifd(vec![]), &rawloader);
    let raw = ifd(vec![integers(Tag::StripOffsets, &[10])]);
    assert_eq!(decoder.decode_compressed(&raw, 3, 2, 1, false).unwrap(), vec![2065; 6]);
    assert_eq!(decoder.decode_compressed(&raw, 3, 2, 1, true).unwrap(), vec![0]);
    let counted = ifd(vec![
        integers(Tag::StripOffsets, &[10]),
        integers(Tag::StripByteCounts, &[1000000]),
    ]);
    assert_eq!(decoder.decode_compressed(&counted, 3, 2, 1, false).unwrap(), vec![2065; 6]);
    assert_eq!(
        decoder.decode_compressed(&raw, 4, 2, 1, false).unwrap_err(),
        "ljpeg: trying to decode 3x2 with 1 components into 4x2"
    );
}

#[test]
fn every_fault_of_a_strip_has_its_message() {
    let rawloader = loader();
    let buffer = [1, 2, 3, 4];
    let decoder = DngDecoder::new(&buffer, ifd(vec![]), &rawloader);
    let fault = |entries: Vec<TiffEntry>| {
        decoder.decode_compressed(&ifd(entries), 3, 2, 1, false).unwrap_err()
    };
    assert_eq!(fault(vec![]), "DNG: didn't find tiles or strips");
    assert_eq!(
        fault(vec![integers(Tag::StripOffsets, &[0, 1])]),
        "DNG: files with more than one slice not supported yet"
    );
    assert_eq!(
        fault(vec![integers(Tag::StripOffsets, &[4])]),
        "DNG: strip offset 4 is outside the file"
    );
    assert_eq!(
        fault(vec![integers(Tag::StripOffsets, &[0])]),
        "Couldn't find tag Tag::WhiteLevel"
    );
    assert_eq!(
        fault(vec![integers(Tag::StripOffsets, &[0]), integers(Tag::WhiteLevel, &[255])]),
        "DNG: JPEG header was neither lossless (ljpeg: expected marker not found) nor DCT \
         (JPEG inspection failed: invalid data: inspect: missing SOI)"
    );
}

#[test]
fn tiles_of_lossless_jpeg_are_put_together() {
    let rawloader = loader();
    // Five by five samples in tiles of three by two, of which each has its own value.
    let mut buffer = Vec::new();
    let mut offsets = Vec::new();
    let mut counts = Vec::new();
    for tile in 0..6 {
        let jpeg = lossless(3, 2, 16 + tile);
        offsets.push(buffer.len() as u32);
        counts.push(jpeg.len() as u32);
        buffer.extend(jpeg);
    }
    let decoder = DngDecoder::new(&buffer, ifd(vec![]), &rawloader);
    let raw = || {
        vec![
            integers(Tag::TileOffsets, &offsets),
            integers(Tag::TileByteCounts, &counts),
            integers(Tag::TileWidth, &[3]),
            integers(Tag::TileLength, &[2]),
        ]
    };
    let image = decoder.decode_compressed(&ifd(raw()), 5, 5, 1, false).unwrap();
    assert_eq!(image.len(), 25);
    for y in 0..5 {
        for x in 0..5 {
            assert_eq!(image[y * 5 + x] as usize, 2064 + (y / 2) * 2 + x / 3);
        }
    }
    assert_eq!(decoder.decode_compressed(&ifd(raw()), 5, 5, 1, true).unwrap(), vec![0]);
    assert_eq!(
        decoder.decode_compressed(&ifd(raw()), 5, 4, 1, false).unwrap_err(),
        "DNG: trying to decode 4 tiles from 6 offsets"
    );
    let mut fewer = raw();
    fewer[1] = integers(Tag::TileByteCounts, &counts[..5]);
    assert_eq!(
        decoder.decode_compressed(&ifd(fewer), 5, 5, 1, false).unwrap_err(),
        "DNG: found 6 tile offsets but 5 tile byte counts"
    );
    let mut outside = raw();
    outside[0] = integers(Tag::TileOffsets, &[0, 0, 0, 9999, 0, 0]);
    assert_eq!(
        decoder.decode_compressed(&ifd(outside), 5, 5, 1, false).unwrap_err(),
        "DNG: tile 3 offset 9999 is outside the file"
    );
    let mut small = raw();
    small[2] = integers(Tag::TileWidth, &[4]);
    assert_eq!(
        decoder.decode_compressed(&ifd(small), 5, 5, 1, false).unwrap_err(),
        "DNG: tile 0 lossless JPEG pixels: ljpeg: trying to decode 3x2 with 1 components into 4x2"
    );
    let mut cut = raw();
    cut[1] = integers(Tag::TileByteCounts, &[1; 6]);
    assert_eq!(
        decoder.decode_compressed(&ifd(cut), 5, 5, 1, false).unwrap_err(),
        "Couldn't find tag Tag::WhiteLevel"
    );
    let mut cut = raw();
    cut[1] = integers(Tag::TileByteCounts, &[1; 6]);
    cut.push(integers(Tag::WhiteLevel, &[255]));
    assert_eq!(
        decoder.decode_compressed(&ifd(cut), 5, 5, 1, false).unwrap_err(),
        "DNG: tile 0 header was neither lossless (ljpeg: expected marker not found) nor DCT \
         (JPEG inspection failed: invalid data: inspect: missing SOI)"
    );
    assert_eq!(
        decoder.decode_compressed(&ifd(vec![integers(Tag::TileOffsets, &[0])]), 5, 5, 1, false).unwrap_err(),
        "Couldn't find tag Tag::TileWidth"
    );
    assert_eq!(
        decoder
            .decode_compressed(
                &ifd(vec![integers(Tag::TileOffsets, &[0]), integers(Tag::TileWidth, &[3])]),
                5,
                5,
                1,
                false,
            )
            .unwrap_err(),
        "Couldn't find tag Tag::TileLength"
    );
}

/// A baseline JPEG file of one component, 16 by 8: a block of 128 and a block of 138.
fn dct() -> Vec<u8> {
    let mut out = vec![0xff, 0xd8, 0xff, 0xdb, 0, 67, 0];
    out.extend([1; 64]);
    out.extend([0xff, 0xc0, 0, 11, 8, 0, 8, 0, 16, 1, 1, 0x11, 0]);
    // Code words of the first coefficient: none, and one of seven bits.
    out.extend([0xff, 0xc4, 0, 2 + 17 + 2, 0x00]);
    out.extend([1, 1, 0, 0, 0, 0, 0, 0, 0, 0, 0, 0, 0, 0, 0, 0]);
    out.extend([0, 7]);
    // The code word of the end of a block.
    out.extend([0xff, 0xc4, 0, 2 + 17 + 1, 0x10]);
    out.extend([1, 0, 0, 0, 0, 0, 0, 0, 0, 0, 0, 0, 0, 0, 0, 0]);
    out.extend([0]);
    out.extend([0xff, 0xda, 0, 8, 1, 1, 0x00, 0, 63, 0]);
    out.extend([0b0010_1010, 0b0000_1111]);
    out.extend([0xff, 0xd9]);
    out
}

#[test]
fn dct_samples_are_scaled_to_the_white_level() {
    let mut out = vec![7; 16 * 8];
    decode_dct_jpeg(&dct(), &mut out, 0, 16, 16, 8, 255, false).unwrap();
    for (i, sample) in out.iter().enumerate() {
        assert_eq!(*sample, if i % 16 < 8 { 128 } else { 138 });
    }
    let mut out = vec![7; 16 * 8];
    decode_dct_jpeg(&dct(), &mut out, 0, 16, 16, 8, 65535, false).unwrap();
    assert_eq!((out[0], out[15]), (128 * 257, 138 * 257));
    let mut out = vec![7; 16 * 8];
    decode_dct_jpeg(&dct(), &mut out, 0, 16, 16, 8, 1000000, false).unwrap();
    assert_eq!((out[0], out[15]), (128 * 257, 138 * 257));
    // A white level of 0 counts as 1, and samples are rounded to nearest.
    let mut out = vec![7; 16 * 8];
    decode_dct_jpeg(&dct(), &mut out, 0, 16, 16, 8, 0, false).unwrap();
    assert_eq!((out[0], out[15]), (1, 1));
}

#[test]
fn dct_samples_go_where_they_belong() {
    // A rectangle of 6 by 3 at column 5, in rows of 12 samples.
    let mut out = vec![7; 12 * 3];
    decode_dct_jpeg(&dct(), &mut out, 5, 12, 6, 3, 255, false).unwrap();
    for (i, sample) in out.iter().enumerate() {
        let c = i % 12;
        assert_eq!(*sample, if c < 5 || c >= 11 { 7 } else { 128 });
    }
    // Rows of 8 samples, two of them in a row of the frame.
    let mut out = vec![7; 8 * 15];
    assert_eq!(try_decode_dct_jpeg(&dct(), &mut out, 0, 8, 8, 15, 255, false), Some(Ok(())));
    for (i, sample) in out.iter().enumerate() {
        assert_eq!(*sample, if (i / 8) % 2 == 0 { 128 } else { 138 });
    }
}

#[test]
fn nothing_is_decoded_for_a_dummy_or_an_empty_rectangle() {
    let mut out = vec![7; 4];
    decode_dct_jpeg(&[], &mut out, 0, 4, 4, 1, 255, true).unwrap();
    decode_dct_jpeg(&[], &mut out, 0, 4, 0, 1, 255, false).unwrap();
    decode_dct_jpeg(&[], &mut out, 0, 4, 4, 0, 255, false).unwrap();
    assert_eq!(out, vec![7; 4]);
}

#[test]
fn dct_data_that_cannot_be_decoded_is_refused() {
    let mut out = vec![7; 16 * 8];
    let error = decode_dct_jpeg(&[1, 2, 3], &mut out, 0, 16, 16, 8, 255, false).unwrap_err();
    assert_eq!(error, "JPEG inspection failed: invalid data: inspect: missing SOI");
    let lossless = lossless(16, 8, 16);
    let error = decode_dct_jpeg(&lossless, &mut out, 0, 16, 16, 8, 255, false).unwrap_err();
    assert_eq!(error, "JPEG frame Lossless is not DCT-compressed");
    // Without the table of the first coefficient there is no picture.
    let mut broken = dct();
    let table = 2 + 69 + 13;
    broken.drain(table..table + 23);
    let error = decode_dct_jpeg(&broken, &mut out, 0, 16, 16, 8, 255, false).unwrap_err();
    assert!(error.starts_with("DCT JPEG decode failed: "));
    assert_eq!(out, vec![7; 16 * 8]);
}

/// The place of the frame header in [`dct`].
const FRAME: usize = 2 + 69;

#[test]
fn dct_samples_have_eight_or_twelve_bits() {
    let with_precision = |bits: u8| {
        let mut jpeg = dct();
        jpeg[FRAME + 1] = 0xc1;
        jpeg[FRAME + 4] = bits;
        let mut out = vec![7; 16 * 8];
        let done = try_decode_dct_jpeg(&jpeg, &mut out, 0, 16, 16, 8, 4095, false).unwrap();
        (done, out)
    };
    let (done, out) = with_precision(12);
    assert_eq!(done, Ok(()));
    assert_eq!((out[0], out[15]), (2048, 2058));
    let (done, out) = with_precision(8);
    assert_eq!(done, Ok(()));
    assert_eq!((out[0], out[15]), (2056, 2216));
    for bits in [0, 1, 7, 9, 16, 255] {
        let (done, out) = with_precision(bits);
        assert!(done.unwrap_err().starts_with("DCT JPEG decode failed: "));
        assert_eq!(out, vec![7; 16 * 8]);
    }
}

/// A file of an arithmetic coder with so many scan headers.
fn with_scans(count: usize) -> Vec<u8> {
    let mut jpeg = dct();
    jpeg[FRAME + 1] = 0xca;
    jpeg.truncate(FRAME + 13);
    for _ in 0..count {
        jpeg.extend([0xff, 0xda]);
    }
    jpeg
}

#[test]
fn scans_that_do_not_add_up_are_refused() {
    let mut out = vec![7; 16 * 8];
    let few = try_decode_dct_jpeg(&with_scans(229376), &mut out, 0, 16, 16, 8, 255, false);
    assert!(few.unwrap().unwrap_err().starts_with("DCT JPEG decode failed: "));
    let many = with_scans(229377);
    assert_eq!(try_decode_dct_jpeg(&many, &mut out, 0, 16, 16, 8, 255, false), None);
    assert_eq!(out, vec![7; 16 * 8]);
    // A Huffman coder has no such limit.
    let mut huffman = with_scans(229377);
    huffman[FRAME + 1] = 0xc2;
    let done = try_decode_dct_jpeg(&huffman, &mut out, 0, 16, 16, 8, 255, false);
    assert!(done.unwrap().unwrap_err().starts_with("DCT JPEG decode failed: "));
    // Where the frame does not fit, the scans do not count.
    let done = try_decode_dct_jpeg(&many, &mut out, 0, 17, 17, 8, 255, false);
    assert_eq!(done, Some(Err("DNG DCT JPEG 16x8 cannot fill tile 17x8".to_string())));
    let rawloader = loader();
    let tried = |jpeg: &[u8], width: u32| {
        let mut entries = raw_entries();
        entries[0] = integers(Tag::Compression, &[7]);
        entries[1] = integers(Tag::ImageWidth, &[width]);
        entries[5] = integers(Tag::StripOffsets, &[0]);
        DngDecoder::new(jpeg, ifd(entries), &rawloader).try_image(false)
    };
    assert!(tried(&many, 16).is_none());
    let error = tried(&many, 17).unwrap().unwrap_err();
    assert_eq!(
        error,
        "DNG: JPEG header was neither lossless (ljpeg: not a lossless JPEG file, found DQT) nor \
         DCT (DNG DCT JPEG 16x8 cannot fill tile 17x2)"
    );
    assert!(matches!(tried(&with_scans(229376), 16), Some(Err(_))));
}

#[test]
fn dct_samples_do_not_exceed_the_white_level() {
    for (frame, bits) in [(0xc0, 8), (0xc1, 12)] {
        let mut jpeg = dct();
        jpeg[FRAME + 1] = frame;
        jpeg[FRAME + 4] = bits;
        // The second block is far too bright.
        jpeg[7] = 255;
        for white in [0, 1, 255, 1000, 4095, 65535, 70000] {
            let mut out = vec![7; 18 * 8];
            decode_dct_jpeg(&jpeg, &mut out, 1, 18, 16, 8, white, false).unwrap();
            let white: u16 = white.clamp(1, 65535) as u16;
            for (i, sample) in out.iter().enumerate() {
                let column = i % 18;
                if column == 0 || column == 17 {
                    assert_eq!(*sample, 7);
                } else if column > 8 {
                    assert_eq!(*sample, white);
                } else {
                    assert!(*sample <= white);
                }
            }
        }
    }
}

#[test]
fn byte_counts_past_the_end_are_cut_off() {
    let rawloader = loader();
    let strips = [(dct(), 16, 8), (lossless(3, 2, 17), 3, 2)];
    for (jpeg, width, height) in strips {
        let mut buffer = vec![0; 5];
        buffer.extend(&jpeg);
        let decoder = DngDecoder::new(&buffer, ifd(vec![]), &rawloader);
        let decoded = |count: Option<u32>| {
            let mut raw = vec![integers(Tag::StripOffsets, &[5]), integers(Tag::WhiteLevel, &[255])];
            if let Some(count) = count {
                raw.push(integers(Tag::StripByteCounts, &[count]));
            }
            decoder.decode_compressed(&ifd(raw), width, height, 1, false)
        };
        let all = decoded(None);
        assert!(all.is_ok());
        for count in [jpeg.len() as u32, jpeg.len() as u32 + 1, u32::MAX] {
            assert_eq!(decoded(Some(count)), all);
        }
        assert_ne!(decoded(Some(4)), all);
    }
    let mut buffer = Vec::new();
    let mut offsets = Vec::new();
    for jpeg in [dct(), lossless(16, 8, 17)] {
        offsets.push(buffer.len() as u32);
        buffer.extend(jpeg);
    }
    offsets.push(9999);
    let decoder = DngDecoder::new(&buffer, ifd(vec![]), &rawloader);
    // With two tiles there is an image, with three the last one is outside the file.
    for tiles in [2, 3] {
        let decoded = |counts: Option<&[u32]>| {
            let mut raw = vec![
                integers(Tag::TileOffsets, &offsets[..tiles]),
                integers(Tag::TileWidth, &[16]),
                integers(Tag::TileLength, &[8]),
                integers(Tag::WhiteLevel, &[255]),
            ];
            if let Some(counts) = counts {
                raw.push(integers(Tag::TileByteCounts, &counts[..tiles]));
            }
            decoder.decode_compressed(&ifd(raw), 16 * tiles, 8, 1, false)
        };
        let all = decoded(None);
        assert_eq!(all.is_ok(), tiles == 2);
        let len = buffer.len() as u32;
        assert_eq!(decoded(Some(&[len, len - offsets[1], 0])), all);
        assert_eq!(decoded(Some(&[u32::MAX, u32::MAX, u32::MAX])), all);
        assert_ne!(decoded(Some(&[4, 4, 4])), all);
    }
}

#[test]
fn tiles_of_dct_jpeg_are_put_together() {
    let rawloader = loader();
    // Two tiles of 16 by 8, DCT-compressed, above two lossless ones, cut to 24 by 10.
    let mut buffer = Vec::new();
    let mut offsets = Vec::new();
    for jpeg in [dct(), dct(), lossless(16, 8, 17), lossless(16, 8, 18)] {
        offsets.push(buffer.len() as u32);
        buffer.extend(jpeg);
    }
    let decoder = DngDecoder::new(&buffer, ifd(vec![]), &rawloader);
    let raw = ifd(vec![
        integers(Tag::TileOffsets, &offsets),
        integers(Tag::TileWidth, &[16]),
        integers(Tag::TileLength, &[8]),
        integers(Tag::WhiteLevel, &[510]),
    ]);
    let image = decoder.decode_compressed(&raw, 24, 10, 1, false).unwrap();
    assert_eq!(image.len(), 240);
    for y in 0..10 {
        for x in 0..24 {
            let expected = if y >= 8 {
                2065 + x / 16
            } else if x / 8 == 1 {
                276
            } else {
                256
            };
            assert_eq!(image[y * 24 + x] as usize, expected);
        }
    }
}

#[test]
fn what_was_there_before_has_no_part_in_the_outcome() {
    for (jpeg, width) in [(dct(), 16), (dct(), 17), (vec![1, 2], 16), (lossless(16, 8, 17), 16)] {
        let mut dark = vec![0; 17 * 8];
        let mut bright = vec![65535; 17 * 8];
        let first = try_decode_dct_jpeg(&jpeg, &mut dark, 0, width, width, 8, 255, false);
        let second = try_decode_dct_jpeg(&jpeg, &mut bright, 0, width, width, 8, 255, false);
        assert_eq!(first, second);
    }
}

fn jpeg_frame(width: u16, height: u16) -> JpegFrame {
    JpegFrame {
        is_dct: true,
        kind: "ExtendedSequential".to_string(),
        components: 1,
        width,
        height,
        precision: 12,
    }
}

#[test]
fn every_fault_of_a_dct_rectangle_has_its_message() {
    let fault = |frame: JpegFrame, x, stripwidth, width, height| {
        plan_dct(&frame, 12, x, stripwidth, width, height).unwrap_err()
    };
    let mut frame = jpeg_frame(4, 3);
    frame.components = 3;
    assert_eq!(
        fault(frame, 0, 4, 4, 3),
        "DNG DCT JPEG has 3 components, expected one sensor plane"
    );
    assert_eq!(fault(jpeg_frame(4, 0), 0, 4, 4, 3), "DNG DCT JPEG has invalid dimensions 4x0");
    assert_eq!(fault(jpeg_frame(4, 2), 0, 4, 4, 3), "DNG DCT JPEG 4x2 cannot fill tile 4x3");
    assert_eq!(
        fault(jpeg_frame(4, 3), usize::MAX, 4, 4, 3),
        "DNG DCT JPEG destination row overflowed"
    );
    assert_eq!(
        fault(jpeg_frame(4, 3), 1, 4, 4, 3),
        "DNG DCT JPEG destination 1..5 exceeds row width 4"
    );
    assert_eq!(
        fault(jpeg_frame(4, 3), 0, usize::MAX, 4, 3),
        "DNG DCT JPEG destination size overflowed"
    );
    assert_eq!(
        fault(jpeg_frame(4, 3), 0, 5, 4, 3),
        "DNG DCT JPEG destination has 12 samples, needs 14"
    );
    assert_eq!(plan_dct(&jpeg_frame(8, 2), 12, 0, 4, 4, 3), Ok(Layout::Stacked(2)));
    assert_eq!(plan_dct(&jpeg_frame(8, 3), 12, 0, 4, 4, 3), Ok(Layout::Rows));
}

#[test]
fn every_fault_of_a_picture_has_its_message() {
    let fault = |picture| take_plane(&jpeg_frame(4, 3), picture).unwrap_err();
    assert_eq!(
        fault(Picture::NotCreated("a".to_string())),
        "could not create DCT JPEG decoder: a"
    );
    assert_eq!(
        fault(Picture::NotSubmitted("b".to_string())),
        "could not submit DCT JPEG tile: b"
    );
    assert_eq!(fault(Picture::NotDecoded("c".to_string())), "DCT JPEG decode failed: c");
    assert_eq!(fault(Picture::NotVideo), "DCT JPEG decoder returned a non-video frame");
    assert_eq!(
        fault(Picture::Planes(3, Some((8, vec![0; 24])))),
        "DNG DCT JPEG decoded to 3 planes, expected one"
    );
    assert_eq!(
        fault(Picture::Planes(0, None)),
        "DNG DCT JPEG decoded to 0 planes, expected one"
    );
    assert_eq!(
        fault(Picture::Planes(1, Some((7, vec![0; 24])))),
        "DNG DCT JPEG plane has stride 7 and 24 bytes for 4x3 samples"
    );
    assert_eq!(
        fault(Picture::Planes(1, Some((8, vec![0; 23])))),
        "DNG DCT JPEG plane has stride 8 and 23 bytes for 4x3 samples"
    );
    assert_eq!(take_plane(&jpeg_frame(4, 3), Picture::Planes(1, Some((8, vec![5; 24])))), Ok((8, vec![5; 24])));
}

#[test]
fn twelve_bit_samples_are_two_bytes() {
    let frame = jpeg_frame(2, 1);
    // 4095 and 2048, with two bytes of padding.
    let picture = Picture::Planes(1, Some((6, vec![0xff, 0x0f, 0x00, 0x08, 9, 9])));
    let mut out = vec![7; 3];
    place_picture(&frame, picture, Layout::Rows, &mut out, 1, 3, 2, 1, 16383).unwrap();
    assert_eq!(out, vec![7, 16383, 8194]);
}

#[test]
fn a_strip_of_dct_jpeg_is_decoded() {
    let rawloader = loader();
    let buffer = dct();
    let decoder = DngDecoder::new(&buffer, ifd(vec![]), &rawloader);
    let raw = ifd(vec![integers(Tag::StripOffsets, &[0]), integers(Tag::WhiteLevel, &[510])]);
    let image = decoder.decode_compressed(&raw, 16, 8, 1, false).unwrap();
    assert_eq!(image.len(), 128);
    assert_eq!((image[0], image[15]), (256, 276));
    let error = decoder.decode_compressed(&raw, 17, 8, 1, false).unwrap_err();
    assert_eq!(
        error,
        "DNG: JPEG header was neither lossless (ljpeg: not a lossless JPEG file, found DQT) nor \
         DCT (DNG DCT JPEG 16x8 cannot fill tile 17x8)"
    );
}

fn raw_entries() -> Vec<TiffEntry> {
    vec![
        integers(Tag::Compression, &[1]),
        integers(Tag::ImageWidth, &[2]),
        integers(Tag::ImageLength, &[2]),
        integers(Tag::SamplesPerPixel, &[1]),
        integers(Tag::PhotometricInt, &[32803]),
        integers(Tag::StripOffsets, &[2]),
        integers(Tag::BitsPerSample, &[8]),
        integers(Tag::WhiteLevel, &[200]),
        integers(Tag::CFAPattern, &[2, 1, 1, 0]),
        integers(Tag::CFARepeatPatternDim, &[2, 2]),
    ]
}

fn read(buffer: &[u8], tiff: TiffIFD, rawloader: &RawLoader, dummy: bool) -> Result<RawImage, String> {
    let decoder = DngDecoder::new(buffer, tiff, rawloader);
    assert!(decoder.try_image(dummy).is_some());
    decoder.image(dummy)
}

#[test]
fn an_image_is_read_with_what_the_file_says_of_it() {
    let rawloader = loader();
    let buffer = [0, 0, 1, 2, 3, 0];
    let mut top = ifd(vec![
        text(Tag::Make, "Maker"),
        text(Tag::Model, "Model 1"),
        integers(Tag::Orientation, &[6]),
        // A preview, which does not count.
        integers(Tag::Compression, &[7]),
        integers(Tag::NewSubFileType, &[1]),
        integers(Tag::Linearization, &[10, 20, 30]),
    ]);
    let mut raw = raw_entries();
    raw.push(numbers(Tag::BlackLevels, &[3.0]));
    raw.push(integers(Tag::NewSubFileType, &[0]));
    top.subifds.push(ifd(raw));
    let image = read(&buffer, top, &rawloader, false).unwrap();
    assert_eq!((image.make.as_str(), image.model.as_str()), ("Maker", "Model 1"));
    assert_eq!((image.clean_make.as_str(), image.clean_model.as_str()), ("Maker", "Model 1"));
    assert_eq!((image.width, image.height, image.cpp), (2, 2, 1));
    assert_eq!(image.data, vec![20, 30, 30, 10]);
    assert_eq!(image.blacklevels, [3; 4]);
    assert_eq!(image.whitelevels, [200; 4]);
    assert_eq!(image.cfa.name, "BGGR");
    assert_eq!(image.crops, [0; 4]);
    assert!(image.blackareas.is_empty());
    assert_eq!(image.orientation, Orientation::Rotate90);
    assert_eq!(image.xyz_to_cam[0][0], 0.412453_f32.to_bits());
}

#[test]
fn a_camera_that_is_known_has_its_names() {
    let mut camera = Camera::new();
    camera.make = "Maker".to_string();
    camera.model = "Model 1".to_string();
    camera.clean_make = "The Maker".to_string();
    camera.clean_model = "One".to_string();
    camera.orientation = Orientation::Rotate180;
    let mut other = Camera::new();
    other.make = "Maker".to_string();
    let rawloader = RawLoader { cameras: vec![other, camera] };
    let mut entries = raw_entries();
    entries.push(text(Tag::Make, "Maker"));
    entries.push(text(Tag::Model, "Model 1"));
    // The orientation that the file states, or lacks, does not count.
    entries.push(integers(Tag::Orientation, &[]));
    let image = read(&[0; 6], ifd(entries), &rawloader, false).unwrap();
    assert_eq!((image.make.as_str(), image.model.as_str()), ("Maker", "Model 1"));
    assert_eq!((image.clean_make.as_str(), image.clean_model.as_str()), ("The Maker", "One"));
    assert_eq!(image.orientation, Orientation::Rotate180);
}

#[test]
fn a_file_without_names_is_called_dng() {
    let rawloader = loader();
    let image = read(&[0; 6], ifd(raw_entries()), &rawloader, true).unwrap();
    assert_eq!((image.make.as_str(), image.model.as_str()), ("DNG", "DNG"));
    assert_eq!(image.orientation, Orientation::Normal);
    assert_eq!(image.data, vec![0]);
    let mut entries = raw_entries();
    entries.push(integers(Tag::Orientation, &[]));
    let decoder = DngDecoder::new(&[0; 6], ifd(entries), &rawloader);
    assert!(decoder.try_image(false).is_none());
    let mut entries = raw_entries();
    entries.push(text(Tag::UniqueCameraModel, "Unique"));
    let image = read(&[0; 6], ifd(entries), &rawloader, false).unwrap();
    assert_eq!((image.make.as_str(), image.model.as_str()), ("DNG", "Unique"));
    assert_eq!(
        rawloader.check_supported(&ifd(vec![])).unwrap_err(),
        "Couldn't find tag Tag::Make"
    );
    let named = ifd(vec![text(Tag::Make, "A"), text(Tag::Model, "B")]);
    assert_eq!(
        rawloader.check_supported(&named).unwrap_err(),
        "Couldn't find camera \"A\" \"B\""
    );
}

#[test]
fn an_image_that_holds_colors_has_no_filters() {
    let rawloader = loader();
    let mut entries = raw_entries();
    entries[1] = integers(Tag::ImageWidth, &[1]);
    entries[2] = integers(Tag::ImageLength, &[1]);
    entries[3] = integers(Tag::SamplesPerPixel, &[3]);
    entries[4] = integers(Tag::PhotometricInt, &[34892]);
    let image = read(&[0, 0, 4, 5, 6], ifd(entries), &rawloader, false).unwrap();
    assert_eq!(image.cpp, 3);
    assert_eq!(image.data, vec![4, 5, 6]);
    assert_eq!(image.cfa.name, "");
}

#[test]
fn an_image_that_cannot_be_read_has_a_message() {
    let rawloader = loader();
    let fault = |i: usize, entry: TiffEntry| {
        let mut entries = raw_entries();
        entries[i] = entry;
        read(&[0; 6], ifd(entries), &rawloader, false).unwrap_err()
    };
    let other = || text(Tag::Make, "");
    assert_eq!(fault(1, other()), "Couldn't find tag Tag::ImageWidth");
    assert_eq!(fault(2, other()), "Couldn't find tag Tag::ImageLength");
    assert_eq!(fault(3, other()), "Couldn't find tag Tag::SamplesPerPixel");
    assert_eq!(fault(4, other()), "Couldn't find tag Tag::PhotometricInt");
    assert_eq!(fault(7, other()), "Couldn't find tag Tag::WhiteLevel");
    assert_eq!(fault(8, other()), "Couldn't find tag Tag::CFAPattern");
    assert_eq!(
        fault(0, integers(Tag::Compression, &[0x884c])),
        "Don't know how to read DNGs with compression 34892"
    );
}

#[test]
fn files_that_lack_values_are_not_readable() {
    let rawloader = loader();
    let tried = |i: usize, entry: TiffEntry| {
        let mut entries = raw_entries();
        entries[i] = entry;
        DngDecoder::new(&[0; 6], ifd(entries), &rawloader).try_image(false)
    };
    assert!(matches!(tried(0, integers(Tag::Compression, &[1])), Some(Ok(_))));
    assert!(matches!(tried(0, integers(Tag::Compression, &[7])), Some(Err(_))));
    assert!(tried(0, integers(Tag::Compression, &[3])).is_none());
    assert!(tried(0, integers(Tag::Compression, &[])).is_none());
    assert!(tried(1, integers(Tag::ImageWidth, &[])).is_none());
    assert!(tried(2, integers(Tag::ImageLength, &[])).is_none());
    assert!(tried(3, integers(Tag::SamplesPerPixel, &[])).is_none());
    assert!(tried(4, integers(Tag::PhotometricInt, &[])).is_none());
    assert!(tried(5, integers(Tag::StripOffsets, &[])).is_none());
    assert!(tried(6, integers(Tag::BitsPerSample, &[])).is_none());
    assert!(tried(7, integers(Tag::WhiteLevel, &[])).is_none());
    let mut entries = raw_entries();
    entries.push(integers(Tag::MaskedAreas, &[1, 2, 3]));
    assert!(DngDecoder::new(&[0; 6], ifd(entries), &rawloader).try_image(false).is_none());
    assert!(DngDecoder::new(&[], ifd(vec![]), &rawloader).try_image(false).is_none());
    // Sizes that cannot be multiplied.
    let mut entries = raw_entries();
    entries[1] = integers(Tag::ImageWidth, &[u32::MAX]);
    entries[2] = integers(Tag::ImageLength, &[u32::MAX]);
    entries[3] = integers(Tag::SamplesPerPixel, &[u32::MAX]);
    entries[6] = integers(Tag::BitsPerSample, &[16]);
    assert!(DngDecoder::new(&[0; 6], ifd(entries), &rawloader).try_image(false).is_none());
}

#[test]
fn values_that_are_not_asked_for_may_be_lacking() {
    let rawloader = loader();
    let fault = |changes: Vec<(usize, TiffEntry)>, more: Vec<TiffEntry>| {
        let mut entries = raw_entries();
        for (i, entry) in changes {
            entries[i] = entry;
        }
        entries.extend(more);
        let decoder = DngDecoder::new(&[0; 6], ifd(entries), &rawloader);
        decoder.try_image(false).unwrap().unwrap_err()
    };
    let jpeg = || (0, integers(Tag::Compression, &[7]));
    assert_eq!(
        fault(vec![jpeg(), (5, integers(Tag::StripOffsets, &[]))], vec![]),
        "DNG: files with more than one slice not supported yet"
    );
    assert_eq!(
        fault(
            vec![jpeg(), (5, integers(Tag::StripOffsets, &[6]))],
            vec![integers(Tag::StripByteCounts, &[]), integers(Tag::TileWidth, &[0])],
        ),
        "DNG: strip offset 6 is outside the file"
    );
    // The image cannot be read, so its description does not count.
    assert_eq!(
        fault(
            vec![(0, integers(Tag::Compression, &[0x884c])), (7, integers(Tag::WhiteLevel, &[]))],
            vec![],
        ),
        "Don't know how to read DNGs with compression 34892"
    );
    assert_eq!(
        fault(vec![(7, integers(Tag::WhiteLevel, &[])), (8, text(Tag::Make, ""))], vec![]),
        "Couldn't find tag Tag::CFAPattern"
    );
    // What is wrong with the crop comes before the masked areas.
    assert_eq!(
        fault(
            vec![],
            vec![integers(Tag::MaskedAreas, &[1, 2, 3]), integers(Tag::ActiveArea, &[1])],
        ),
        "DNG: ActiveArea has 1 values, expected 4"
    );
    // Entries of tiles do not count where there is a strip.
    let mut entries = raw_entries();
    entries.push(integers(Tag::TileWidth, &[0]));
    entries.push(integers(Tag::TileLength, &[]));
    let decoder = DngDecoder::new(&[0, 0, 1, 2, 3, 4], ifd(entries), &rawloader);
    assert_eq!(decoder.try_image(false).unwrap().unwrap().data, vec![1, 2, 3, 4]);
}

#[test]
fn tiles_without_a_white_level_have_to_be_lossless() {
    let rawloader = loader();
    let tried = |jpeg: Vec<u8>, white: &[u32], twidth: u32| {
        let mut entries = raw_entries();
        entries[0] = integers(Tag::Compression, &[7]);
        entries[5] = integers(Tag::TileOffsets, &[0]);
        entries[6] = integers(Tag::TileWidth, &[twidth]);
        entries[7] = integers(Tag::WhiteLevel, white);
        entries.push(integers(Tag::TileLength, &[8]));
        DngDecoder::new(&jpeg, ifd(entries), &rawloader).try_image(false)
    };
    let image = tried(lossless(16, 8, 17), &[4095], 16).unwrap().unwrap();
    assert_eq!(image.data, vec![2065; 4]);
    let image = tried(dct(), &[255], 16).unwrap().unwrap();
    assert_eq!(image.data, vec![128; 4]);
    assert!(tried(dct(), &[], 16).is_none());
    assert!(tried(lossless(16, 8, 17), &[], 16).is_none());
    assert!(matches!(tried(lossless(1, 1, 17), &[], 16), Some(Err(_))));
    assert!(tried(dct(), &[255], 0).is_none());
}

#[test]
fn tiles_behind_one_that_fails_do_not_count() {
    let rawloader = loader();
    let tried = |first: Vec<u8>, white: &[u32]| {
        let mut buffer = first;
        let second = buffer.len() as u32;
        buffer.extend(dct());
        let mut entries = raw_entries();
        entries[0] = integers(Tag::Compression, &[7]);
        entries[5] = integers(Tag::TileOffsets, &[0, second]);
        entries[6] = integers(Tag::TileWidth, &[1]);
        entries[7] = integers(Tag::WhiteLevel, white);
        entries.push(integers(Tag::TileLength, &[8]));
        DngDecoder::new(&buffer, ifd(entries), &rawloader).try_image(false)
    };
    let image = tried(lossless(1, 2, 17), &[255]).unwrap().unwrap();
    assert_eq!(image.data, vec![2065, 128, 2065, 128]);
    // The second tile needs a white level, which is lacking, but only if it is its turn.
    assert!(tried(lossless(1, 2, 17), &[]).is_none());
    let error = tried(lossless(1, 1, 17), &[]).unwrap().unwrap_err();
    assert_eq!(
        error,
        "DNG: tile 0 lossless JPEG pixels: ljpeg: trying to decode 1x1 with 1 components into 1x2"
    );
}

#[test]
fn a_clone_is_read_as_the_file_is() {
    let rawloader = loader();
    let buffer = [0, 0, 1, 2, 3, 0];
    let mut top = ifd(vec![text(Tag::Make, "Maker"), numbers(Tag::AsShotNeutral, &[0.5])]);
    top.subifds.push(ifd(raw_entries()));
    let decoder = DngDecoder::new(&buffer, top, &rawloader);
    let copy = decoder.clone();
    let tiff = copy.tiff();
    assert_eq!((tiff.entries.len(), tiff.subifds.len()), (2, 1));
    assert_eq!(tiff.entries[0].tag, Tag::Make);
    assert_eq!(tiff.entries[0].get_str(), "Maker");
    assert_eq!(tiff.entries[1].get_number(0).bits, 0.5_f32.to_bits());
    assert_eq!(tiff.entries[1].get_number(0).text, decoder.tiff().entries[1].get_number(0).text);
    let image = copy.try_image(false).unwrap().unwrap();
    assert_eq!(image.make, "Maker");
    assert_eq!(image.data, vec![1, 2, 3, 0]);
}

#[test]
fn dct_and_lossless_frames_are_laid_out_alike() {
    assert_eq!(plan_dct(&jpeg_frame(12, 2), 20, 0, 4, 4, 5), Ok(Layout::Stacked(3)));
    assert_eq!(plan_dct(&jpeg_frame(8, 4), 27, 2, 9, 5, 3), Ok(Layout::Rows));
}

#[test]
fn scaling_keeps_black_white_and_order() {
    let scale = |sample: u16, white: u32| {
        let frame = jpeg_frame(1, 1);
        let bytes = sample.to_le_bytes();
        let picture = Picture::Planes(1, Some((2, bytes.to_vec())));
        let mut out = vec![0];
        place_picture(&frame, picture, Layout::Rows, &mut out, 0, 1, 1, 1, white).unwrap();
        out[0]
    };
    for white in [1, 255, 1000, 4095, 16383, 65535] {
        assert_eq!(scale(0, white), 0);
        assert_eq!(scale(4095, white) as u32, white);
        for sample in 1..4096 {
            assert!(scale(sample - 1, white) <= scale(sample, white));
        }
    }
    for sample in [0, 1, 77, 4095, 5000, 65535] {
        assert_eq!(scale(sample, 4095), sample);
    }
    // What lies above the white level of the frame stays below the largest sample.
    assert_eq!(scale(65535, 65535), 65535);
}

#[test]
fn a_dummy_read_leaves_nothing_but_the_samples_out() {
    let rawloader = loader();
    let image = read(&[0, 0, 1, 2, 3, 4], ifd(raw_entries()), &rawloader, false).unwrap();
    let dummy = read(&[0, 0, 1, 2, 3, 4], ifd(raw_entries()), &rawloader, true).unwrap();
    assert_eq!(image.data, vec![1, 2, 3, 4]);
    assert_eq!(dummy.data, vec![0]);
    assert_eq!(dummy.make, image.make);
    assert_eq!((dummy.width, dummy.height, dummy.cpp), (image.width, image.height, image.cpp));
    assert_eq!(dummy.whitelevels, image.whitelevels);
    assert_eq!(dummy.cfa.name, image.cfa.name);
    assert_eq!(dummy.crops, image.crops);
}

#[test]
fn the_crop_of_an_image_leaves_some_of_it() {
    let rawloader = loader();
    let mut entries = raw_entries();
    entries.push(integers(Tag::ActiveArea, &[0, 1, 2, 2]));
    let image = read(&[0; 6], ifd(entries), &rawloader, false).unwrap();
    assert_eq!(image.crops, [0, 0, 0, 1]);
    assert_eq!(image.cfa.name, "GBRG");
}
