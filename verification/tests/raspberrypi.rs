use rawloader::camera::Orientation;
use rawloader::raspberrypi::{
    decode_brcm_bayer, raspberry_pi_camera_metadata, RaspberryPiDecoder, RaspberryPiHeader,
    BRCM_DATA_OFFSET, BRCM_FORMAT_BAYER, BRCM_HEADER_OFFSET, BRCM_HEADER_SIZE, BRCM_RAW10,
    BRCM_RAW12, BRCM_RAW14, BRCM_RAW16, BRCM_RAW8,
};

fn header(format: u8, width: usize) -> RaspberryPiHeader {
    RaspberryPiHeader {
        data_offset: 0,
        width: width,
        height: 1,
        stride: 32,
        bayer_order: 0,
        bayer_format: format,
    }
}

#[test]
fn raw10_unpacking_uses_the_shared_low_bit_byte() {
    let mut input = vec![0; 32];
    input[..5].copy_from_slice(&[1, 2, 3, 4, 0b11_10_01_00]);
    let image = decode_brcm_bayer(&input, header(BRCM_RAW10, 4), false).unwrap();
    assert_eq!(image, vec![4, 9, 14, 19]);
}

#[test]
fn raw12_unpacking_uses_one_low_nibble_per_pixel() {
    let mut input = vec![0; 32];
    input[..3].copy_from_slice(&[0x12, 0x34, 0xba]);
    let image = decode_brcm_bayer(&input, header(BRCM_RAW12, 2), false).unwrap();
    assert_eq!(image, vec![0x12a, 0x34b]);
}

#[test]
fn raw14_unpacking_preserves_all_fourteen_bits() {
    let values = [0x3fff, 0x2aaa, 0x1555, 0x0123];
    let mut input = vec![0; 32];
    input[0] = (values[0] >> 6) as u8;
    input[1] = (values[1] >> 6) as u8;
    input[2] = (values[2] >> 6) as u8;
    input[3] = (values[3] >> 6) as u8;
    input[4] = (((values[0] & 0x3f) << 2) | ((values[1] >> 4) & 0x3)) as u8;
    input[5] = (((values[1] & 0xf) << 4) | ((values[2] >> 2) & 0xf)) as u8;
    input[6] = (((values[2] & 0x3) << 6) | (values[3] & 0x3f)) as u8;
    let image = decode_brcm_bayer(&input, header(BRCM_RAW14, 4), false).unwrap();
    assert_eq!(image, values);
}

#[test]
fn malformed_brcm_payload_is_rejected_before_allocation() {
    let mut input = vec![0; BRCM_HEADER_OFFSET + BRCM_HEADER_SIZE];
    input[..4].copy_from_slice(b"BRCM");
    let header = BRCM_HEADER_OFFSET;
    input[header + 32..header + 34].copy_from_slice(&3280_u16.to_le_bytes());
    input[header + 34..header + 36].copy_from_slice(&2464_u16.to_le_bytes());
    input[header + 66..header + 68].copy_from_slice(&BRCM_FORMAT_BAYER.to_le_bytes());
    input[header + 69] = BRCM_RAW10;
    let error = RaspberryPiDecoder::new(&input).unwrap_err();
    assert!(error.contains("truncated"));
}

/// A file whose marker stands at `marker`, with room for `payload` bytes of samples.
fn file(
    marker: usize,
    width: u16,
    height: u16,
    padding: u16,
    format: u16,
    order: u8,
    packing: u8,
    payload: usize,
) -> Vec<u8> {
    let mut input = vec![0; marker + BRCM_DATA_OFFSET + payload];
    input[marker..marker + 4].copy_from_slice(b"BRCM");
    let header = marker + BRCM_HEADER_OFFSET;
    input[header + 32..header + 34].copy_from_slice(&width.to_le_bytes());
    input[header + 34..header + 36].copy_from_slice(&height.to_le_bytes());
    input[header + 36..header + 38].copy_from_slice(&padding.to_le_bytes());
    input[header + 66..header + 68].copy_from_slice(&format.to_le_bytes());
    input[header + 68] = order;
    input[header + 69] = packing;
    input
}

#[test]
fn a_file_without_a_marker_has_no_raw_image() {
    assert!(RaspberryPiDecoder::new(&[]).unwrap().is_none());
    assert!(RaspberryPiDecoder::new(b"BRC").unwrap().is_none());
    assert!(RaspberryPiDecoder::new(&vec![0x42; 1000]).unwrap().is_none());
}

#[test]
fn the_last_marker_counts() {
    // The first marker has a header of its own, which would be refused.
    let mut input = file(2000, 4, 1, 0, 33, 2, BRCM_RAW8, 32);
    input[..4].copy_from_slice(b"BRCM");
    let data = 2000 + BRCM_DATA_OFFSET;
    input[data..data + 4].copy_from_slice(&[9, 8, 7, 6]);
    let decoder = RaspberryPiDecoder::new(&input).unwrap().unwrap();
    let image = decoder.image(false).unwrap();
    assert_eq!(image.data, vec![9, 8, 7, 6]);
    assert_eq!(image.cfa.name, "BGGR");
}

#[test]
fn every_fault_of_a_brcm_header_has_its_message() {
    let fault = |input: Vec<u8>| RaspberryPiDecoder::new(&input).unwrap_err();
    assert_eq!(
        fault(b"BRCM".to_vec()),
        "Raspberry Pi RAW header is truncated"
    );
    assert_eq!(
        fault(file(0, 4, 1, 0, 34, 0, BRCM_RAW8, 32)),
        "Raspberry Pi BRCM payload has image format 34, expected Bayer format 33"
    );
    assert_eq!(
        fault(file(0, 0, 1, 0, 33, 0, BRCM_RAW8, 32)),
        "Raspberry Pi RAW dimensions 0x1 are invalid"
    );
    assert_eq!(
        fault(file(0, 4, 50001, 0, 33, 0, BRCM_RAW8, 32)),
        "Raspberry Pi RAW dimensions 4x50001 are invalid"
    );
    assert_eq!(
        fault(file(0, 4, 1, 0, 33, 4, BRCM_RAW8, 32)),
        "Raspberry Pi RAW Bayer order 4 is invalid"
    );
    assert_eq!(
        fault(file(0, 4, 1, 0, 33, 0, 7, 32)),
        "Raspberry Pi RAW Bayer packing 7 is unsupported"
    );
    assert_eq!(
        fault(file(0, 4, 2, 0, 33, 0, BRCM_RAW8, 32)),
        "Raspberry Pi RAW payload is truncated: needs 32832 bytes, file has 32800"
    );
}

#[test]
fn rows_are_padded_to_multiples_of_32_bytes() {
    // Ten bits: 30 pixels and 2 of padding need 40 bytes, which makes 64.
    let mut input = file(0, 30, 2, 2, 33, 1, BRCM_RAW10, 128);
    input[BRCM_DATA_OFFSET + 64] = 200;
    let decoder = RaspberryPiDecoder::new(&input).unwrap().unwrap();
    let image = decoder.image(false).unwrap();
    assert_eq!(image.data.len(), 60);
    assert_eq!(image.data[30], 800);
    assert_eq!(image.cfa.name, "GBRG");
}

#[test]
fn raw8_and_raw16_unpacking_takes_whole_bytes() {
    let mut input = vec![0; 32];
    input[..4].copy_from_slice(&[1, 2, 3, 4]);
    assert_eq!(
        decode_brcm_bayer(&input, header(BRCM_RAW8, 3), false).unwrap(),
        vec![1, 2, 3]
    );
    assert_eq!(
        decode_brcm_bayer(&input, header(BRCM_RAW16, 2), false).unwrap(),
        vec![0x0201, 0x0403]
    );
}

#[test]
fn pixels_behind_the_bytes_of_a_row_are_zero() {
    let input = vec![255; 32];
    let image = decode_brcm_bayer(&input, header(BRCM_RAW8, 40), false).unwrap();
    assert_eq!(image[31], 255);
    assert_eq!(image[32..], [0; 8]);
    let image = decode_brcm_bayer(&input, header(BRCM_RAW16, 17), false).unwrap();
    assert_eq!(image[15], 65535);
    assert_eq!(image[16], 0);
}

#[test]
fn a_row_that_ends_inside_a_group_is_refused() {
    let input = vec![0; 32];
    assert_eq!(
        decode_brcm_bayer(&input, header(BRCM_RAW10, 25), false).unwrap_err(),
        "Raspberry Pi RAW10 row ended inside a pixel group"
    );
    assert_eq!(
        decode_brcm_bayer(&input, header(BRCM_RAW12, 21), false).unwrap_err(),
        "Raspberry Pi RAW12 row ended inside a pixel group"
    );
    assert_eq!(
        decode_brcm_bayer(&input, header(BRCM_RAW14, 17), false).unwrap_err(),
        "Raspberry Pi RAW14 row ended inside a pixel group"
    );
    // One group less, and the row is whole.
    assert!(decode_brcm_bayer(&input, header(BRCM_RAW10, 24), false).is_ok());
    assert!(decode_brcm_bayer(&input, header(BRCM_RAW12, 20), false).is_ok());
    assert!(decode_brcm_bayer(&input, header(BRCM_RAW14, 16), false).is_ok());
}

#[test]
fn a_partial_last_group_fills_the_pixels_of_the_row() {
    let mut input = vec![0; 32];
    input[..7].copy_from_slice(&[1, 2, 3, 4, 0xff, 0xff, 0xff]);
    assert_eq!(
        decode_brcm_bayer(&input, header(BRCM_RAW14, 3), false).unwrap(),
        vec![127, 191, 255]
    );
    assert_eq!(
        decode_brcm_bayer(&input, header(BRCM_RAW10, 2), false).unwrap(),
        vec![7, 11]
    );
    assert_eq!(
        decode_brcm_bayer(&input, header(BRCM_RAW12, 1), false).unwrap(),
        vec![19]
    );
}

#[test]
fn a_dummy_read_has_one_sample() {
    assert_eq!(
        decode_brcm_bayer(&[], header(BRCM_RAW10, 4), true).unwrap(),
        vec![0]
    );
}

#[test]
fn packing_and_unpacking_are_inverse_for_every_ten_bit_value() {
    for value in 0..1024_u32 {
        let other = 1023 - value;
        let mut input = vec![0; 32];
        input[0] = (value >> 2) as u8;
        input[3] = (other >> 2) as u8;
        input[4] = ((value & 3) | ((other & 3) << 6)) as u8;
        let image = decode_brcm_bayer(&input, header(BRCM_RAW10, 4), false).unwrap();
        assert_eq!(image[0] as u32, value);
        assert_eq!(image[3] as u32, other);
    }
}

#[test]
fn the_size_of_an_image_names_the_camera() {
    let (model, clean, black, matrix) = raspberry_pi_camera_metadata(4056, 3040, BRCM_RAW10);
    assert_eq!((model, clean, black), ("RP_imx477", "HQ Camera (IMX477)", 64));
    assert_eq!(matrix[0][0], 5603.0_f32.to_bits());
    assert_eq!(matrix[0][1], (-1351.0_f32).to_bits());
    assert_eq!(matrix[2][2], 5821.0_f32.to_bits());
    let (_, _, black, _) = raspberry_pi_camera_metadata(4056, 3040, BRCM_RAW12);
    assert_eq!(black, 256);
    let (model, clean, black, matrix) = raspberry_pi_camera_metadata(2592, 1944, BRCM_RAW10);
    assert_eq!((model, clean, black), ("ov5647", "Camera Module v1 (OV5647)", 16));
    assert_eq!(matrix[1], [(-478.0_f32).to_bits(), 9066.0_f32.to_bits(), 1413.0_f32.to_bits()]);
    let (model, clean, black, matrix) = raspberry_pi_camera_metadata(3280, 2464, BRCM_RAW10);
    assert_eq!((model, clean, black), ("RP_imx219", "Camera Module v2 (IMX219)", 66));
    assert_eq!(matrix[1], [(-5320.0_f32).to_bits(), 14112.0_f32.to_bits(), 1699.0_f32.to_bits()]);
    assert_eq!(matrix[3], [0.0_f32.to_bits(); 3]);
}

#[test]
fn the_image_carries_what_is_known_of_the_camera() {
    let mut input = file(0, 4, 1, 0, 33, 3, BRCM_RAW8, 32);
    input[BRCM_DATA_OFFSET..BRCM_DATA_OFFSET + 4].copy_from_slice(&[1, 2, 3, 4]);
    let decoder = RaspberryPiDecoder::new(&input).unwrap().unwrap();
    let image = decoder.image(false).unwrap();
    assert_eq!(image.make, "RaspberryPi");
    assert_eq!(image.model, "RP_imx219");
    assert_eq!(image.clean_make, "Raspberry Pi");
    assert_eq!(image.clean_model, "Camera Module v2 (IMX219)");
    assert_eq!((image.width, image.height, image.cpp), (4, 1, 1));
    assert_eq!(image.data, vec![1, 2, 3, 4]);
    assert_eq!(image.whitelevels, [0xff; 4]);
    assert_eq!(image.blacklevels, [66; 4]);
    assert_eq!(image.cfa.name, "GRBG");
    assert_eq!(image.crops, [0; 4]);
    assert!(image.blackareas.is_empty());
    assert_eq!(image.orientation, Orientation::Normal);
    assert_eq!(decoder.image(true).unwrap().data, vec![0]);
    let camera = decoder.camera();
    assert_eq!((camera.raw_width, camera.raw_height), (4, 1));
}

#[test]
fn the_white_level_is_that_of_the_packing() {
    for (packing, white) in [
        (BRCM_RAW8, 0xff),
        (BRCM_RAW10, 0x3ff),
        (BRCM_RAW12, 0xfff),
        (BRCM_RAW14, 0x3fff),
        (BRCM_RAW16, 0xffff),
    ] {
        let input = file(0, 4, 1, 0, 33, 0, packing, 32);
        let decoder = RaspberryPiDecoder::new(&input).unwrap().unwrap();
        assert_eq!(decoder.camera().whitelevels, [white; 4]);
    }
}

#[test]
fn packing_and_unpacking_are_inverse_for_every_fourteen_bit_value() {
    for value in 0..16384_u32 {
        let other = 16383 - value;
        let mut input = vec![0; 32];
        input[1] = (value >> 6) as u8;
        input[2] = (other >> 6) as u8;
        input[4] = (value >> 4 & 3) as u8;
        input[5] = ((value & 15) << 4 | other >> 2 & 15) as u8;
        input[6] = ((other & 3) << 6) as u8;
        let image = decode_brcm_bayer(&input, header(BRCM_RAW14, 4), false).unwrap();
        assert_eq!(image[1] as u32, value);
        assert_eq!(image[2] as u32, other);
    }
}

#[test]
fn packing_and_unpacking_are_inverse_for_every_twelve_bit_value() {
    for value in 0..4096_u32 {
        let other = 4095 - value;
        let mut input = vec![0; 32];
        input[0] = (value >> 4) as u8;
        input[1] = (other >> 4) as u8;
        input[2] = (value & 15 | (other & 15) << 4) as u8;
        let image = decode_brcm_bayer(&input, header(BRCM_RAW12, 2), false).unwrap();
        assert_eq!((image[0] as u32, image[1] as u32), (value, other));
    }
}

#[test]
fn no_pixel_exceeds_the_white_level() {
    let input = vec![255; 32];
    for (packing, white) in [
        (BRCM_RAW8, 0xff),
        (BRCM_RAW10, 0x3ff),
        (BRCM_RAW12, 0xfff),
        (BRCM_RAW14, 0x3fff),
        (BRCM_RAW16, 0xffff),
    ] {
        let image = decode_brcm_bayer(&input, header(packing, 4), false).unwrap();
        assert_eq!(image, vec![white; 4]);
    }
}

#[test]
fn whole_groups_of_an_accepted_header_can_be_unpacked() {
    for packing in [BRCM_RAW8, BRCM_RAW10, BRCM_RAW12, BRCM_RAW14, BRCM_RAW16] {
        for groups in 1..40 {
            let width = 4 * groups;
            let input = file(0, width, 2, 0, 33, 0, packing, 4096);
            let decoder = RaspberryPiDecoder::new(&input).unwrap().unwrap();
            let image = decoder.image(false).unwrap();
            assert_eq!(image.data.len(), 2 * width as usize);
        }
    }
}

#[test]
fn an_accepted_header_can_have_rows_that_are_cut() {
    // 25 pixels of ten bits need 32 bytes, in which the seventh group is not whole.
    let input = file(0, 25, 1, 0, 33, 0, BRCM_RAW10, 32);
    let decoder = RaspberryPiDecoder::new(&input).unwrap().unwrap();
    assert_eq!(
        decoder.image(false).unwrap_err(),
        "Raspberry Pi RAW10 row ended inside a pixel group"
    );
}
