//! Raw images that Raspberry Pi cameras append to their JPEG files.
use vstd::prelude::*;
use crate::camera::{ok_image, Camera, Orientation, Raw, RawImage};
use crate::cfa::CFA;
use crate::single::{is_integer, single_bits};
use crate::text::{decimal, push_number, push_with, with_number};
use crate::unpack::{dummy_image, no_image, same_image};

verus! {

/// Where the header stands behind the marker.
pub const BRCM_HEADER_OFFSET: usize = 0xb0;

/// Where the samples start behind the marker.
pub const BRCM_DATA_OFFSET: usize = 0x8000;

/// The part of the header that is read.
pub const BRCM_HEADER_SIZE: usize = 70;

/// The image format of Bayer samples.
pub const BRCM_FORMAT_BAYER: u16 = 33;

pub const BRCM_RAW8: u8 = 2;

pub const BRCM_RAW10: u8 = 3;

pub const BRCM_RAW12: u8 = 4;

pub const BRCM_RAW14: u8 = 5;

pub const BRCM_RAW16: u8 = 6;

/// What the header says of the samples.
#[derive(Debug, Clone, Copy, PartialEq, Eq)]
pub struct RaspberryPiHeader {
    /// Where the samples start.
    pub data_offset: usize,
    pub width: usize,
    pub height: usize,
    /// The bytes from one row to the next.
    pub stride: usize,
    /// The order of the colors.
    pub bayer_order: u8,
    /// How samples are packed into bytes.
    pub bayer_format: u8,
}

/// The message for a row that ends before its last pixels, of samples of the given bits.
pub open spec fn cut_message(format: u8) -> Seq<char> {
    if format == BRCM_RAW10 {
        "Raspberry Pi RAW10 row ended inside a pixel group"@
    } else if format == BRCM_RAW12 {
        "Raspberry Pi RAW12 row ended inside a pixel group"@
    } else {
        "Raspberry Pi RAW14 row ended inside a pixel group"@
    }
}

/// The number of pixels that share bytes.
pub open spec fn group_pixels(format: u8) -> int {
    if format == BRCM_RAW10 || format == BRCM_RAW14 {
        4
    } else if format == BRCM_RAW12 {
        2
    } else {
        1
    }
}

/// The number of bytes that a group of pixels shares.
pub open spec fn group_bytes(format: u8) -> int {
    if format == BRCM_RAW10 {
        5
    } else if format == BRCM_RAW12 {
        3
    } else if format == BRCM_RAW14 {
        7
    } else if format == BRCM_RAW16 {
        2
    } else {
        1
    }
}

/// Pixel number `k` of the group that starts at `at`.
pub open spec fn group_pixel(format: u8, bytes: Seq<u8>, at: int, k: int) -> u16 {
    if format == BRCM_RAW8 {
        bytes[at] as u16
    } else if format == BRCM_RAW10 {
        // Eight high bits each, and a byte with the two low bits of all, those of the first pixel
        // in its lowest bits.
        let low = if k == 0 {
            bytes[at + 4] as int % 4
        } else if k == 1 {
            bytes[at + 4] as int / 4 % 4
        } else if k == 2 {
            bytes[at + 4] as int / 16 % 4
        } else {
            bytes[at + 4] as int / 64
        };
        (4 * bytes[at + k] + low) as u16
    } else if format == BRCM_RAW12 {
        // Eight high bits each, and a byte with the four low bits of both.
        let low = if k == 0 {
            bytes[at + 2] as int % 16
        } else {
            bytes[at + 2] as int / 16
        };
        (16 * bytes[at + k] + low) as u16
    } else if format == BRCM_RAW14 {
        // Eight high bits each, and three bytes with the six low bits of all, one after the other.
        let low = if k == 0 {
            bytes[at + 4] as int / 4
        } else if k == 1 {
            16 * (bytes[at + 4] as int % 4) + bytes[at + 5] as int / 16
        } else if k == 2 {
            4 * (bytes[at + 5] as int % 16) + bytes[at + 6] as int / 64
        } else {
            bytes[at + 6] as int % 64
        };
        (64 * bytes[at + k] + low) as u16
    } else {
        (bytes[at] + 256 * bytes[at + 1]) as u16
    }
}

/// The number of groups that a row of pixels needs.
pub open spec fn row_groups(format: u8, width: int) -> int {
    (width + group_pixels(format) - 1) / group_pixels(format)
}

/// The bytes of a row end inside a group that holds pixels, where pixels share bytes.
pub open spec fn row_is_cut(header: RaspberryPiHeader) -> bool {
    let bytes = group_bytes(header.bayer_format);
    &&& group_pixels(header.bayer_format) > 1
    &&& header.stride as int % bytes != 0
    &&& header.stride as int / bytes < row_groups(header.bayer_format, header.width as int)
}

/// The pixel in a row and a column; 0 behind the bytes of the row.
pub open spec fn bayer_pixel(buffer: Seq<u8>, header: RaspberryPiHeader, row: int, col: int) -> u16 {
    let format = header.bayer_format;
    let group = col / group_pixels(format);
    if group < header.stride as int / group_bytes(format) {
        group_pixel(
            format,
            buffer,
            header.data_offset + row * header.stride + group * group_bytes(format),
            col % group_pixels(format),
        )
    } else {
        0
    }
}

/// The pixels, or why there are none.
pub open spec fn bayer_image(buffer: Seq<u8>, header: RaspberryPiHeader, dummy: bool) -> Result<
    Seq<u16>,
    Seq<char>,
> {
    if dummy {
        Ok(dummy_image())
    } else if header.height > 0 && row_is_cut(header) {
        Err(cut_message(header.bayer_format))
    } else {
        Ok(
            Seq::new(
                (header.width * header.height) as nat,
                |i: int|
                    bayer_pixel(
                        buffer,
                        header,
                        i / header.width as int,
                        i % header.width as int,
                    ),
            ),
        )
    }
}

/// The buffer holds every row, in a packing that is known.
pub open spec fn bayer_readable(buffer: Seq<u8>, header: RaspberryPiHeader, dummy: bool) -> bool {
    !dummy ==> {
        &&& header.width * header.height <= usize::MAX
        &&& header.height > 0 ==> {
            &&& BRCM_RAW8 <= header.bayer_format <= BRCM_RAW16
            &&& header.data_offset + header.height * header.stride <= buffer.len()
        }
    }
}

#[verifier::spinoff_prover]
#[verifier::rlimit(30)]
fn read_pixel(buffer: &[u8], header: RaspberryPiHeader, start: usize, col: usize, Ghost(row): Ghost<
    int,
>) -> (pixel: u16)
    requires
        start == header.data_offset + row * header.stride,
        start + header.stride <= buffer@.len(),
        col < header.width,
        BRCM_RAW8 <= header.bayer_format <= BRCM_RAW16,
        !row_is_cut(header),
    ensures
        pixel == bayer_pixel(buffer@, header, row, col as int),
{
    let stride: usize = header.stride;
    let len: usize = buffer.len();
    assert(col as int / 1 == col && col as int % 1 == 0 && stride as int / 1 == stride && col * 1
        == col) by (nonlinear_arith);
    match header.bayer_format {
        BRCM_RAW8 => {
            if col < stride {
                buffer[start + col] as u16
            } else {
                0
            }
        },
        BRCM_RAW10 => {
            let group: usize = col / 4;
            if group < stride / 5 {
                let at: usize = start + 5 * group;
                let low: u16 = buffer[at + 4] as u16;
                match col % 4 {
                    0 => 4 * (buffer[at] as u16) + low % 4,
                    1 => 4 * (buffer[at + 1] as u16) + low / 4 % 4,
                    2 => 4 * (buffer[at + 2] as u16) + low / 16 % 4,
                    _ => 4 * (buffer[at + 3] as u16) + low / 64,
                }
            } else {
                0
            }
        },
        BRCM_RAW12 => {
            let group: usize = col / 2;
            if group < stride / 3 {
                let at: usize = start + 3 * group;
                let low: u16 = buffer[at + 2] as u16;
                match col % 2 {
                    0 => 16 * (buffer[at] as u16) + low % 16,
                    _ => 16 * (buffer[at + 1] as u16) + low / 16,
                }
            } else {
                0
            }
        },
        BRCM_RAW14 => {
            let group: usize = col / 4;
            if group < stride / 7 {
                let at: usize = start + 7 * group;
                let low4: u16 = buffer[at + 4] as u16;
                let low5: u16 = buffer[at + 5] as u16;
                let low6: u16 = buffer[at + 6] as u16;
                match col % 4 {
                    0 => 64 * (buffer[at] as u16) + low4 / 4,
                    1 => 64 * (buffer[at + 1] as u16) + 16 * (low4 % 4) + low5 / 16,
                    2 => 64 * (buffer[at + 2] as u16) + 4 * (low5 % 16) + low6 / 64,
                    _ => 64 * (buffer[at + 3] as u16) + low6 % 64,
                }
            } else {
                0
            }
        },
        _ => {
            if col < stride / 2 {
                let at: usize = start + 2 * col;
                buffer[at] as u16 + 256 * (buffer[at + 1] as u16)
            } else {
                0
            }
        },
    }
}

fn is_cut(header: RaspberryPiHeader) -> (cut: bool)
    ensures
        cut == row_is_cut(header),
{
    let (pixels, bytes): (usize, usize) = match header.bayer_format {
        BRCM_RAW10 => (4, 5),
        BRCM_RAW12 => (2, 3),
        BRCM_RAW14 => (4, 7),
        _ => return false,
    };
    let groups: usize = header.width / pixels + if header.width % pixels != 0 {
        1
    } else {
        0
    };
    proof {
        let w = header.width as int;
        let p = pixels as int;
        assert(p == group_pixels(header.bayer_format));
        assert(bytes == group_bytes(header.bayer_format));
        vstd::arithmetic::div_mod::lemma_fundamental_div_mod(w, p);
        vstd::arithmetic::mul::lemma_mul_is_commutative(p, w / p);
        if w % p == 0 {
            vstd::arithmetic::div_mod::lemma_fundamental_div_mod_converse(
                w + p - 1,
                p,
                w / p,
                p - 1,
            );
        } else {
            assert((w / p + 1) * p == (w / p) * p + p) by (nonlinear_arith);
            vstd::arithmetic::div_mod::lemma_fundamental_div_mod_converse(
                w + p - 1,
                p,
                w / p + 1,
                w % p - 1,
            );
        }
        assert(groups == row_groups(header.bayer_format, w));
    }
    header.stride % bytes != 0 && header.stride / bytes < groups
}

/// Unpacks the pixels of every row. The samples of 10, 12 and 14 bits come in groups that share
/// the bytes of their low bits.
pub fn decode_brcm_bayer(buffer: &[u8], header: RaspberryPiHeader, dummy: bool) -> (res: Result<
    Vec<u16>,
    String,
>)
    requires
        bayer_readable(buffer@, header, dummy),
    ensures
        same_image(res, bayer_image(buffer@, header, dummy)),
{
    if dummy {
        return Ok(no_image());
    }
    let width: usize = header.width;
    let height: usize = header.height;
    let len: usize = buffer.len();
    if height > 0 && is_cut(header) {
        let text: &str = match header.bayer_format {
            BRCM_RAW10 => "Raspberry Pi RAW10 row ended inside a pixel group",
            BRCM_RAW12 => "Raspberry Pi RAW12 row ended inside a pixel group",
            _ => "Raspberry Pi RAW14 row ended inside a pixel group",
        };
        return Err(text.to_string());
    }
    let ghost all = bayer_image(buffer@, header, false)->Ok_0;
    let mut image: Vec<u16> = Vec::new();
    let mut row: usize = 0;
    proof {
        assert(0 * width == 0);
        assert(0 <= width * height) by (nonlinear_arith);
    }
    while row < height
        invariant
            width == header.width,
            height == header.height,
            len == buffer@.len(),
            bayer_readable(buffer@, header, false),
            height > 0 ==> !row_is_cut(header),
            bayer_image(buffer@, header, false) == Ok::<Seq<u16>, Seq<char>>(all),
            all.len() == width * height,
            row <= height,
            row * width <= width * height,
            image@ =~= all.take(row * width),
        decreases height - row,
    {
        proof {
            assert((row + 1) * width == row * width + width) by (nonlinear_arith);
            assert((row + 1) * width <= width * height) by (nonlinear_arith)
                requires
                    row + 1 <= height,
            ;
            assert(0 <= row * width) by (nonlinear_arith);
            assert(0 <= row * header.stride && row * header.stride + header.stride <= height
                * header.stride) by (nonlinear_arith)
                requires
                    row + 1 <= height,
            ;
        }
        let start: usize = header.data_offset + row * header.stride;
        let mut col: usize = 0;
        while col < width
            invariant
                width == header.width,
                height == header.height,
                bayer_image(buffer@, header, false) == Ok::<Seq<u16>, Seq<char>>(all),
                all.len() == width * height,
                start == header.data_offset + row * header.stride,
                start + header.stride <= buffer@.len(),
                BRCM_RAW8 <= header.bayer_format <= BRCM_RAW16,
                !row_is_cut(header),
                col <= width,
                0 <= row * width,
                row * width + width <= width * height,
                image@ =~= all.take(row * width + col),
            decreases width - col,
        {
            let pixel: u16 = read_pixel(buffer, header, start, col, Ghost(row as int));
            proof {
                let i = row * width + col;
                vstd::arithmetic::div_mod::lemma_fundamental_div_mod_converse(
                    i,
                    width as int,
                    row as int,
                    col as int,
                );
                assert(all[i] == pixel);
            }
            image.push(pixel);
            col = col + 1;
        }
        row = row + 1;
    }
    proof {
        assert(row * width == width * height) by (nonlinear_arith)
            requires
                row == height,
        ;
        assert(image@ =~= all);
    }
    Ok(image)
}

/// The marker `BRCM` stands at `at`.
pub open spec fn is_brcm(buffer: Seq<u8>, at: int) -> bool {
    &&& 0 <= at
    &&& at + 4 <= buffer.len()
    &&& buffer[at] == 0x42
    &&& buffer[at + 1] == 0x52
    &&& buffer[at + 2] == 0x43
    &&& buffer[at + 3] == 0x4d
}

/// The last marker that stands before `end`.
pub open spec fn last_brcm(buffer: Seq<u8>, end: nat) -> Option<int>
    decreases end,
{
    if end == 0 {
        None
    } else if is_brcm(buffer, end - 1) {
        Some(end - 1)
    } else {
        last_brcm(buffer, (end - 1) as nat)
    }
}

/// The little-endian number of two bytes.
pub open spec fn u16le(buffer: Seq<u8>, at: int) -> int {
    buffer[at] + 256 * buffer[at + 1]
}

/// The bytes that the pixels of a row need; `None` if the packing is not known.
pub open spec fn packed_bytes(format: u8, pixels: int) -> Option<int> {
    if format == BRCM_RAW8 {
        Some(pixels)
    } else if format == BRCM_RAW10 {
        Some((5 * pixels + 3) / 4)
    } else if format == BRCM_RAW12 {
        Some((3 * pixels + 1) / 2)
    } else if format == BRCM_RAW14 {
        Some((7 * pixels + 3) / 4)
    } else if format == BRCM_RAW16 {
        Some(2 * pixels)
    } else {
        None
    }
}

/// The bytes from one row to the next: a multiple of 32.
pub open spec fn row_stride(bytes: int) -> int {
    (bytes + 31) / 32 * 32
}

/// The header behind a marker, or what is wrong with it.
pub open spec fn header_at(buffer: Seq<u8>, marker: int) -> Result<RaspberryPiHeader, Seq<char>> {
    let at = marker + BRCM_HEADER_OFFSET;
    let width = u16le(buffer, at + 32);
    let height = u16le(buffer, at + 34);
    let padding_right = u16le(buffer, at + 36);
    let format = u16le(buffer, at + 66);
    let bayer_order = buffer[at + 68];
    let bayer_format = buffer[at + 69];
    if at > usize::MAX {
        Err("Raspberry Pi RAW header offset overflowed"@)
    } else if at + BRCM_HEADER_SIZE > usize::MAX {
        Err("Raspberry Pi RAW header size overflowed"@)
    } else if at + BRCM_HEADER_SIZE > buffer.len() {
        Err("Raspberry Pi RAW header is truncated"@)
    } else if format != BRCM_FORMAT_BAYER {
        Err(
            "Raspberry Pi BRCM payload has image format "@ + decimal(format as nat)
                + ", expected Bayer format "@ + decimal(BRCM_FORMAT_BAYER as nat),
        )
    } else if width == 0 || height == 0 || width > 50000 || height > 50000 {
        Err(
            "Raspberry Pi RAW dimensions "@ + decimal(width as nat) + "x"@ + decimal(height as nat)
                + " are invalid"@,
        )
    } else if bayer_order > 3 {
        Err(
            "Raspberry Pi RAW Bayer order "@ + decimal(bayer_order as nat) + " is invalid"@,
        )
    } else {
        match packed_bytes(bayer_format, width + padding_right) {
            None => Err(
                "Raspberry Pi RAW Bayer packing "@ + decimal(bayer_format as nat)
                    + " is unsupported"@,
            ),
            Some(bytes) => {
                let stride = row_stride(bytes);
                let data_offset = marker + BRCM_DATA_OFFSET;
                let data_end = data_offset + height * stride;
                if data_offset > usize::MAX {
                    Err("Raspberry Pi RAW data offset overflowed"@)
                } else if data_end > usize::MAX {
                    Err("Raspberry Pi RAW data size overflowed"@)
                } else if data_end > buffer.len() {
                    Err(
                        "Raspberry Pi RAW payload is truncated: needs "@ + decimal(data_end as nat)
                            + " bytes, file has "@ + decimal(buffer.len()),
                    )
                } else {
                    Ok(
                        RaspberryPiHeader {
                            data_offset: data_offset as usize,
                            width: width as usize,
                            height: height as usize,
                            stride: stride as usize,
                            bayer_order,
                            bayer_format,
                        },
                    )
                }
            },
        }
    }
}

/// The header of a file, if it has one, or what is wrong with it.
pub open spec fn header_of(buffer: Seq<u8>) -> Result<Option<RaspberryPiHeader>, Seq<char>> {
    match last_brcm(buffer, buffer.len()) {
        None => Ok(None),
        Some(marker) => match header_at(buffer, marker) {
            Ok(header) => Ok(Some(header)),
            Err(message) => Err(message),
        },
    }
}

/// A file with a raw image.
#[derive(Debug)]
pub struct RaspberryPiDecoder<'a> {
    buffer: &'a [u8],
    header: RaspberryPiHeader,
}

/// The contents of a [`RaspberryPiDecoder`].
pub struct PiFile {
    pub buffer: Seq<u8>,
    pub header: RaspberryPiHeader,
}

impl<'a> View for RaspberryPiDecoder<'a> {
    type V = PiFile;

    closed spec fn view(&self) -> PiFile {
        PiFile { buffer: self.buffer@, header: self.header }
    }
}

impl PiFile {
    /// The header is that of the file.
    pub open spec fn wf(self) -> bool {
        header_of(self.buffer) == Ok::<Option<RaspberryPiHeader>, Seq<char>>(Some(self.header))
    }
}

fn le_u16(buffer: &[u8], offset: usize) -> (n: u16)
    requires
        offset + 2 <= buffer@.len(),
    ensures
        n == u16le(buffer@, offset as int),
{
    buffer[offset] as u16 + 256 * (buffer[offset + 1] as u16)
}

fn find_brcm(buffer: &[u8]) -> (found: Option<usize>)
    ensures
        match (found, last_brcm(buffer@, buffer@.len())) {
            (Some(at), Some(expected)) => at == expected && is_brcm(buffer@, at as int),
            (None, None) => true,
            _ => false,
        },
{
    let len: usize = buffer.len();
    let mut end: usize = len;
    while end > 0
        invariant
            end <= len,
            len == buffer@.len(),
            last_brcm(buffer@, buffer@.len()) == last_brcm(buffer@, end as nat),
        decreases end,
    {
        let at: usize = end - 1;
        if len - at >= 4 && buffer[at] == 0x42 && buffer[at + 1] == 0x52 && buffer[at + 2] == 0x43
            && buffer[at + 3] == 0x4d {
            return Some(at);
        }
        end = at;
    }
    None
}

/// The sensor's name, the camera's name and the black level that belong to an image of a size.
pub open spec fn sensor_of(width: usize, height: usize, bayer_format: u8) -> (
    Seq<char>,
    Seq<char>,
    u16,
) {
    if width == 4056 && height == 3040 {
        (
            "RP_imx477"@,
            "HQ Camera (IMX477)"@,
            if bayer_format == BRCM_RAW10 {
                64
            } else {
                256
            },
        )
    } else if width == 2592 && height == 1944 {
        ("ov5647"@, "Camera Module v1 (OV5647)"@, 16)
    } else {
        ("RP_imx219"@, "Camera Module v2 (IMX219)"@, 66)
    }
}

/// The color matrix that belongs to an image of a size, row by row.
pub open spec fn sensor_matrix(width: usize, height: usize) -> Seq<int> {
    if width == 4056 && height == 3040 {
        seq![5603, -1351, -600, -2872, 11180, 2132, 600, 453, 5821, 0, 0, 0]
    } else if width == 2592 && height == 1944 {
        seq![12782, -4059, -379, -478, 9066, 1413, 1340, 1513, 5176, 0, 0, 0]
    } else {
        seq![5302, 1083, -728, -5320, 14112, 1699, -863, 2371, 5136, 0, 0, 0]
    }
}

/// The bits of a matrix stand for integers, row by row.
pub open spec fn is_matrix(bits: [[u32; 3]; 4], integers: Seq<int>) -> bool {
    &&& is_integer(bits[0][0], integers[0])
    &&& is_integer(bits[0][1], integers[1])
    &&& is_integer(bits[0][2], integers[2])
    &&& is_integer(bits[1][0], integers[3])
    &&& is_integer(bits[1][1], integers[4])
    &&& is_integer(bits[1][2], integers[5])
    &&& is_integer(bits[2][0], integers[6])
    &&& is_integer(bits[2][1], integers[7])
    &&& is_integer(bits[2][2], integers[8])
    &&& is_integer(bits[3][0], integers[9])
    &&& is_integer(bits[3][1], integers[10])
    &&& is_integer(bits[3][2], integers[11])
}

fn matrix_row(a: i32, b: i32, c: i32) -> (row: [u32; 3])
    requires
        -0x10000 < a < 0x10000,
        -0x10000 < b < 0x10000,
        -0x10000 < c < 0x10000,
    ensures
        is_integer(row[0], a as int),
        is_integer(row[1], b as int),
        is_integer(row[2], c as int),
{
    [single_bits(a), single_bits(b), single_bits(c)]
}

/// What is known of the sensor that takes images of a size: its name, the camera's name, its black
/// level, and the bits of its color matrix.
pub fn raspberry_pi_camera_metadata(width: usize, height: usize, bayer_format: u8) -> (metadata: (
    &'static str,
    &'static str,
    u16,
    [[u32; 3]; 4],
))
    ensures
        sensor_of(width, height, bayer_format) == (metadata.0@, metadata.1@, metadata.2),
        is_matrix(metadata.3, sensor_matrix(width, height)),
{
    if width == 4056 && height == 3040 {
        let black: u16 = if bayer_format == BRCM_RAW10 {
            64
        } else {
            256
        };
        (
            "RP_imx477",
            "HQ Camera (IMX477)",
            black,
            [
                matrix_row(5603, -1351, -600),
                matrix_row(-2872, 11180, 2132),
                matrix_row(600, 453, 5821),
                matrix_row(0, 0, 0),
            ],
        )
    } else if width == 2592 && height == 1944 {
        (
            "ov5647",
            "Camera Module v1 (OV5647)",
            16,
            [
                matrix_row(12782, -4059, -379),
                matrix_row(-478, 9066, 1413),
                matrix_row(1340, 1513, 5176),
                matrix_row(0, 0, 0),
            ],
        )
    } else {
        (
            "RP_imx219",
            "Camera Module v2 (IMX219)",
            66,
            [
                matrix_row(5302, 1083, -728),
                matrix_row(-5320, 14112, 1699),
                matrix_row(-863, 2371, 5136),
                matrix_row(0, 0, 0),
            ],
        )
    }
}

/// The largest sample of a packing.
pub open spec fn packing_white(format: u8) -> u16 {
    if format == BRCM_RAW8 {
        0xff
    } else if format == BRCM_RAW10 {
        0x3ff
    } else if format == BRCM_RAW12 {
        0xfff
    } else if format == BRCM_RAW14 {
        0x3fff
    } else {
        0xffff
    }
}

/// The color filters of an order.
pub open spec fn order_pattern(order: u8) -> Seq<char> {
    if order == 0 {
        "RGGB"@
    } else if order == 1 {
        "GBRG"@
    } else if order == 2 {
        "BGGR"@
    } else {
        "GRBG"@
    }
}

/// The camera is the one that took an image with this header.
pub open spec fn is_pi_camera(camera: Camera, header: RaspberryPiHeader) -> bool {
    let (model, clean_model, black) = sensor_of(header.width, header.height, header.bayer_format);
    let white = packing_white(header.bayer_format);
    let level = if black < white {
        black
    } else {
        white
    };
    &&& camera.make@ == "RaspberryPi"@
    &&& camera.model@ == model
    &&& camera.mode@.len() == 0
    &&& camera.clean_make@ == "Raspberry Pi"@
    &&& camera.clean_model@ == clean_model
    &&& camera.raw_width == header.width
    &&& camera.raw_height == header.height
    &&& camera.whitelevels == [white, white, white, white]
    &&& camera.blacklevels == [level, level, level, level]
    &&& is_matrix(camera.xyz_to_cam, sensor_matrix(header.width, header.height))
    &&& camera.cfa@.name == order_pattern(header.bayer_order)
    &&& camera.cfa.width == 2
    &&& camera.cfa.height == 2
    &&& camera.crops == [0usize, 0, 0, 0]
    &&& camera.orientation == Orientation::Normal
}

/// The image is one with this header and these samples.
pub open spec fn is_pi_image(image: Raw, header: RaspberryPiHeader, data: Seq<u16>) -> bool {
    let (model, clean_model, black) = sensor_of(header.width, header.height, header.bayer_format);
    let white = packing_white(header.bayer_format);
    let level = if black < white {
        black
    } else {
        white
    };
    &&& image.make == "RaspberryPi"@
    &&& image.model == model
    &&& image.clean_make == "Raspberry Pi"@
    &&& image.clean_model == clean_model
    &&& image.width == header.width
    &&& image.height == header.height
    &&& image.cpp == 1
    &&& image.data == data
    &&& image.blacklevels == [level, level, level, level]
    &&& image.whitelevels == [white, white, white, white]
    &&& is_matrix(image.xyz_to_cam, sensor_matrix(header.width, header.height))
    &&& image.cfa.name == order_pattern(header.bayer_order)
    &&& image.cfa.width == 2
    &&& image.cfa.height == 2
    &&& image.crops == [0usize, 0, 0, 0]
    &&& image.blackareas.len() == 0
    &&& image.orientation == Orientation::Normal
}

/// The marker that counts is the last one.
pub proof fn last_brcm_is_the_last(buffer: Seq<u8>, end: nat)
    ensures
        match last_brcm(buffer, end) {
            Some(at) => 0 <= at < end && is_brcm(buffer, at) && forall|later: int|
                at < later < end ==> !#[trigger] is_brcm(buffer, later),
            None => forall|at: int| 0 <= at < end ==> !#[trigger] is_brcm(buffer, at),
        },
    decreases end,
{
    if end > 0 {
        last_brcm_is_the_last(buffer, (end - 1) as nat);
    }
}

/// Headers that are accepted state a known order and a known packing, and the file holds the rows.
pub proof fn accepted_headers_can_be_read(buffer: Seq<u8>)
    ensures
        header_of(buffer) matches Ok(Some(header)) ==> {
            &&& header.bayer_order <= 3
            &&& BRCM_RAW8 <= header.bayer_format <= BRCM_RAW16
            &&& 1 <= header.width <= 50000
            &&& 1 <= header.height <= 50000
            &&& header.stride % 32 == 0
            &&& header.data_offset + header.height * header.stride <= buffer.len()
        },
{
    last_brcm_is_the_last(buffer, buffer.len());
    if let Some(marker) = last_brcm(buffer, buffer.len()) {
        let at = marker + BRCM_HEADER_OFFSET;
        let width = u16le(buffer, at + 32);
        let padding_right = u16le(buffer, at + 36);
        if let Some(bytes) = packed_bytes(buffer[at + 69], width + padding_right) {
            assert(0 <= row_stride(bytes) <= usize::MAX);
        }
    }
}

impl<'a> RaspberryPiDecoder<'a> {
    /// Looks for a raw image in a file: behind the last marker.
    pub fn new(buffer: &'a [u8]) -> (res: Result<Option<RaspberryPiDecoder<'a>>, String>)
        ensures
            match (res, header_of(buffer@)) {
                (Ok(Some(decoder)), Ok(Some(header))) => decoder@ == (PiFile {
                    buffer: buffer@,
                    header,
                }) && decoder@.wf(),
                (Ok(None), Ok(None)) => true,
                (Err(text), Err(message)) => text@ == message,
                _ => false,
            },
    {
        let len: usize = buffer.len();
        let marker: usize = match find_brcm(buffer) {
            Some(marker) => marker,
            None => return Ok(None),
        };
        let header_offset: usize = match marker.checked_add(BRCM_HEADER_OFFSET) {
            Some(offset) => offset,
            None => return Err("Raspberry Pi RAW header offset overflowed".to_string()),
        };
        let header_end: usize = match header_offset.checked_add(BRCM_HEADER_SIZE) {
            Some(end) => end,
            None => return Err("Raspberry Pi RAW header size overflowed".to_string()),
        };
        if header_end > len {
            return Err("Raspberry Pi RAW header is truncated".to_string());
        }
        let width: usize = le_u16(buffer, header_offset + 32) as usize;
        let height: usize = le_u16(buffer, header_offset + 34) as usize;
        let padding_right: usize = le_u16(buffer, header_offset + 36) as usize;
        let format: u16 = le_u16(buffer, header_offset + 66);
        let bayer_order: u8 = buffer[header_offset + 68];
        let bayer_format: u8 = buffer[header_offset + 69];
        if format != BRCM_FORMAT_BAYER {
            let mut text: String = with_number(
                "Raspberry Pi BRCM payload has image format ",
                format as usize,
                ", expected Bayer format ",
            );
            push_number(&mut text, BRCM_FORMAT_BAYER as usize);
            return Err(text);
        }
        if width == 0 || height == 0 || width > 50000 || height > 50000 {
            let mut text: String = with_number("Raspberry Pi RAW dimensions ", width, "x");
            push_with(&mut text, height, " are invalid");
            return Err(text);
        }
        if bayer_order > 3 {
            return Err(
                with_number("Raspberry Pi RAW Bayer order ", bayer_order as usize, " is invalid"),
            );
        }
        let padded_width: usize = width + padding_right;
        let packed: usize = match bayer_format {
            BRCM_RAW8 => padded_width,
            BRCM_RAW10 => (padded_width * 5 + 3) / 4,
            BRCM_RAW12 => (padded_width * 3 + 1) / 2,
            BRCM_RAW14 => (padded_width * 7 + 3) / 4,
            BRCM_RAW16 => padded_width * 2,
            _ => {
                return Err(
                    with_number(
                        "Raspberry Pi RAW Bayer packing ",
                        bayer_format as usize,
                        " is unsupported",
                    ),
                );
            },
        };
        let stride: usize = (packed + 31) / 32 * 32;
        let data_offset: usize = match marker.checked_add(BRCM_DATA_OFFSET) {
            Some(offset) => offset,
            None => return Err("Raspberry Pi RAW data offset overflowed".to_string()),
        };
        proof {
            assert(0 <= height * stride) by (nonlinear_arith);
        }
        let data_bytes: usize = match height.checked_mul(stride) {
            Some(bytes) => bytes,
            None => return Err("Raspberry Pi RAW data size overflowed".to_string()),
        };
        let data_end: usize = match data_offset.checked_add(data_bytes) {
            Some(end) => end,
            None => return Err("Raspberry Pi RAW data size overflowed".to_string()),
        };
        if data_end > len {
            let mut text: String = with_number(
                "Raspberry Pi RAW payload is truncated: needs ",
                data_end,
                " bytes, file has ",
            );
            push_number(&mut text, len);
            return Err(text);
        }
        Ok(
            Some(
                RaspberryPiDecoder {
                    buffer,
                    header: RaspberryPiHeader {
                        data_offset,
                        width,
                        height,
                        stride,
                        bayer_order,
                        bayer_format,
                    },
                },
            ),
        )
    }

    /// What is known of the camera that took the image.
    pub fn camera(&self) -> (camera: Camera)
        requires
            self@.wf(),
        ensures
            is_pi_camera(camera, self@.header),
    {
        proof {
            accepted_headers_can_be_read(self@.buffer);
            reveal_strlit("RGGB");
            reveal_strlit("GBRG");
            reveal_strlit("BGGR");
            reveal_strlit("GRBG");
        }
        let (model, clean_model, black, matrix): (&'static str, &'static str, u16, [[u32; 3]; 4]) =
            raspberry_pi_camera_metadata(
            self.header.width,
            self.header.height,
            self.header.bayer_format,
        );
        let white: u16 = match self.header.bayer_format {
            BRCM_RAW8 => 0xff,
            BRCM_RAW10 => 0x3ff,
            BRCM_RAW12 => 0xfff,
            BRCM_RAW14 => 0x3fff,
            _ => 0xffff,
        };
        let pattern: &str = match self.header.bayer_order {
            0 => "RGGB",
            1 => "GBRG",
            2 => "BGGR",
            _ => "GRBG",
        };
        let level: u16 = if black < white {
            black
        } else {
            white
        };
        let mut camera: Camera = Camera::new();
        camera.make = "RaspberryPi".to_string();
        camera.model = model.to_string();
        camera.clean_make = "Raspberry Pi".to_string();
        camera.clean_model = clean_model.to_string();
        camera.raw_width = self.header.width;
        camera.raw_height = self.header.height;
        camera.whitelevels = [white, white, white, white];
        camera.blacklevels = [level, level, level, level];
        camera.xyz_to_cam = matrix;
        camera.cfa = CFA::new(pattern);
        camera.orientation = Orientation::Normal;
        camera
    }

    /// The raw image, but for its white balance, which is not known. A dummy read leaves its
    /// samples out.
    pub fn image(&self, dummy: bool) -> (res: Result<RawImage, String>)
        requires
            self@.wf(),
        ensures
            match (res, bayer_image(self@.buffer, self@.header, dummy)) {
                (Ok(image), Ok(data)) => is_pi_image(image@, self@.header, data),
                (Err(text), Err(message)) => text@ == message,
                _ => false,
            },
    {
        proof {
            accepted_headers_can_be_read(self@.buffer);
            let header = self@.header;
            assert(header.width * header.height <= 50000 * 50000) by (nonlinear_arith)
                requires
                    header.width <= 50000,
                    header.height <= 50000,
            ;
        }
        let data: Vec<u16> = match decode_brcm_bayer(self.buffer, self.header, dummy) {
            Ok(data) => data,
            Err(text) => return Err(text),
        };
        let camera: Camera = self.camera();
        Ok(ok_image(camera, self.header.width, self.header.height, data))
    }
}

/// The bytes of a group of pixels.
pub open spec fn packed_group(format: u8, v: Seq<u16>) -> Seq<u8> {
    if format == BRCM_RAW8 {
        seq![v[0] as u8]
    } else if format == BRCM_RAW10 {
        seq![
            (v[0] / 4) as u8,
            (v[1] / 4) as u8,
            (v[2] / 4) as u8,
            (v[3] / 4) as u8,
            (v[0] % 4 + 4 * (v[1] % 4) + 16 * (v[2] % 4) + 64 * (v[3] % 4)) as u8,
        ]
    } else if format == BRCM_RAW12 {
        seq![(v[0] / 16) as u8, (v[1] / 16) as u8, (v[0] % 16 + 16 * (v[1] % 16)) as u8]
    } else if format == BRCM_RAW14 {
        seq![
            (v[0] / 64) as u8,
            (v[1] / 64) as u8,
            (v[2] / 64) as u8,
            (v[3] / 64) as u8,
            (4 * (v[0] % 64) + v[1] / 16 % 4) as u8,
            (16 * (v[1] % 16) + v[2] / 4 % 16) as u8,
            (64 * (v[2] % 4) + v[3] % 64) as u8,
        ]
    } else {
        seq![(v[0] % 256) as u8, (v[0] / 256) as u8]
    }
}

/// Four digits to the base four, and the number they make up.
proof fn lemma_digits(a: int, b: int, c: int, d: int)
    requires
        0 <= a < 4,
        0 <= b < 4,
        0 <= c < 4,
        0 <= d < 4,
    ensures
        ({
            let n = a + 4 * b + 16 * c + 64 * d;
            0 <= n < 256 && n % 4 == a && n / 4 % 4 == b && n / 16 % 4 == c && n / 64 == d
        }),
{
}

/// A byte, and the number that its digits to the base four make up.
#[verifier::spinoff_prover]
proof fn lemma_byte_digits(n: int)
    requires
        0 <= n < 256,
    ensures
        n % 4 + 4 * (n / 4 % 4) + 16 * (n / 16 % 4) + 64 * (n / 64) == n,
{
    let q = n / 4;
    let r = q / 4;
    assert(n == 4 * q + n % 4);
    assert(q == 4 * r + q % 4);
    assert(r == n / 16);
    assert(r == 4 * (r / 4) + r % 4);
    assert(r / 4 == n / 64);
    assert(r / 4 < 4);
}

proof fn lemma_unpack10(v: Seq<u16>, k: int)
    requires
        v.len() == 4,
        v[0] <= 1023,
        v[1] <= 1023,
        v[2] <= 1023,
        v[3] <= 1023,
        0 <= k < 4,
    ensures
        group_pixel(BRCM_RAW10, packed_group(BRCM_RAW10, v), 0, k) == v[k],
{
    let bytes = packed_group(BRCM_RAW10, v);
    lemma_digits(
        v[0] as int % 4,
        v[1] as int % 4,
        v[2] as int % 4,
        v[3] as int % 4,
    );
    assert(bytes[4] == v[0] % 4 + 4 * (v[1] % 4) + 16 * (v[2] % 4) + 64 * (v[3] % 4));
    if k == 0 {
        assert(bytes[0] == v[0] / 4);
    } else if k == 1 {
        assert(bytes[1] == v[1] / 4);
    } else if k == 2 {
        assert(bytes[2] == v[2] / 4);
    } else {
        assert(bytes[3] == v[3] / 4);
    }
}

proof fn lemma_unpack14(v: Seq<u16>, k: int)
    requires
        v.len() == 4,
        v[0] <= 0x3fff,
        v[1] <= 0x3fff,
        v[2] <= 0x3fff,
        v[3] <= 0x3fff,
        0 <= k < 4,
    ensures
        group_pixel(BRCM_RAW14, packed_group(BRCM_RAW14, v), 0, k) == v[k],
{
    let bytes = packed_group(BRCM_RAW14, v);
    if k == 0 {
        assert(bytes[0] == v[0] / 64);
        assert(bytes[4] == 4 * (v[0] % 64) + v[1] / 16 % 4);
    } else if k == 1 {
        assert(bytes[1] == v[1] / 64);
        assert(bytes[4] == 4 * (v[0] % 64) + v[1] / 16 % 4);
        assert(bytes[4] % 4 == v[1] / 16 % 4);
        assert(bytes[5] == 16 * (v[1] % 16) + v[2] / 4 % 16);
        assert(bytes[5] / 16 == v[1] % 16);
    } else if k == 2 {
        assert(bytes[2] == v[2] / 64);
        assert(bytes[5] == 16 * (v[1] % 16) + v[2] / 4 % 16);
        assert(bytes[5] % 16 == v[2] / 4 % 16);
        assert(bytes[6] == 64 * (v[2] % 4) + v[3] % 64);
        assert(bytes[6] / 64 == v[2] % 4);
    } else {
        assert(bytes[3] == v[3] / 64);
        assert(bytes[6] == 64 * (v[2] % 4) + v[3] % 64);
        assert(bytes[6] % 64 == v[3] % 64);
    }
}

proof fn lemma_unpack12(v: Seq<u16>, k: int)
    requires
        v.len() == 2,
        v[0] <= 0xfff,
        v[1] <= 0xfff,
        0 <= k < 2,
    ensures
        group_pixel(BRCM_RAW12, packed_group(BRCM_RAW12, v), 0, k) == v[k],
{
    let bytes = packed_group(BRCM_RAW12, v);
    assert(bytes[2] == v[0] % 16 + 16 * (v[1] % 16));
    assert(bytes[2] % 16 == v[0] % 16 && bytes[2] / 16 == v[1] % 16);
    if k == 0 {
        assert(bytes[0] == v[0] / 16);
    } else {
        assert(bytes[1] == v[1] / 16);
    }
}

/// Unpacking a packed group gives back its pixels: no bit of them is lost.
pub proof fn unpacking_gives_back_the_pixels(format: u8, pixels: Seq<u16>, k: int)
    requires
        BRCM_RAW8 <= format <= BRCM_RAW16,
        pixels.len() == group_pixels(format),
        forall|i: int| 0 <= i < pixels.len() ==> #[trigger] pixels[i] <= packing_white(format),
        0 <= k < pixels.len(),
    ensures
        packed_group(format, pixels).len() == group_bytes(format),
        group_pixel(format, packed_group(format, pixels), 0, k) == pixels[k],
{
    if format == BRCM_RAW10 {
        lemma_unpack10(pixels, k);
    } else if format == BRCM_RAW12 {
        lemma_unpack12(pixels, k);
    } else if format == BRCM_RAW14 {
        lemma_unpack14(pixels, k);
    }
}

/// The pixels of a group of bytes are no larger than the white level of the packing.
pub proof fn pixels_do_not_exceed_white(format: u8, bytes: Seq<u8>, at: int, k: int)
    requires
        BRCM_RAW8 <= format <= BRCM_RAW16,
        0 <= k < group_pixels(format),
    ensures
        group_pixel(format, bytes, at, k) <= packing_white(format),
{
}

proof fn lemma_pack10(bytes: Seq<u8>)
    requires
        bytes.len() == 5,
    ensures
        packed_group(
            BRCM_RAW10,
            Seq::new(4, |k: int| group_pixel(BRCM_RAW10, bytes, 0, k)),
        ) == bytes,
{
    let v = Seq::new(4, |k: int| group_pixel(BRCM_RAW10, bytes, 0, k));
    let low = bytes[4] as int;
    lemma_byte_digits(low);
    assert(v[0] == 4 * bytes[0] + low % 4);
    assert(v[1] == 4 * bytes[1] + low / 4 % 4);
    assert(v[2] == 4 * bytes[2] + low / 16 % 4);
    assert(v[3] == 4 * bytes[3] + low / 64);
    assert(v[0] % 4 == low % 4 && v[1] % 4 == low / 4 % 4 && v[2] % 4 == low / 16 % 4 && v[3] % 4
        == low / 64);
    assert(packed_group(BRCM_RAW10, v) =~= bytes);
}

proof fn lemma_pack12(bytes: Seq<u8>)
    requires
        bytes.len() == 3,
    ensures
        packed_group(
            BRCM_RAW12,
            Seq::new(2, |k: int| group_pixel(BRCM_RAW12, bytes, 0, k)),
        ) == bytes,
{
    let v = Seq::new(2, |k: int| group_pixel(BRCM_RAW12, bytes, 0, k));
    let low = bytes[2] as int;
    assert(v[0] == 16 * bytes[0] + low % 16);
    assert(v[1] == 16 * bytes[1] + low / 16);
    assert(v[0] % 16 == low % 16 && v[1] % 16 == low / 16);
    assert(packed_group(BRCM_RAW12, v) =~= bytes);
}

proof fn lemma_pack14(bytes: Seq<u8>)
    requires
        bytes.len() == 7,
    ensures
        packed_group(
            BRCM_RAW14,
            Seq::new(4, |k: int| group_pixel(BRCM_RAW14, bytes, 0, k)),
        ) == bytes,
{
    let v = Seq::new(4, |k: int| group_pixel(BRCM_RAW14, bytes, 0, k));
    let b4 = bytes[4] as int;
    let b5 = bytes[5] as int;
    let b6 = bytes[6] as int;
    assert(v[0] == 64 * bytes[0] + b4 / 4);
    assert(v[1] == 64 * bytes[1] + 16 * (b4 % 4) + b5 / 16);
    assert(v[2] == 64 * bytes[2] + 4 * (b5 % 16) + b6 / 64);
    assert(v[3] == 64 * bytes[3] + b6 % 64);
    assert(v[0] % 64 == b4 / 4 && v[0] / 64 == bytes[0]);
    assert(v[1] % 16 == b5 / 16 && v[1] / 16 % 4 == b4 % 4 && v[1] / 64 == bytes[1]);
    assert(v[2] % 4 == b6 / 64 && v[2] / 4 % 16 == b5 % 16 && v[2] / 64 == bytes[2]);
    assert(v[3] % 64 == b6 % 64 && v[3] / 64 == bytes[3]);
    let packed = packed_group(BRCM_RAW14, v);
    assert(packed[4] == b4);
    assert(packed[5] == b5);
    assert(packed[6] == b6);
    assert(packed =~= bytes);
}

/// Packing the pixels of a group of bytes gives back the bytes: every bit of them counts.
pub proof fn packing_gives_back_the_bytes(format: u8, bytes: Seq<u8>)
    requires
        BRCM_RAW8 <= format <= BRCM_RAW16,
        bytes.len() == group_bytes(format),
    ensures
        packed_group(
            format,
            Seq::new(group_pixels(format) as nat, |k: int| group_pixel(format, bytes, 0, k)),
        ) == bytes,
{
    if format == BRCM_RAW10 {
        lemma_pack10(bytes);
    } else if format == BRCM_RAW12 {
        lemma_pack12(bytes);
    } else if format == BRCM_RAW14 {
        lemma_pack14(bytes);
    } else {
        let pixels = Seq::new(
            group_pixels(format) as nat,
            |k: int| group_pixel(format, bytes, 0, k),
        );
        assert(packed_group(format, pixels) =~= bytes);
    }
}

/// An image whose width is a whole number of groups of pixels can be unpacked, if its header was
/// accepted.
pub proof fn accepted_whole_rows_are_not_cut(buffer: Seq<u8>)
    ensures
        header_of(buffer) matches Ok(Some(header)) ==> header.width as int % group_pixels(
            header.bayer_format,
        ) == 0 ==> !row_is_cut(header),
{
    last_brcm_is_the_last(buffer, buffer.len());
    if let Ok(Some(header)) = header_of(buffer) {
        let marker = last_brcm(buffer, buffer.len())->0;
        let at = marker + BRCM_HEADER_OFFSET;
        let padding_right = u16le(buffer, at + 36);
        let width = header.width as int;
        let bytes = packed_bytes(header.bayer_format, width + padding_right)->0;
        assert(header.stride >= bytes);
        let pixels = group_pixels(header.bayer_format);
        let each = group_bytes(header.bayer_format);
        if pixels > 1 && width % pixels == 0 {
            let groups = width / pixels;
            assert(width == pixels * groups) by {
                vstd::arithmetic::div_mod::lemma_fundamental_div_mod(width, pixels);
            }
            assert(row_groups(header.bayer_format, width) == groups) by {
                vstd::arithmetic::div_mod::lemma_fundamental_div_mod_converse(
                    width + pixels - 1,
                    pixels,
                    groups,
                    pixels - 1,
                );
                vstd::arithmetic::mul::lemma_mul_is_commutative(pixels, groups);
            }
            if header.bayer_format == BRCM_RAW10 {
                assert(pixels * groups == 4 * groups && 5 * groups <= header.stride);
                assert(header.stride as int / 5 >= groups);
            } else if header.bayer_format == BRCM_RAW12 {
                assert(pixels * groups == 2 * groups && 3 * groups <= header.stride);
                assert(header.stride as int / 3 >= groups);
            } else {
                assert(pixels * groups == 4 * groups && 7 * groups <= header.stride);
                assert(header.stride as int / 7 >= groups);
            }
        }
    }
}

/// The image of a file that has been read, and not as a dummy, has a sample for every place.
pub proof fn bayer_image_is_complete(buffer: Seq<u8>, header: RaspberryPiHeader)
    requires
        bayer_image(buffer, header, false) is Ok,
    ensures
        (bayer_image(buffer, header, false)->Ok_0).len() == header.width * header.height,
{
    assert(0 <= header.width * header.height) by (nonlinear_arith);
}

} // verus!
