//! What reading a Raspberry Pi image gives back of what was written.
use vstd::prelude::*;
use vstd::arithmetic::power2::pow2;
use crate::camera::Raw;
use crate::raspberrypi::{bayer_image, bayer_pixel, group_pixel, header_of, is_brcm, is_pi_image, last_brcm,
    last_brcm_is_the_last, packed_bytes, row_groups, row_is_cut, row_stride, sensor_matrix, sensor_of,
    RaspberryPiHeader};
use crate::single::is_integer;

verus! {

/// The row of a file holds a group of pixels: in the packing of 10 bits, from byte `5 * group` of
/// the row on, four bytes with the high bits of four pixels and one with their low bits; in that of
/// 12 bits two bytes for two pixels and one; in that of 14 bits four bytes for four pixels and
/// three; in those of 8 and 16 bits the bytes of one pixel.
pub open spec fn row_holds_group(
    buffer: Seq<u8>,
    header: RaspberryPiHeader,
    pixels: spec_fn(int, int) -> int,
    row: int,
    group: int,
) -> bool {
    let start = header.data_offset + row * header.stride;
    if header.bayer_format == 2 {
        &&& group + 1 <= header.stride
        &&& buffer[start + group] == pixels(row, group)
    } else if header.bayer_format == 3 {
        let at = start + 5 * group;
        let a = pixels(row, 4 * group);
        let b = pixels(row, 4 * group + 1);
        let c = pixels(row, 4 * group + 2);
        let d = pixels(row, 4 * group + 3);
        &&& 5 * group + 5 <= header.stride
        &&& 0 <= a < 1024 && 0 <= b < 1024 && 0 <= c < 1024 && 0 <= d < 1024
        &&& buffer[at] == a / 4
        &&& buffer[at + 1] == b / 4
        &&& buffer[at + 2] == c / 4
        &&& buffer[at + 3] == d / 4
        &&& buffer[at + 4] == a % 4 + 4 * (b % 4) + 16 * (c % 4) + 64 * (d % 4)
    } else if header.bayer_format == 4 {
        let at = start + 3 * group;
        let a = pixels(row, 2 * group);
        let b = pixels(row, 2 * group + 1);
        &&& 3 * group + 3 <= header.stride
        &&& 0 <= a < 4096 && 0 <= b < 4096
        &&& buffer[at] == a / 16
        &&& buffer[at + 1] == b / 16
        &&& buffer[at + 2] == a % 16 + 16 * (b % 16)
    } else if header.bayer_format == 5 {
        let at = start + 7 * group;
        let a = pixels(row, 4 * group);
        let b = pixels(row, 4 * group + 1);
        let c = pixels(row, 4 * group + 2);
        let d = pixels(row, 4 * group + 3);
        &&& 7 * group + 7 <= header.stride
        &&& 0 <= a < 16384 && 0 <= b < 16384 && 0 <= c < 16384 && 0 <= d < 16384
        &&& buffer[at] == a / 64
        &&& buffer[at + 1] == b / 64
        &&& buffer[at + 2] == c / 64
        &&& buffer[at + 3] == d / 64
        &&& buffer[at + 4] == 4 * (a % 64) + b % 64 / 16
        &&& buffer[at + 5] == 16 * (b % 16) + c % 64 / 4
        &&& buffer[at + 6] == 64 * (c % 4) + d % 64
    } else {
        let at = start + 2 * group;
        let a = pixels(row, group);
        &&& header.bayer_format == 6
        &&& 2 * group + 2 <= header.stride
        &&& 0 <= a < 65536
        &&& buffer[at] == a % 256
        &&& buffer[at + 1] == a / 256
    }
}

/// The number of pixels that share bytes, by the packing.
pub open spec fn pixels_together(format: u8) -> int {
    if format == 3 || format == 5 {
        4
    } else if format == 4 {
        2
    } else {
        1
    }
}

proof fn lemma_four_digits(a: int, b: int, c: int, d: int)
    requires
        0 <= a < 4,
        0 <= b < 4,
        0 <= c < 4,
        0 <= d < 4,
    ensures
        ({
            let n = a + 4 * b + 16 * c + 64 * d;
            0 <= n < 256 && n % 4 == a && n / 4 % 4 == b && n / 16 % 4 == c && n / 64 == d
        }),
{
}

/// The group that holds the pixel of a column starts before it.
proof fn lemma_group_of(format: u8, col: int)
    requires
        0 <= col,
    ensures
        0 <= col / pixels_together(format),
        (col / pixels_together(format)) * pixels_together(format) <= col,
{
    if format == 3 || format == 5 {
        assert((col / 4) * 4 <= col);
    } else if format == 4 {
        assert((col / 2) * 2 <= col);
    } else {
        assert(col / 1 == col);
    }
}

proof fn lemma_pixel10(
    buffer: Seq<u8>,
    header: RaspberryPiHeader,
    pixels: spec_fn(int, int) -> int,
    row: int,
    group: int,
    k: int,
)
    requires
        header.bayer_format == 3,
        0 <= group,
        0 <= k < 4,
        row_holds_group(buffer, header, pixels, row, group),
    ensures
        bayer_pixel(buffer, header, row, 4 * group + k) == pixels(row, 4 * group + k),
{
    let col = 4 * group + k;
    let at = header.data_offset + row * header.stride + 5 * group;
    assert(col / 4 == group && col % 4 == k);
    assert(group * 5 == 5 * group);
    assert(group < header.stride as int / 5);
    assert(bayer_pixel(buffer, header, row, col) == group_pixel(3, buffer, at, k));
    lemma_four_digits(
        pixels(row, 4 * group) % 4,
        pixels(row, 4 * group + 1) % 4,
        pixels(row, 4 * group + 2) % 4,
        pixels(row, 4 * group + 3) % 4,
    );
    let p = pixels(row, col);
    assert(p == 4 * (p / 4) + p % 4);
    assert(buffer[at + k] == p / 4);
}

proof fn lemma_pixel12(
    buffer: Seq<u8>,
    header: RaspberryPiHeader,
    pixels: spec_fn(int, int) -> int,
    row: int,
    group: int,
    k: int,
)
    requires
        header.bayer_format == 4,
        0 <= group,
        0 <= k < 2,
        row_holds_group(buffer, header, pixels, row, group),
    ensures
        bayer_pixel(buffer, header, row, 2 * group + k) == pixels(row, 2 * group + k),
{
    let col = 2 * group + k;
    let at = header.data_offset + row * header.stride + 3 * group;
    assert(col / 2 == group && col % 2 == k);
    assert(group * 3 == 3 * group);
    assert(group < header.stride as int / 3);
    assert(bayer_pixel(buffer, header, row, col) == group_pixel(4, buffer, at, k));
    let a = pixels(row, 2 * group);
    let b = pixels(row, 2 * group + 1);
    let low = buffer[at + 2] as int;
    assert(low % 16 == a % 16 && low / 16 == b % 16);
}

proof fn lemma_pixel14(
    buffer: Seq<u8>,
    header: RaspberryPiHeader,
    pixels: spec_fn(int, int) -> int,
    row: int,
    group: int,
    k: int,
)
    requires
        header.bayer_format == 5,
        0 <= group,
        0 <= k < 4,
        row_holds_group(buffer, header, pixels, row, group),
    ensures
        bayer_pixel(buffer, header, row, 4 * group + k) == pixels(row, 4 * group + k),
{
    let col = 4 * group + k;
    let at = header.data_offset + row * header.stride + 7 * group;
    assert(col / 4 == group && col % 4 == k);
    assert(group * 7 == 7 * group);
    assert(group < header.stride as int / 7);
    assert(bayer_pixel(buffer, header, row, col) == group_pixel(5, buffer, at, k));
    let a = pixels(row, 4 * group);
    let b = pixels(row, 4 * group + 1);
    let c = pixels(row, 4 * group + 2);
    let d = pixels(row, 4 * group + 3);
    let low4 = buffer[at + 4] as int;
    let low5 = buffer[at + 5] as int;
    let low6 = buffer[at + 6] as int;
    if k == 0 {
        assert(low4 / 4 == a % 64);
    } else if k == 1 {
        assert(low4 % 4 == b % 64 / 16 && low5 / 16 == b % 16);
        assert(b % 64 == 16 * (b % 64 / 16) + b % 16);
    } else if k == 2 {
        assert(low5 % 16 == c % 64 / 4 && low6 / 64 == c % 4);
        assert(c % 64 == 4 * (c % 64 / 4) + c % 4);
    } else {
        assert(low6 % 64 == d % 64);
    }
}

/// A row that holds the group of its last pixel does not end inside a group of its own.
proof fn lemma_row_is_whole(
    buffer: Seq<u8>,
    header: RaspberryPiHeader,
    pixels: spec_fn(int, int) -> int,
    row: int,
)
    requires
        2 <= header.bayer_format <= 6,
        header.width > 0,
        row_holds_group(
            buffer,
            header,
            pixels,
            row,
            (header.width - 1) / pixels_together(header.bayer_format),
        ),
    ensures
        !row_is_cut(header),
{
    let w = header.width as int;
    let stride = header.stride as int;
    if header.bayer_format == 3 {
        let group = (w - 1) / 4;
        assert(5 * group + 5 <= stride);
        assert(row_groups(3, w) == (w + 4 - 1) / 4);
        assert((w + 4 - 1) / 4 == group + 1);
        assert(stride / 5 >= group + 1);
    } else if header.bayer_format == 4 {
        let group = (w - 1) / 2;
        assert(3 * group + 3 <= stride);
        assert(row_groups(4, w) == (w + 2 - 1) / 2);
        assert((w + 2 - 1) / 2 == group + 1);
        assert(stride / 3 >= group + 1);
    } else if header.bayer_format == 5 {
        let group = (w - 1) / 4;
        assert(7 * group + 7 <= stride);
        assert(row_groups(5, w) == (w + 4 - 1) / 4);
        assert((w + 4 - 1) / 4 == group + 1);
        assert(stride / 7 >= group + 1);
    }
}

/// The pixel of a column comes out where a pixel has bytes of its own.
proof fn lemma_pixel_alone(
    buffer: Seq<u8>,
    header: RaspberryPiHeader,
    pixels: spec_fn(int, int) -> int,
    row: int,
    col: int,
)
    requires
        header.bayer_format == 2 || header.bayer_format == 6,
        0 <= col,
        row_holds_group(buffer, header, pixels, row, col),
    ensures
        bayer_pixel(buffer, header, row, col) == pixels(row, col),
{
    let start = header.data_offset + row * header.stride;
    assert(col / 1 == col && col % 1 == 0 && header.stride as int / 1 == header.stride);
    if header.bayer_format == 2 {
        assert(col * 1 == col);
        assert(bayer_pixel(buffer, header, row, col) == group_pixel(2, buffer, start + col, 0));
    } else {
        assert(col * 2 == 2 * col);
        assert(col < header.stride as int / 2);
        assert(bayer_pixel(buffer, header, row, col) == group_pixel(6, buffer, start + 2 * col, 0));
    }
}

/// The pixel of a column comes out of the group that holds it.
proof fn lemma_pixel(
    buffer: Seq<u8>,
    header: RaspberryPiHeader,
    pixels: spec_fn(int, int) -> int,
    row: int,
    col: int,
)
    requires
        2 <= header.bayer_format <= 6,
        0 <= col,
        row_holds_group(
            buffer,
            header,
            pixels,
            row,
            col / pixels_together(header.bayer_format),
        ),
    ensures
        bayer_pixel(buffer, header, row, col) == pixels(row, col),
{
    let format = header.bayer_format;
    if format == 3 {
        lemma_pixel10(buffer, header, pixels, row, col / 4, col % 4);
        assert(col == 4 * (col / 4) + col % 4);
    } else if format == 4 {
        lemma_pixel12(buffer, header, pixels, row, col / 2, col % 2);
        assert(col == 2 * (col / 2) + col % 2);
    } else if format == 5 {
        lemma_pixel14(buffer, header, pixels, row, col / 4, col % 4);
        assert(col == 4 * (col / 4) + col % 4);
    } else {
        assert(col / 1 == col);
        lemma_pixel_alone(buffer, header, pixels, row, col);
    }
}

/// Unpacking the rows of a file gives back every pixel of theirs, where the groups of a row lie one
/// behind the other and the rows lie a stride apart.
pub proof fn unpacking_rows_gives_back_the_pixels(
    buffer: Seq<u8>,
    header: RaspberryPiHeader,
    pixels: spec_fn(int, int) -> int,
)
    requires
        2 <= header.bayer_format <= 6,
        forall|row: int, group: int|
            0 <= row < header.height && 0 <= group && group * pixels_together(header.bayer_format)
                < header.width ==> #[trigger] row_holds_group(buffer, header, pixels, row, group),
    ensures
        ({
            let image = bayer_image(buffer, header, false);
            &&& image is Ok
            &&& (image->Ok_0).len() == header.width * header.height
            &&& forall|row: int, col: int|
                0 <= row < header.height && 0 <= col < header.width ==> (image->Ok_0)[row
                    * header.width + col] == #[trigger] pixels(row, col)
        }),
{
    let format = header.bayer_format;
    let w = header.width as int;
    assert(0 <= header.width * header.height) by (nonlinear_arith);
    if header.height > 0 && w > 0 {
        lemma_group_of(format, w - 1);
        assert(row_holds_group(
            buffer,
            header,
            pixels,
            0,
            (w - 1) / pixels_together(format),
        ));
        lemma_row_is_whole(buffer, header, pixels, 0);
    }
    let image = bayer_image(buffer, header, false)->Ok_0;
    assert forall|row: int, col: int|
        0 <= row < header.height && 0 <= col < header.width implies image[row * header.width + col]
        == #[trigger] pixels(row, col) by {
        let group = col / pixels_together(format);
        lemma_group_of(format, col);
        assert(row_holds_group(buffer, header, pixels, row, group));
        lemma_pixel(buffer, header, pixels, row, col);
        vstd::arithmetic::div_mod::lemma_fundamental_div_mod_converse(row * w + col, w, row, col);
        assert(0 <= row * w && row * w + w <= w * header.height) by (nonlinear_arith)
            requires
                0 <= row,
                row + 1 <= header.height,
                0 < w,
        ;
    }
}

/// A file without the marker has no raw image. In one that has it, the header stands 176 bytes
/// behind the last of them and the samples 32768 bytes behind it. The header states the width, the
/// height and the padding at its bytes 32, 34 and 36, the order of the colors at 68 and the packing
/// at 69. The stride is the smallest multiple of 32 bytes that holds the bits of a row with its
/// padding.
pub proof fn headers_state_the_image(buffer: Seq<u8>, marker: int)
    requires
        0 <= marker,
        marker + 4 <= buffer.len() <= usize::MAX - 0x8000,
        buffer.subrange(marker, marker + 4) == seq![0x42u8, 0x52u8, 0x43u8, 0x4du8],
        forall|later: int|
            marker < later && later + 4 <= buffer.len() ==> #[trigger] buffer.subrange(
                later,
                later + 4,
            ) != seq![0x42u8, 0x52u8, 0x43u8, 0x4du8],
    ensures
        header_of(buffer) is Ok ==> header_of(buffer) matches Ok(Some(_)),
        header_of(buffer) matches Ok(Some(header)) ==> {
            let at = marker + 176;
            let padding = buffer[at + 36] + 256 * buffer[at + 37];
            let depth = match header.bayer_format {
                2 => 8,
                3 => 10,
                4 => 12,
                5 => 14,
                _ => 16int,
            };
            let bits = (header.width + padding) * depth;
            &&& marker + 246 <= buffer.len()
            &&& buffer[at + 66] == 33 && buffer[at + 67] == 0
            &&& header.width == buffer[at + 32] + 256 * buffer[at + 33]
            &&& header.height == buffer[at + 34] + 256 * buffer[at + 35]
            &&& header.bayer_order == buffer[at + 68]
            &&& header.bayer_format == buffer[at + 69]
            &&& header.data_offset == marker + 32768
            &&& header.stride % 32 == 0
            &&& 8 * header.stride >= bits
            &&& 8 * (header.stride - 32) < bits
            &&& 1 <= header.width <= 50000
            &&& 1 <= header.height <= 50000
            &&& header.bayer_order <= 3
            &&& 2 <= header.bayer_format <= 6
            &&& header.data_offset + header.height * header.stride <= buffer.len()
        },
{
    last_brcm_is_the_last(buffer, buffer.len());
    let word = seq![0x42u8, 0x52u8, 0x43u8, 0x4du8];
    let here = buffer.subrange(marker, marker + 4);
    assert(here[0] == word[0] && here[1] == word[1] && here[2] == word[2] && here[3] == word[3]);
    assert(is_brcm(buffer, marker));
    assert forall|later: int| marker < later < buffer.len() implies !#[trigger] is_brcm(
        buffer,
        later,
    ) by {
        if is_brcm(buffer, later) {
            assert(buffer.subrange(later, later + 4) =~= word);
        }
    }
    assert(last_brcm(buffer, buffer.len()) == Some(marker));
}

/// A header that says what a raw image needs is accepted: it states the format of Bayer samples, a
/// size that is neither empty nor too large, a known order and a known packing, and the file holds
/// every row.
pub proof fn complete_headers_are_accepted(buffer: Seq<u8>, marker: int, stride: int)
    requires
        0 <= marker,
        marker + 246 <= buffer.len() <= usize::MAX - 0x8000,
        buffer.subrange(marker, marker + 4) == seq![0x42u8, 0x52u8, 0x43u8, 0x4du8],
        forall|later: int|
            marker < later && later + 4 <= buffer.len() ==> #[trigger] buffer.subrange(
                later,
                later + 4,
            ) != seq![0x42u8, 0x52u8, 0x43u8, 0x4du8],
        buffer[marker + 242] == 33,
        buffer[marker + 243] == 0,
        buffer[marker + 244] <= 3,
        2 <= buffer[marker + 245] <= 6,
        ({
            let width = buffer[marker + 208] + 256 * buffer[marker + 209];
            let height = buffer[marker + 210] + 256 * buffer[marker + 211];
            let padding = buffer[marker + 212] + 256 * buffer[marker + 213];
            let depth = match buffer[marker + 245] {
                2 => 8,
                3 => 10,
                4 => 12,
                5 => 14,
                _ => 16int,
            };
            let bits = (width + padding) * depth;
            &&& 1 <= width <= 50000
            &&& 1 <= height <= 50000
            &&& stride % 32 == 0
            &&& 8 * stride >= bits
            &&& 8 * (stride - 32) < bits
            &&& marker + 32768 + height * stride <= buffer.len()
        }),
    ensures
        header_of(buffer) matches Ok(Some(header)) && header.stride == stride,
{
    last_brcm_is_the_last(buffer, buffer.len());
    let word = seq![0x42u8, 0x52u8, 0x43u8, 0x4du8];
    let here = buffer.subrange(marker, marker + 4);
    assert(here[0] == word[0] && here[1] == word[1] && here[2] == word[2] && here[3] == word[3]);
    assert(is_brcm(buffer, marker));
    assert forall|later: int| marker < later < buffer.len() implies !#[trigger] is_brcm(
        buffer,
        later,
    ) by {
        if is_brcm(buffer, later) {
            assert(buffer.subrange(later, later + 4) =~= word);
        }
    }
    assert(last_brcm(buffer, buffer.len()) == Some(marker));
    let width = buffer[marker + 208] + 256 * buffer[marker + 209];
    let height = buffer[marker + 210] + 256 * buffer[marker + 211];
    let padding = buffer[marker + 212] + 256 * buffer[marker + 213];
    let bytes = packed_bytes(buffer[marker + 245], width + padding)->0;
    assert(row_stride(bytes) == stride);
    assert(height * row_stride(bytes) == height * stride);
}

/// The rows of an image are refused where they end inside a group of pixels that share bytes, and no
/// others are.
pub proof fn rows_that_end_inside_a_group_are_refused(
    buffer: Seq<u8>,
    header: RaspberryPiHeader,
)
    requires
        2 <= header.bayer_format <= 6,
    ensures
        ({
            let stride = header.stride as int;
            let w = header.width as int;
            bayer_image(buffer, header, false) is Err <==> header.height > 0 && (match header.bayer_format {
                3 => stride % 5 != 0 && stride < 5 * ((w + 3) / 4),
                4 => stride % 3 != 0 && stride < 3 * ((w + 1) / 2),
                5 => stride % 7 != 0 && stride < 7 * ((w + 3) / 4),
                _ => false,
            })
        }),
{
}

/// What is known of a sensor is known by the size of its images: the HQ camera, whose black level is
/// a quarter of its own in the packing of 10 bits, the first camera module, and the second one for all
/// other sizes.
pub proof fn sensors_are_known_by_their_sizes(width: usize, height: usize, format: u8)
    ensures
        ({
            let (model, clean_model, black) = sensor_of(width, height, format);
            let matrix = sensor_matrix(width, height);
            if width == 4056 && height == 3040 {
                &&& model == "RP_imx477"@
                &&& clean_model == "HQ Camera (IMX477)"@
                &&& format == 3 ==> black == 64
                &&& format != 3 ==> black == 256
                &&& matrix == seq![5603int, -1351, -600, -2872, 11180, 2132, 600, 453, 5821, 0, 0, 0]
            } else if width == 2592 && height == 1944 {
                &&& model == "ov5647"@
                &&& clean_model == "Camera Module v1 (OV5647)"@
                &&& black == 16
                &&& matrix == seq![12782int, -4059, -379, -478, 9066, 1413, 1340, 1513, 5176, 0, 0, 0]
            } else {
                &&& model == "RP_imx219"@
                &&& clean_model == "Camera Module v2 (IMX219)"@
                &&& black == 66
                &&& matrix == seq![5302int, 1083, -728, -5320, 14112, 1699, -863, 2371, 5136, 0, 0, 0]
            }
        }),
{
}

/// The white level of an image is the largest number of its bits, its black level that of its sensor
/// or the white level, whichever is less, and its filters go by the order of the colors.
pub proof fn images_have_the_levels_of_their_bits(
    image: Raw,
    header: RaspberryPiHeader,
    data: Seq<u16>,
    color: int,
)
    requires
        is_pi_image(image, header, data),
        2 <= header.bayer_format <= 6,
        header.bayer_order <= 3,
        0 <= color < 4,
    ensures
        ({
            let depth = match header.bayer_format {
                2 => 8nat,
                3 => 10,
                4 => 12,
                5 => 14,
                _ => 16,
            };
            let black = sensor_of(header.width, header.height, header.bayer_format).2;
            &&& image.whitelevels[color] == pow2(depth) - 1
            &&& image.blacklevels[color] == if black < pow2(depth) {
                black as int
            } else {
                pow2(depth) - 1
            }
            &&& image.cfa.name == match header.bayer_order {
                0 => seq!['R', 'G', 'G', 'B'],
                1 => seq!['G', 'B', 'R', 'G'],
                2 => seq!['B', 'G', 'G', 'R'],
                _ => seq!['G', 'R', 'B', 'G'],
            }
            &&& image.cfa.width == 2 && image.cfa.height == 2
            &&& image.width == header.width && image.height == header.height && image.cpp == 1
            &&& image.data == data
            &&& forall|r: int, c: int|
                0 <= r < 4 && 0 <= c < 3 ==> is_integer(
                    #[trigger] image.xyz_to_cam[r][c],
                    sensor_matrix(header.width, header.height)[3 * r + c],
                )
        }),
{
    vstd::arithmetic::power2::lemma2_to64();
    reveal_strlit("RGGB");
    reveal_strlit("GBRG");
    reveal_strlit("BGGR");
    reveal_strlit("GRBG");
    assert("RGGB"@ =~= seq!['R', 'G', 'G', 'B']);
    assert("GBRG"@ =~= seq!['G', 'B', 'R', 'G']);
    assert("BGGR"@ =~= seq!['B', 'G', 'G', 'R']);
    assert("GRBG"@ =~= seq!['G', 'R', 'B', 'G']);
}

} // verus!
