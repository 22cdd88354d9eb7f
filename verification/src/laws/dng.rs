//! What reading a DNG file gives back of what its entries say.
use vstd::prelude::*;
use crate::camera::{camera_for, Orientation};
use crate::cfa::{color_letter, tag_letters, Pattern};
use crate::dng::crop::crop_result;
use crate::dng::decoder::{blacklevels_of, cfa_of, color_matrix_of, compressed_image, crops_of, dng_image,
    linearization, masked_areas_of, raw_ifd, table_of, uncompressed_image, whitelevels_of, DngFile};
use crate::laws::unpack::{codes_of_8_bits_are_the_bytes, hold_four, hold_two,
    unpacking_10_bits_gives_back_the_samples, unpacking_12_bits_gives_back_the_samples,
    unpacking_16_bits_gives_back_the_samples};
use crate::single::{below_zero, finite, rounded, significand, to_u16, unit, Single};
use crate::tiff::{Tag, TiffEntry, TiffIFD};

verus! {

/// A strip without compression holds samples from its offset on, in as many bits each as the file
/// says: two bytes, the low one first; 12 or 10 bits one behind the other, the high ones first; or a
/// byte.
pub open spec fn strip_holds_samples(
    buffer: Seq<u8>,
    offset: int,
    depth: u32,
    width: int,
    samples: Seq<u16>,
) -> bool {
    if depth == 16 {
        &&& offset + 2 * samples.len() <= buffer.len()
        &&& forall|i: int|
            0 <= i < samples.len() ==> #[trigger] samples[i] == buffer[offset + 2 * i] + 256
                * buffer[offset + 2 * i + 1]
    } else if depth == 12 {
        &&& width % 2 == 0
        &&& forall|j: int|
            0 <= 2 * j < samples.len() ==> #[trigger] hold_two(
                buffer,
                offset + 3 * j,
                samples[2 * j],
                samples[2 * j + 1],
            )
    } else if depth == 10 {
        &&& width % 4 == 0
        &&& forall|j: int|
            0 <= 4 * j < samples.len() ==> #[trigger] hold_four(
                buffer,
                offset + 5 * j,
                samples[4 * j],
                samples[4 * j + 1],
                samples[4 * j + 2],
                samples[4 * j + 3],
            )
    } else {
        &&& depth == 8
        &&& offset + samples.len() <= buffer.len()
        &&& forall|i: int| 0 <= i < samples.len() ==> #[trigger] samples[i] == buffer[offset + i]
    }
}

/// An image without compression gives back the samples that its strip was written from. The strip
/// starts at its offset, and goes on as long as the samples do.
pub proof fn strips_without_compression_give_back_their_samples(
    buffer: Seq<u8>,
    raw: TiffIFD,
    offsets: TiffEntry,
    depths: TiffEntry,
    width: usize,
    height: usize,
    samples: Seq<u16>,
)
    requires
        raw.entry(Tag::StripOffsets) == Some(offsets),
        raw.entry(Tag::BitsPerSample) == Some(depths),
        offsets.integer(0) < buffer.len(),
        samples.len() == width * height,
        width * height <= usize::MAX,
        strip_holds_samples(
            buffer,
            offsets.integer(0) as int,
            depths.integer(0),
            width as int,
            samples,
        ),
    ensures
        uncompressed_image(buffer, raw, width, height, false) == Ok::<Seq<u16>, Seq<char>>(samples),
{
    let offset = offsets.integer(0) as int;
    let src = buffer.skip(offset);
    let depth = depths.integer(0);
    if depth == 16 {
        assert forall|i: int| 0 <= i < samples.len() implies #[trigger] samples[i] == src[2 * i] + 256
            * src[2 * i + 1] by {
            assert(src[2 * i] == buffer[offset + 2 * i]);
            assert(src[2 * i + 1] == buffer[offset + 2 * i + 1]);
        }
        unpacking_16_bits_gives_back_the_samples(src, width as nat, height as nat, samples);
    } else if depth == 12 {
        assert forall|j: int| 0 <= 2 * j < samples.len() implies #[trigger] hold_two(
            src,
            3 * j,
            samples[2 * j],
            samples[2 * j + 1],
        ) by {
            assert(hold_two(buffer, offset + 3 * j, samples[2 * j], samples[2 * j + 1]));
        }
        unpacking_12_bits_gives_back_the_samples(src, width as nat, height as nat, samples);
    } else if depth == 10 {
        assert forall|j: int| 0 <= 4 * j < samples.len() implies #[trigger] hold_four(
            src,
            5 * j,
            samples[4 * j],
            samples[4 * j + 1],
            samples[4 * j + 2],
            samples[4 * j + 3],
        ) by {
            assert(hold_four(
                buffer,
                offset + 5 * j,
                samples[4 * j],
                samples[4 * j + 1],
                samples[4 * j + 2],
                samples[4 * j + 3],
            ));
        }
        unpacking_10_bits_gives_back_the_samples(src, width as nat, height as nat, samples);
    } else {
        codes_of_8_bits_are_the_bytes(src, width as nat, height as nat);
        let image = uncompressed_image(buffer, raw, width, height, false)->Ok_0;
        assert(image =~= samples);
    }
}

proof fn lemma_table(entry: TiffEntry, n: nat)
    ensures
        table_of(entry, n) is Ok <==> forall|i: int| 0 <= i < n ==> #[trigger] entry.integer(i) <= 65535,
        table_of(entry, n) matches Ok(table) ==> table.len() == n && forall|i: int|
            0 <= i < n ==> #[trigger] table[i] == entry.integer(i),
    decreases n,
{
    if n > 0 {
        let m = (n - 1) as nat;
        lemma_table(entry, m);
        if table_of(entry, m) is Ok && entry.integer(m as int) <= 65535 {
            let before = table_of(entry, m)->Ok_0;
            let table = table_of(entry, n)->Ok_0;
            assert(table == before.push(entry.integer(m as int) as u16));
            assert forall|i: int| 0 <= i < n implies #[trigger] table[i] == entry.integer(i) by {
                if i < m {
                    assert(table[i] == before[i]);
                }
            }
            assert forall|i: int| 0 <= i < n implies #[trigger] entry.integer(i) <= 65535 by {
                assert(table[i] == entry.integer(i));
            }
        }
    }
}

/// Stored codes are mapped through the table of a file, each once: to the value with its number, or
/// to the last one. A table that is empty, or has a value of more than 16 bits, is refused. Without a
/// table, and in a dummy read, codes stay as they are.
pub proof fn codes_are_mapped_through_the_table(tiff: TiffIFD, codes: Seq<u16>)
    ensures
        linearization(tiff, codes, true) == Ok::<Seq<u16>, Seq<char>>(codes),
        tiff.entry(Tag::Linearization) is None ==> linearization(tiff, codes, false) == Ok::<
            Seq<u16>,
            Seq<char>,
        >(codes),
        tiff.entry(Tag::Linearization) matches Some(entry) ==> {
            let mapped = linearization(tiff, codes, false);
            &&& mapped is Ok <==> entry.count() > 0 && forall|i: int|
                0 <= i < entry.count() ==> #[trigger] entry.integer(i) <= 65535
            &&& mapped matches Ok(samples) ==> samples.len() == codes.len() && forall|i: int|
                0 <= i < codes.len() ==> #[trigger] samples[i] == entry.integer(
                    if codes[i] < entry.count() {
                        codes[i] as int
                    } else {
                        entry.count() - 1
                    },
                )
        },
{
    if let Some(entry) = tiff.entry(Tag::Linearization) {
        lemma_table(entry, entry.count() as nat);
    }
}

/// The areas of the sensor that light does not reach are the values of their entry, four to an area.
pub proof fn masked_areas_have_four_values(raw: TiffIFD)
    ensures
        raw.entry(Tag::MaskedAreas) is None ==> masked_areas_of(raw).len() == 0,
        raw.entry(Tag::MaskedAreas) matches Some(entry) ==> entry.count() % 4 == 0 ==> {
            let areas = masked_areas_of(raw);
            &&& 4 * areas.len() == entry.count()
            &&& forall|i: int|
                0 <= i < areas.len() ==> {
                    &&& (#[trigger] areas[i]).0 == entry.integer(4 * i)
                    &&& areas[i].1 == entry.integer(4 * i + 1)
                    &&& areas[i].2 == entry.integer(4 * i + 2)
                    &&& areas[i].3 == entry.integer(4 * i + 3)
                }
        },
{
}

/// The numbers of a color matrix are those of the second matrix of a file, or of its first one, three
/// to a row, and zeros behind them. More than twelve are refused.
pub proof fn color_matrices_have_three_columns(tiff: TiffIFD, entry: TiffEntry, row: int, col: int)
    requires
        tiff.entry(Tag::ColorMatrix2) == Some(entry) || tiff.entry(Tag::ColorMatrix2) is None
            && tiff.entry(Tag::ColorMatrix1) == Some(entry),
        0 <= row < 4,
        0 <= col < 3,
    ensures
        color_matrix_of(tiff) is Ok <==> entry.count() <= 12,
        color_matrix_of(tiff) matches Ok(matrix) ==> matrix[row][col] == (if 3 * row + col
            < entry.count() {
            entry.values@[3 * row + col].number.bits
        } else {
            0
        }),
{
}

/// The levels of a file: one black level for all colors, or the first four; and the first white level
/// for all colors, without which there is no image.
pub proof fn levels_are_those_of_the_file(raw: TiffIFD, color: int)
    requires
        0 <= color < 4,
    ensures
        raw.entry(Tag::BlackLevels) is None ==> blacklevels_of(raw)[color] == 0,
        raw.entry(Tag::BlackLevels) matches Some(levels) ==> blacklevels_of(raw)[color] == to_u16(
            levels.values@[if levels.count() < 4 {
                0
            } else {
                color
            }].number.bits,
        ),
        whitelevels_of(raw) is Ok <==> raw.entry(Tag::WhiteLevel) is Some,
        raw.entry(Tag::WhiteLevel) matches Some(entry) ==> (whitelevels_of(raw)->Ok_0)[color]
            == entry.integer(0) as int % 65536,
{
}

/// The letter of a color.
pub open spec fn letter(color: u32) -> char {
    if color == 0 {
        'R'
    } else if color == 1 {
        'G'
    } else {
        'B'
    }
}

proof fn lemma_letters(entry: TiffEntry, width: nat, height: nat, n: nat)
    ensures
        tag_letters(entry, width, height, n) is Ok <==> forall|i: int|
            0 <= i < n ==> #[trigger] entry.integer(i) <= 2,
        tag_letters(entry, width, height, n) matches Ok(pattern) ==> pattern.width == width
            && pattern.height == height && pattern.name.len() == n && forall|i: int|
            0 <= i < n ==> #[trigger] pattern.name[i] == letter(entry.integer(i)),
    decreases n,
{
    if n > 0 {
        let m = (n - 1) as nat;
        lemma_letters(entry, width, height, m);
        if tag_letters(entry, width, height, m) is Ok && entry.integer(m as int) <= 2 {
            let before = tag_letters(entry, width, height, m)->Ok_0;
            let pattern = tag_letters(entry, width, height, n)->Ok_0;
            assert(color_letter(entry.integer(m as int)) == Some(letter(entry.integer(m as int))));
            assert(pattern.name == before.name.push(letter(entry.integer(m as int))));
            assert forall|i: int| 0 <= i < n implies #[trigger] pattern.name[i] == letter(
                entry.integer(i),
            ) by {
                if i < m {
                    assert(pattern.name[i] == before.name[i]);
                }
            }
            assert forall|i: int| 0 <= i < n implies #[trigger] entry.integer(i) <= 2 by {
                if i < m {
                    assert(before.name[i] == letter(entry.integer(i)));
                }
            }
        }
    }
}

/// The color in front of a place of the sensor: the pattern of a file is listed row by row, repeats
/// itself, and starts at the top left of the active area, or of the sensor where there is none.
pub proof fn color_filters_repeat_from_the_active_area(
    raw: TiffIFD,
    pattern: TiffEntry,
    dimensions: TiffEntry,
    row: int,
    col: int,
)
    requires
        raw.entry(Tag::CFAPattern) == Some(pattern),
        raw.entry(Tag::CFARepeatPatternDim) == Some(dimensions),
    ensures
        ({
            let h = dimensions.integer(0) as int;
            let w = dimensions.integer(1) as int;
            let active = raw.entry(Tag::ActiveArea);
            let (top, left) = match active {
                Some(area) => (area.integer(0) as int, area.integer(1) as int),
                None => (0, 0),
            };
            &&& cfa_of(raw) is Ok <==> {
                &&& dimensions.count() == 2
                &&& w > 0 && h > 0
                &&& pattern.count() == w * h
                &&& forall|i: int| 0 <= i < pattern.count() ==> #[trigger] pattern.integer(i) <= 2
                &&& active matches Some(area) ==> area.count() >= 4
            }
            &&& cfa_of(raw) matches Ok(filters) ==> {
                &&& filters.width == w && filters.height == h && filters.name.len() == w * h
                &&& filters.name[((top + row) % h) * w + (left + col) % w] == letter(
                    pattern.integer((row % h) * w + col % w),
                )
            }
        }),
{
    let h = dimensions.integer(0) as int;
    let w = dimensions.integer(1) as int;
    let active = raw.entry(Tag::ActiveArea);
    if w > 0 && h > 0 && pattern.count() == w * h {
        let n = pattern.count() as nat;
        lemma_letters(pattern, w as nat, h as nat, n);
        if let Ok(plain) = tag_letters(pattern, w as nat, h as nat, n) {
            let i = (row % h) * w + col % w;
            assert(0 <= i < w * h) by (nonlinear_arith)
                requires
                    i == (row % h) * w + col % w,
                    0 <= row % h,
                    row % h + 1 <= h,
                    0 <= col % w < w,
            ;
            assert(plain.color_at(row, col) == letter(pattern.integer(i)));
            if let Some(area) = active {
                let top = area.integer(0) as int;
                let left = area.integer(1) as int;
                assert(plain.wf()) by {
                    assert(h * w == w * h) by (nonlinear_arith);
                }
                crate::cfa::aligned_pattern_keeps_its_phase(plain, top, left, row, col);
                crate::cfa::lemma_shifted(plain, (w - left % w) % w, (h - top % h) % h, 0, 0);
                assert(plain.aligned(top, left).color_at(top + row, left + col) == plain.color_at(
                    row,
                    col,
                ));
            } else {
                assert(0 + row == row && 0 + col == col);
            }
        }
    }
}

/// The crop of an image, from the numbers that state its origin in the active area and its size.
pub open spec fn crop_fits(area: [usize; 4], origin: [Single; 2], size: [Single; 2]) -> bool {
    &&& finite(origin[0].bits) && finite(origin[1].bits) && finite(size[0].bits) && finite(size[1].bits)
    &&& !below_zero(origin[0].bits) && !below_zero(origin[1].bits)
    &&& !below_zero(size[0].bits) && !below_zero(size[1].bits)
    &&& rounded(size[0].bits) >= 1
    &&& rounded(size[1].bits) >= 1
    &&& area[1] + rounded(origin[0].bits) + rounded(size[0].bits) <= area[3]
    &&& area[0] + rounded(origin[1].bits) + rounded(size[1].bits) <= area[2]
}

proof fn lemma_rounded_size(bits: u32)
    ensures
        rounded(bits) >= 0,
        significand(bits) == 0 ==> rounded(bits) == 0,
{
    assert(significand(bits) >= 0);
    let u = crate::single::unit(bits);
    if u >= 150 {
        let p = vstd::arithmetic::power2::pow2((u - 150) as nat);
        assert(significand(bits) * p >= 0) by (nonlinear_arith)
            requires
                significand(bits) >= 0,
                p >= 0,
        ;
        assert(significand(bits) == 0 ==> significand(bits) * p == 0) by (nonlinear_arith);
    } else {
        let half = vstd::arithmetic::power2::pow2((149 - u) as nat) as int;
        vstd::arithmetic::power2::lemma_pow2_pos((149 - u) as nat);
        vstd::arithmetic::div_mod::lemma_div_pos_is_pos(significand(bits) + half, 2 * half);
        if significand(bits) == 0 {
            vstd::arithmetic::div_mod::lemma_basic_div(half, 2 * half);
        }
    }
}

/// An image is cropped to what its default crop asks for, which starts at its origin in the active
/// area and has its size, both rounded, if that lies in the active area, and to nothing else. The
/// numbers are what is cut off at the top, the right, the bottom and the left.
pub proof fn images_are_cropped_as_asked(
    width: usize,
    height: usize,
    area: [usize; 4],
    origin: [Single; 2],
    size: [Single; 2],
)
    requires
        area[0] < area[2] <= height < usize::MAX,
        area[1] < area[3] <= width < usize::MAX,
    ensures
        crop_result(width, height, area, Some((origin, size))) is Ok <==> crop_fits(area, origin, size),
        crop_result(width, height, area, Some((origin, size))) matches Ok(margins) ==> {
            let left = area[1] + rounded(origin[0].bits);
            let top = area[0] + rounded(origin[1].bits);
            &&& margins[0] == top
            &&& margins[1] == width - (left + rounded(size[0].bits))
            &&& margins[2] == height - (top + rounded(size[1].bits))
            &&& margins[3] == left
        },
{
    lemma_rounded_size(origin[0].bits);
    lemma_rounded_size(origin[1].bits);
    lemma_rounded_size(size[0].bits);
    lemma_rounded_size(size[1].bits);
}

/// An active area that is empty or does not lie in the image is refused.
pub proof fn active_areas_lie_in_the_image(
    width: usize,
    height: usize,
    area: [usize; 4],
    default_crop: Option<([Single; 2], [Single; 2])>,
)
    requires
        !(area[0] < area[2] <= height && area[1] < area[3] <= width),
    ensures
        crop_result(width, height, area, default_crop) is Err,
{
}

/// The crop of a file is that of its active area, which is all of the image where the file states
/// none, by its default crop, which counts where the file states both its origin and its size.
pub proof fn crops_go_by_the_entries(raw: TiffIFD, width: usize, height: usize)
    ensures
        ({
            let area = match raw.entry(Tag::ActiveArea) {
                Some(entry) => [
                    entry.integer(0) as usize,
                    entry.integer(1) as usize,
                    entry.integer(2) as usize,
                    entry.integer(3) as usize,
                ],
                None => [0, 0, height, width],
            };
            let short = raw.entry(Tag::ActiveArea) matches Some(entry) && entry.count() < 4;
            &&& short ==> crops_of(raw, width, height) is Err
            &&& !short ==> match (
                raw.entry(Tag::DefaultCropOrigin),
                raw.entry(Tag::DefaultCropSize),
            ) {
                (Some(origin), Some(size)) => if origin.count() < 2 || size.count() < 2 {
                    crops_of(raw, width, height) is Err
                } else {
                    crops_of(raw, width, height) == crop_result(
                        width,
                        height,
                        area,
                        Some(
                            (
                                [origin.values@[0].number, origin.values@[1].number],
                                [size.values@[0].number, size.values@[1].number],
                            ),
                        ),
                    )
                },
                _ => crops_of(raw, width, height) == crop_result(width, height, area, None),
            }
        }),
{
}

/// The orientation that a number of TIFF stands for.
pub open spec fn orientation_of(n: u32) -> Orientation {
    if n == 1 {
        Orientation::Normal
    } else if n == 2 {
        Orientation::HorizontalFlip
    } else if n == 3 {
        Orientation::Rotate180
    } else if n == 4 {
        Orientation::VerticalFlip
    } else if n == 5 {
        Orientation::Transpose
    } else if n == 6 {
        Orientation::Rotate90
    } else if n == 7 {
        Orientation::Transverse
    } else if n == 8 {
        Orientation::Rotate270
    } else {
        Orientation::Unknown
    }
}

/// An image is read by the entries of its directory: its size, its samples per pixel, and its codes,
/// which come out of a strip or of JPEG data by its compression, in rows of `width * cpp`; its levels,
/// filters and crop. What the file says of all its images is the table that maps the codes, the color
/// matrix and the camera. No image is read that lacks one of these, or of another compression.
pub proof fn images_are_read_by_their_entries(
    file: DngFile,
    planes: spec_fn(int) -> Seq<u8>,
    dummy: bool,
    raw: TiffIFD,
    width: TiffEntry,
    height: TiffEntry,
    cpp: TiffEntry,
    kind: TiffEntry,
)
    requires
        raw_ifd(file.tiff) == Some(raw),
        raw.entry(Tag::ImageWidth) == Some(width),
        raw.entry(Tag::ImageLength) == Some(height),
        raw.entry(Tag::SamplesPerPixel) == Some(cpp),
        raw.entry(Tag::PhotometricInt) == Some(kind),
        raw.entry(Tag::Compression) is Some,
        width.integer(0) * cpp.integer(0) <= usize::MAX,
    ensures
        ({
            let compression = (raw.entry(Tag::Compression)->0).integer(0);
            let row = (width.integer(0) * cpp.integer(0)) as usize;
            let rows = height.integer(0) as usize;
            let codes = if compression == 1 {
                uncompressed_image(file.buffer, raw, row, rows, dummy)
            } else {
                compressed_image(
                    file.buffer,
                    raw,
                    row,
                    rows,
                    cpp.integer(0) as usize,
                    planes,
                    dummy,
                )
            };
            let samples = linearization(file.tiff, codes->Ok_0, dummy);
            let crops = crops_of(raw, width.integer(0) as usize, rows);
            let linear = kind.integer(0) == 34892;
            let read = dng_image(file, planes, dummy);
            &&& read is Ok <==> {
                &&& compression == 1 || compression == 7
                &&& codes is Ok
                &&& samples is Ok
                &&& linear || cfa_of(raw) is Ok
                &&& raw.entry(Tag::WhiteLevel) is Some
                &&& color_matrix_of(file.tiff) is Ok
                &&& crops is Ok
            }
            &&& read matches Ok(image) ==> {
                &&& image.width == width.integer(0)
                &&& image.height == height.integer(0)
                &&& image.cpp == cpp.integer(0)
                &&& image.data == samples->Ok_0
                &&& image.blacklevels == blacklevels_of(raw)
                &&& whitelevels_of(raw) == Ok::<[u16; 4], Seq<char>>(image.whitelevels)
                &&& color_matrix_of(file.tiff) == Ok::<[[u32; 3]; 4], Seq<char>>(image.xyz_to_cam)
                &&& linear ==> image.cfa.name.len() == 0
                &&& !linear ==> cfa_of(raw) == Ok::<Pattern, Seq<char>>(image.cfa)
                &&& crops == Ok::<[usize; 4], Seq<char>>(image.crops)
                &&& image.blackareas == masked_areas_of(raw)
                &&& match camera_for(file.cameras, file.tiff) {
                    Ok(i) => {
                        let camera = file.cameras[i];
                        &&& image.make == camera.make@
                        &&& image.model == camera.model@
                        &&& image.clean_make == camera.clean_make@
                        &&& image.clean_model == camera.clean_model@
                        &&& image.orientation == camera.orientation
                    },
                    Err(_) => {
                        &&& image.make == image.clean_make
                        &&& image.model == image.clean_model
                        &&& image.make == match file.tiff.entry(Tag::Make) {
                            Some(entry) => entry.text@,
                            None => "DNG"@,
                        }
                        &&& file.tiff.entry(Tag::Model) matches Some(entry) ==> image.model
                            == entry.text@
                        &&& file.tiff.entry(Tag::Model) is None ==> image.model == match file.tiff.entry(
                            Tag::UniqueCameraModel,
                        ) {
                            Some(entry) => entry.text@,
                            None => "DNG"@,
                        }
                        &&& image.orientation == match file.tiff.entry(Tag::Orientation) {
                            Some(entry) => orientation_of(entry.integer(0)),
                            None => Orientation::Normal,
                        }
                    },
                }
            }
        }),
{
}

/// The number of single precision that is closest to a number of millionths.
pub open spec fn is_closest(bits: u32, millionths: int) -> bool {
    let ones = vstd::arithmetic::power2::pow2((150 - unit(bits)) as nat);
    let off = 1000000 * significand(bits) - millionths * ones;
    &&& finite(bits)
    &&& !below_zero(bits)
    &&& unit(bits) <= 150
    &&& -1000000 <= 2 * off <= 1000000
}

/// A file without a color matrix has that of sRGB with the white point D65, which turns white, one of
/// each color, into 0.950456, 1 and 1.088754; the fourth color has none.
pub proof fn colors_are_those_of_srgb_by_default(tiff: TiffIFD)
    requires
        tiff.entry(Tag::ColorMatrix1) is None,
        tiff.entry(Tag::ColorMatrix2) is None,
    ensures
        color_matrix_of(tiff) matches Ok(matrix) && {
            &&& is_closest(matrix[0][0], 412453)
            &&& is_closest(matrix[0][1], 357580)
            &&& is_closest(matrix[0][2], 180423)
            &&& 412453 + 357580 + 180423 == 950456
            &&& is_closest(matrix[1][0], 212671)
            &&& is_closest(matrix[1][1], 715160)
            &&& is_closest(matrix[1][2], 72169)
            &&& 212671 + 715160 + 72169 == 1000000
            &&& is_closest(matrix[2][0], 19334)
            &&& is_closest(matrix[2][1], 119193)
            &&& is_closest(matrix[2][2], 950227)
            &&& 19334 + 119193 + 950227 == 1088754
            &&& forall|c: int| 0 <= c < 3 ==> #[trigger] matrix[3][c] == 0
        },
{
    vstd::arithmetic::power2::lemma2_to64();
    let matrix = color_matrix_of(tiff)->Ok_0;
    assert forall|c: int| 0 <= c < 3 implies #[trigger] matrix[3][c] == 0 by {
        assert(c == 0 || c == 1 || c == 2);
    }
}

/// No image without compression is read where the file does not say where its strip is and how many
/// bits a sample has, where the strip is behind the end of the file, or where samples have other bits
/// than 8, 10, 12 or 16. A dummy read needs no more.
pub proof fn strips_without_compression_are_found_by_their_entries(
    buffer: Seq<u8>,
    raw: TiffIFD,
    width: usize,
    height: usize,
)
    ensures
        ({
            let found = raw.entry(Tag::StripOffsets) matches Some(offsets) && offsets.integer(0)
                < buffer.len() && (raw.entry(Tag::BitsPerSample) matches Some(bits) && (
            bits.integer(0) == 8 || bits.integer(0) == 10 || bits.integer(0) == 12 || bits.integer(0)
                == 16));
            &&& !found ==> uncompressed_image(buffer, raw, width, height, false) is Err
            &&& !found ==> uncompressed_image(buffer, raw, width, height, true) is Err
            &&& found ==> uncompressed_image(buffer, raw, width, height, true) == Ok::<
                Seq<u16>,
                Seq<char>,
            >(seq![0u16])
        }),
{
}

} // verus!
