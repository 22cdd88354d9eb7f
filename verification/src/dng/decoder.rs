//! Decoding of DNG files.
use vstd::prelude::*;
use vstd::slice::slice_subrange;
use crate::camera::{camera_for, file_orientation, has_value, Camera, Orientation, Raw, RawImage,
    RawLoader};
use crate::cfa::{align_cfa_to_sensor_origin, tag_pattern, Pattern, CFA};
use crate::dng::crop::{crop_margins_from_dng, crop_result};
use crate::dng::jpeg::{can_read_strip, can_read_tiles, counts_lead_past, decode_strip, decode_tiles, same_fate,
    strip_image, strip_readable, strips_have_one_fate, tiled_image, tiles_have_one_fate,
    tiles_readable, Tiling};
use crate::single::{to_u16, Single};
use crate::text::{decimal, number_after, push_with, same_result, with_number};
use crate::tiff::{missing, pointed, with_tag, Tag, TiffEntry, TiffIFD};
use crate::unpack::{codes_result, decode_10le, decode_12be, decode_16le, decode_8bit_codes,
    dummy_image, same_image, Packing};

verus! {

/// A DNG file.
#[derive(Debug)]
pub struct DngDecoder<'a> {
    buffer: &'a [u8],
    rawloader: &'a RawLoader,
    tiff: TiffIFD,
}

/// The contents of a [`DngDecoder`].
pub struct DngFile {
    /// The bytes of the file.
    pub buffer: Seq<u8>,
    /// The cameras that are known.
    pub cameras: Seq<Camera>,
    /// The entries of the file.
    pub tiff: TiffIFD,
}

impl<'a> View for DngDecoder<'a> {
    type V = DngFile;

    closed spec fn view(&self) -> DngFile {
        DngFile { buffer: self.buffer@, cameras: self.rawloader.cameras@, tiff: self.tiff }
    }
}

impl<'a> Clone for DngDecoder<'a> {
    fn clone(&self) -> (copy: Self)
        ensures
            copy@.buffer == self@.buffer,
            copy@.cameras == self@.cameras,
            self@.tiff.same(copy@.tiff),
    {
        DngDecoder { buffer: self.buffer, rawloader: self.rawloader, tiff: self.tiff.clone() }
    }
}

/// The sample that a stored code stands for: the entry of the table, or its last one for codes
/// above it.
pub open spec fn linearized(code: u16, table: Seq<u16>) -> u16 {
    if code < table.len() {
        table[code as int]
    } else {
        table.last()
    }
}

/// Applies a linearization table, mapping codes above its range to its last entry.
pub fn linearize_samples(samples: &mut [u16], table: &[u16])
    requires
        table@.len() > 0,
    ensures
        final(samples)@ == old(samples)@.map_values(|code: u16| linearized(code, table@)),
{
    let ghost codes = samples@;
    let last_index: usize = table.len() - 1;
    let mut i: usize = 0;
    while i < samples.len()
        invariant
            i <= samples@.len(),
            samples@.len() == codes.len(),
            last_index == table@.len() - 1,
            forall|j: int| 0 <= j < i ==> #[trigger] samples@[j] == linearized(codes[j], table@),
            forall|j: int| i <= j < codes.len() ==> #[trigger] samples@[j] == codes[j],
        decreases samples@.len() - i,
    {
        let code: usize = samples[i] as usize;
        samples[i] = if code < last_index {
            table[code]
        } else {
            table[last_index]
        };
        i = i + 1;
    }
    assert(samples@ =~= codes.map_values(|code: u16| linearized(code, table@)));
}

/// The first `n` entries of a linearization table, or the first of them that is too large.
pub open spec fn table_of(entry: TiffEntry, n: nat) -> Result<Seq<u16>, Seq<char>>
    decreases n,
{
    if n == 0 {
        Ok(seq![])
    } else {
        let value = entry.integer(n - 1);
        match table_of(entry, (n - 1) as nat) {
            Err(message) => Err(message),
            Ok(before) => if value > 65535 {
                Err(
                    "DNG: linearization value "@ + decimal(value as nat) + " at index "@ + decimal(
                        (n - 1) as nat,
                    ) + " exceeds 16-bit output"@,
                )
            } else {
                Ok(before.push(value as u16))
            },
        }
    }
}

/// The samples of stored codes, by the linearization table of a file.
pub open spec fn linearization(tiff: TiffIFD, codes: Seq<u16>, dummy: bool) -> Result<
    Seq<u16>,
    Seq<char>,
> {
    if dummy {
        Ok(codes)
    } else {
        match tiff.entry(Tag::Linearization) {
            None => Ok(codes),
            Some(entry) => if entry.count() == 0 {
                Err("DNG: linearization table is empty"@)
            } else {
                match table_of(entry, entry.count() as nat) {
                    Err(message) => Err(message),
                    Ok(table) => Ok(codes.map_values(|code: u16| linearized(code, table))),
                }
            },
        }
    }
}

proof fn lemma_table_end(entry: TiffEntry, k: nat, n: nat)
    requires
        k <= n,
        table_of(entry, k) is Err,
    ensures
        table_of(entry, n) == table_of(entry, k),
    decreases n,
{
    if k < n {
        lemma_table_end(entry, k, (n - 1) as nat);
    }
}

/// The message for an active area with fewer than four values.
pub open spec fn area_message(count: nat) -> Seq<char> {
    "DNG: ActiveArea has "@ + decimal(count) + " values, expected 4"@
}

fn area_error(count: usize) -> (text: String)
    ensures
        text@ == area_message(count as nat),
{
    with_number("DNG: ActiveArea has ", count, " values, expected 4")
}

/// The color filters of a file in front of the whole sensor, or what is wrong with them.
pub open spec fn cfa_of(raw: TiffIFD) -> Result<Pattern, Seq<char>> {
    match raw.entry(Tag::CFAPattern) {
        None => Err(missing(Tag::CFAPattern)),
        Some(pattern) => match raw.entry(Tag::CFARepeatPatternDim) {
            None => Err(missing(Tag::CFARepeatPatternDim)),
            Some(dimensions) => if dimensions.count() != 2 {
                Err(
                    "DNG: CFA repeat dimensions have "@ + decimal(dimensions.count() as nat)
                        + " values, expected 2"@,
                )
            } else {
                match tag_pattern(
                    pattern,
                    dimensions.integer(1) as nat,
                    dimensions.integer(0) as nat,
                ) {
                    Err(message) => Err(message),
                    Ok(cfa) => match raw.entry(Tag::ActiveArea) {
                        None => Ok(cfa),
                        Some(active) => if active.count() < 4 {
                            Err(area_message(active.count() as nat))
                        } else {
                            Ok(cfa.aligned(active.integer(0) as int, active.integer(1) as int))
                        },
                    },
                }
            },
        },
    }
}

/// The numbers that two values of an entry stand for.
pub open spec fn pair_of(entry: TiffEntry) -> [Single; 2] {
    [entry.values@[0].number, entry.values@[1].number]
}

/// What a file cuts off its image, or what is wrong with it.
pub open spec fn crops_of(raw: TiffIFD, width: usize, height: usize) -> Result<
    [usize; 4],
    Seq<char>,
> {
    let active = raw.entry(Tag::ActiveArea);
    let origin = raw.entry(Tag::DefaultCropOrigin);
    let size = raw.entry(Tag::DefaultCropSize);
    if active matches Some(entry) && entry.count() < 4 {
        Err(area_message((active->0).count() as nat))
    } else {
        let area = match active {
            Some(entry) => [
                entry.integer(0) as usize,
                entry.integer(1) as usize,
                entry.integer(2) as usize,
                entry.integer(3) as usize,
            ],
            None => [0, 0, height, width],
        };
        if origin is Some && size is Some {
            let origin = origin->0;
            let size = size->0;
            if origin.count() < 2 || size.count() < 2 {
                Err(
                    "DNG: DefaultCropOrigin/DefaultCropSize have "@ + decimal(origin.count() as nat)
                        + "/"@ + decimal(size.count() as nat) + " values, expected 2/2"@,
                )
            } else {
                crop_result(width, height, area, Some((pair_of(origin), pair_of(size))))
            }
        } else {
            crop_result(width, height, area, None)
        }
    }
}

/// The areas of the sensor that light does not reach: each of four values, in their order.
pub open spec fn masked_areas_of(raw: TiffIFD) -> Seq<(u64, u64, u64, u64)> {
    match raw.entry(Tag::MaskedAreas) {
        None => seq![],
        Some(entry) => Seq::new(
            entry.count() as nat / 4,
            |i: int|
                (
                    entry.integer(4 * i) as u64,
                    entry.integer(4 * i + 1) as u64,
                    entry.integer(4 * i + 2) as u64,
                    entry.integer(4 * i + 3) as u64,
                ),
        ),
    }
}

/// The bits of the numbers of the color matrix that counts without one of its own: sRGB with the
/// white point D65.
pub open spec fn srgb_matrix() -> [[u32; 3]; 4] {
    [
        [0x3ed32d0a, 0x3eb714ba, 0x3e38c0cf],
        [0x3e59c66d, 0x3f3714ba, 0x3d93cd57],
        [0x3c9e6256, 0x3df41b76, 0x3f734214],
        [0x00000000, 0x00000000, 0x00000000],
    ]
}

/// A number of the matrix that an entry lists row by row; 0 behind its values.
pub open spec fn matrix_bits(entry: TiffEntry, i: int) -> u32 {
    if i < entry.count() {
        entry.bits(i)
    } else {
        0
    }
}

/// The color matrix of a file, or what is wrong with it.
pub open spec fn color_matrix_of(tiff: TiffIFD) -> Result<[[u32; 3]; 4], Seq<char>> {
    let entry = match tiff.entry(Tag::ColorMatrix2) {
        Some(entry) => Some(entry),
        None => tiff.entry(Tag::ColorMatrix1),
    };
    match entry {
        None => Ok(srgb_matrix()),
        Some(entry) => if entry.count() > 12 {
            Err(
                "color matrix supposedly has "@ + decimal(entry.count() as nat) + " components"@,
            )
        } else {
            Ok(
                [
                    [matrix_bits(entry, 0), matrix_bits(entry, 1), matrix_bits(entry, 2)],
                    [matrix_bits(entry, 3), matrix_bits(entry, 4), matrix_bits(entry, 5)],
                    [matrix_bits(entry, 6), matrix_bits(entry, 7), matrix_bits(entry, 8)],
                    [matrix_bits(entry, 9), matrix_bits(entry, 10), matrix_bits(entry, 11)],
                ],
            )
        },
    }
}

/// The repeating black levels of a file, before the offsets of rows and columns.
pub open spec fn blacklevels_of(raw: TiffIFD) -> [u16; 4] {
    match raw.entry(Tag::BlackLevels) {
        None => [0, 0, 0, 0],
        Some(levels) => if levels.count() < 4 {
            let black = to_u16(levels.bits(0));
            [black, black, black, black]
        } else {
            [
                to_u16(levels.bits(0)),
                to_u16(levels.bits(1)),
                to_u16(levels.bits(2)),
                to_u16(levels.bits(3)),
            ]
        },
    }
}

/// The white levels of a file: the low 16 bits of the first one it states, for every color.
pub open spec fn whitelevels_of(raw: TiffIFD) -> Result<[u16; 4], Seq<char>> {
    match raw.entry(Tag::WhiteLevel) {
        None => Err(missing(Tag::WhiteLevel)),
        Some(entry) => {
            let level = (entry.integer(0) % 65536) as u16;
            Ok([level, level, level, level])
        },
    }
}

impl<'a> DngDecoder<'a> {
    /// A DNG file: its bytes, its entries, and the cameras that are known.
    pub fn new(buf: &'a [u8], tiff: TiffIFD, rawloader: &'a RawLoader) -> (decoder: DngDecoder<'a>)
        ensures
            decoder@ == (DngFile { buffer: buf@, cameras: rawloader.cameras@, tiff }),
    {
        DngDecoder { buffer: buf, tiff, rawloader }
    }

    /// The entries of the file.
    pub fn tiff(&self) -> (tiff: &TiffIFD)
        ensures
            *tiff == self@.tiff,
    {
        &self.tiff
    }

    /// The repeating black levels of a file, before the offsets of rows and columns.
    pub fn base_blacklevels(&self, raw: &TiffIFD) -> (levels: [u16; 4])
        requires
            has_value(raw.entry(Tag::BlackLevels)),
        ensures
            levels == blacklevels_of(*raw),
    {
        match raw.find_entry(Tag::BlackLevels) {
            None => [0, 0, 0, 0],
            Some(levels) => if levels.count() < 4 {
                let black: u16 = levels.get_number(0).as_u16();
                [black, black, black, black]
            } else {
                [
                    levels.get_number(0).as_u16(),
                    levels.get_number(1).as_u16(),
                    levels.get_number(2).as_u16(),
                    levels.get_number(3).as_u16(),
                ]
            },
        }
    }

    /// The white levels of a file.
    pub fn get_whitelevels(&self, raw: &TiffIFD) -> (res: Result<[u16; 4], String>)
        requires
            has_value(raw.entry(Tag::WhiteLevel)),
        ensures
            same_result(res, whitelevels_of(*raw)),
    {
        match raw.fetch(Tag::WhiteLevel) {
            Err(text) => Err(text),
            Ok(entry) => {
                let level: u16 = (entry.get_u32(0) % 65536) as u16;
                Ok([level, level, level, level])
            },
        }
    }

    /// Maps stored sample codes through the linearization table once any compression has been
    /// decoded. The table applies to every storage format and bit depth, not only to 8-bit strips.
    pub fn apply_linearization(&self, image: &mut [u16], dummy: bool) -> (res: Result<(), String>)
        ensures
            match linearization(self@.tiff, old(image)@, dummy) {
                Ok(samples) => res is Ok && final(image)@ == samples,
                Err(message) => res matches Err(text) && text@ == message && final(image)@ == old(
                    image,
                )@,
            },
    {
        if dummy {
            return Ok(());
        }
        let entry: &TiffEntry = match self.tiff.find_entry(Tag::Linearization) {
            Some(entry) => entry,
            None => return Ok(()),
        };
        let count: usize = entry.count();
        if count == 0 {
            return Err("DNG: linearization table is empty".to_string());
        }
        let ghost before = image@;
        let mut table: Vec<u16> = Vec::new();
        let mut index: usize = 0;
        while index < count
            invariant
                index <= count,
                count == entry.count(),
                count > 0,
                image@ == before,
                before == old(image)@,
                !dummy,
                self@.tiff.entry(Tag::Linearization) == Some(*entry),
                table@.len() == index,
                table_of(*entry, index as nat) == Ok::<Seq<u16>, Seq<char>>(table@),
            decreases count - index,
        {
            let value: u32 = entry.get_u32(index);
            assert(table_of(*entry, ((index + 1) - 1) as nat) is Ok);
            if value > 65535 {
                let mut text: String = with_number(
                    "DNG: linearization value ",
                    value as usize,
                    " at index ",
                );
                push_with(&mut text, index, " exceeds 16-bit output");
                proof {
                    lemma_table_end(*entry, (index + 1) as nat, count as nat);
                }
                return Err(text);
            }
            table.push(value as u16);
            index = index + 1;
        }
        linearize_samples(image, table.as_slice());
        Ok(())
    }

    /// The color filters in front of the whole sensor.
    pub fn get_cfa(&self, raw: &TiffIFD) -> (res: Result<CFA, String>)
        ensures
            match (res, cfa_of(*raw)) {
                (Ok(cfa), Ok(pattern)) => cfa@ == pattern,
                (Err(text), Err(message)) => text@ == message,
                _ => false,
            },
    {
        let pattern: &TiffEntry = match raw.fetch(Tag::CFAPattern) {
            Ok(entry) => entry,
            Err(text) => return Err(text),
        };
        let dimensions: &TiffEntry = match raw.fetch(Tag::CFARepeatPatternDim) {
            Ok(entry) => entry,
            Err(text) => return Err(text),
        };
        if dimensions.count() != 2 {
            return Err(
                with_number(
                    "DNG: CFA repeat dimensions have ",
                    dimensions.count(),
                    " values, expected 2",
                ),
            );
        }
        let height: usize = dimensions.get_usize(0);
        let width: usize = dimensions.get_usize(1);
        let cfa: CFA = match CFA::new_from_tag(pattern, width, height) {
            Ok(cfa) => cfa,
            Err(text) => return Err(text),
        };
        let active: &TiffEntry = match raw.find_entry(Tag::ActiveArea) {
            Some(active) => active,
            None => return Ok(cfa),
        };
        if active.count() < 4 {
            return Err(area_error(active.count()));
        }
        Ok(align_cfa_to_sensor_origin(cfa, active.get_usize(0), active.get_usize(1)))
    }

    /// What the file cuts off its image.
    pub fn get_crops(&self, raw: &TiffIFD, width: usize, height: usize) -> (res: Result<
        [usize; 4],
        String,
    >)
        ensures
            same_result(res, crops_of(*raw, width, height)),
    {
        let active_area: [usize; 4] = match raw.find_entry(Tag::ActiveArea) {
            Some(active) => {
                if active.count() < 4 {
                    return Err(area_error(active.count()));
                }
                [
                    active.get_usize(0),
                    active.get_usize(1),
                    active.get_usize(2),
                    active.get_usize(3),
                ]
            },
            // Some files do not state it; the whole image counts for them.
            None => [0, 0, height, width],
        };
        let origin: Option<&TiffEntry> = raw.find_entry(Tag::DefaultCropOrigin);
        let size: Option<&TiffEntry> = raw.find_entry(Tag::DefaultCropSize);
        let default_crop: Option<([Single; 2], [Single; 2])> = match (origin, size) {
            (Some(origin), Some(size)) => {
                if origin.count() < 2 || size.count() < 2 {
                    let mut text: String = with_number(
                        "DNG: DefaultCropOrigin/DefaultCropSize have ",
                        origin.count(),
                        "/",
                    );
                    push_with(&mut text, size.count(), " values, expected 2/2");
                    return Err(text);
                }
                Some(
                    (
                        [origin.get_number(0).clone(), origin.get_number(1).clone()],
                        [size.get_number(0).clone(), size.get_number(1).clone()],
                    ),
                )
            },
            _ => None,
        };
        crop_margins_from_dng(width, height, active_area, default_crop)
    }

    /// The areas of the sensor that light does not reach.
    pub fn get_masked_areas(&self, raw: &TiffIFD) -> (areas: Vec<(u64, u64, u64, u64)>)
        requires
            raw.entry(Tag::MaskedAreas) matches Some(entry) ==> entry.count() % 4 == 0,
        ensures
            areas@ == masked_areas_of(*raw),
    {
        let mut areas: Vec<(u64, u64, u64, u64)> = Vec::new();
        let ghost all = masked_areas_of(*raw);
        if let Some(entry) = raw.find_entry(Tag::MaskedAreas) {
            let count: usize = entry.count();
            let mut x: usize = 0;
            while x < count
                invariant
                    x <= count,
                    x % 4 == 0,
                    count % 4 == 0,
                    count == entry.count(),
                    raw.entry(Tag::MaskedAreas) == Some(*entry),
                    all == masked_areas_of(*raw),
                    areas@ =~= all.take(x as int / 4),
                decreases count - x,
            {
                areas.push(
                    (
                        entry.get_u32(x) as u64,
                        entry.get_u32(x + 1) as u64,
                        entry.get_u32(x + 2) as u64,
                        entry.get_u32(x + 3) as u64,
                    ),
                );
                assert(4 * (x as int / 4) == x);
                x = x + 4;
            }
        }
        assert(areas@ =~= all);
        areas
    }

    /// The bits of the numbers of the color matrix.
    pub fn get_color_matrix(&self) -> (res: Result<[[u32; 3]; 4], String>)
        ensures
            same_result(res, color_matrix_of(self@.tiff)),
    {
        let found: Option<&TiffEntry> = match self.tiff.find_entry(Tag::ColorMatrix2) {
            Some(entry) => Some(entry),
            None => self.tiff.find_entry(Tag::ColorMatrix1),
        };
        let entry: &TiffEntry = match found {
            Some(entry) => entry,
            None => {
                return Ok(
                    [
                        [0x3ed32d0a, 0x3eb714ba, 0x3e38c0cf],
                        [0x3e59c66d, 0x3f3714ba, 0x3d93cd57],
                        [0x3c9e6256, 0x3df41b76, 0x3f734214],
                        [0x00000000, 0x00000000, 0x00000000],
                    ],
                );
            },
        };
        if entry.count() > 12 {
            return Err(with_number("color matrix supposedly has ", entry.count(), " components"));
        }
        Ok(
            [
                [bits_at(entry, 0), bits_at(entry, 1), bits_at(entry, 2)],
                [bits_at(entry, 3), bits_at(entry, 4), bits_at(entry, 5)],
                [bits_at(entry, 6), bits_at(entry, 7), bits_at(entry, 8)],
                [bits_at(entry, 9), bits_at(entry, 10), bits_at(entry, 11)],
            ],
        )
    }
}

/// The image of a file without compression, or what is wrong with it.
pub open spec fn uncompressed_image(
    buffer: Seq<u8>,
    raw: TiffIFD,
    width: usize,
    height: usize,
    dummy: bool,
) -> Result<Seq<u16>, Seq<char>> {
    match raw.entry(Tag::StripOffsets) {
        None => Err(missing(Tag::StripOffsets)),
        Some(offsets) => {
            let offset = offsets.integer(0) as int;
            let src = buffer.skip(offset);
            if offset >= buffer.len() {
                Err("DNG: strip offset "@ + decimal(offset as nat) + " is outside the file"@)
            } else {
                match raw.entry(Tag::BitsPerSample) {
                    None => Err(missing(Tag::BitsPerSample)),
                    Some(bits) => {
                        let packed = match bits.integer(0) {
                            16 => Some(Packing::Little16),
                            12 => Some(Packing::Big12),
                            10 => Some(Packing::Big10),
                            _ => None,
                        };
                        match packed {
                            Some(packing) => if dummy {
                                Ok(dummy_image())
                            } else {
                                Ok(packing.samples(src, width as nat, height as nat))
                            },
                            None => if bits.integer(0) != 8 {
                                Err(
                                    "DNG: Don't know about "@ + decimal(bits.integer(0) as nat)
                                        + " bps images"@,
                                )
                            } else if dummy {
                                Ok(dummy_image())
                            } else {
                                codes_result(src, width as nat, height as nat)
                            },
                        }
                    },
                }
            }
        },
    }
}

/// The entries that an image without compression is read from have values, and the image fits the
/// machine.
pub open spec fn uncompressed_readable(
    buffer: Seq<u8>,
    raw: TiffIFD,
    width: usize,
    height: usize,
    dummy: bool,
) -> bool {
    raw.entry(Tag::StripOffsets) matches Some(offsets) ==> {
        &&& offsets.count() > 0
        &&& offsets.integer(0) < buffer.len() ==> (raw.entry(Tag::BitsPerSample) matches Some(bits)
            ==> {
            &&& bits.count() > 0
            &&& dummy || !(bits.integer(0) == 16 || bits.integer(0) == 12 || bits.integer(0) == 10)
                || width * height <= usize::MAX
        })
    }
}

/// The image of a file with JPEG compression, or what is wrong with it. `cpp` samples make up a
/// pixel. The planes that the decoder gives for DCT-compressed data hold the given bytes, by the
/// numbers of the tiles; a strip has the number 0.
pub open spec fn compressed_image(
    buffer: Seq<u8>,
    raw: TiffIFD,
    width: usize,
    height: usize,
    cpp: usize,
    planes: spec_fn(int) -> Seq<u8>,
    dummy: bool,
) -> Result<Seq<u16>, Seq<char>> {
    match raw.entry(Tag::StripOffsets) {
        Some(offsets) => strip_image(buffer, raw, offsets, width, height, dummy, planes(0)),
        None => match raw.entry(Tag::TileOffsets) {
            None => Err("DNG: didn't find tiles or strips"@),
            Some(offsets) => match raw.entry(Tag::TileWidth) {
                None => Err(missing(Tag::TileWidth)),
                Some(twidth) => match raw.entry(Tag::TileLength) {
                    None => Err(missing(Tag::TileLength)),
                    Some(tlength) => tiled_image(
                        buffer,
                        raw,
                        offsets,
                        tiling_of(width, height, cpp, twidth, tlength),
                        planes,
                        dummy,
                    ),
                },
            },
        },
    }
}

/// The tiles of an image, by the entries that state their width in pixels and their length.
pub open spec fn tiling_of(
    width: usize,
    height: usize,
    cpp: usize,
    twidth: TiffEntry,
    tlength: TiffEntry,
) -> Tiling {
    Tiling {
        width: width as int,
        height: height as int,
        twidth: twidth.integer(0) * cpp,
        tlength: tlength.integer(0) as int,
    }
}

/// The entries that an image with JPEG compression is read from have values, and the image fits
/// the machine.
pub open spec fn compressed_readable(
    buffer: Seq<u8>,
    raw: TiffIFD,
    width: usize,
    height: usize,
    cpp: usize,
    dummy: bool,
) -> bool {
    match raw.entry(Tag::StripOffsets) {
        Some(offsets) => strip_readable(buffer, raw, offsets, width, height, dummy),
        None => match raw.entry(Tag::TileOffsets) {
            None => true,
            Some(offsets) => match raw.entry(Tag::TileWidth) {
                None => true,
                Some(twidth) => {
                    &&& twidth.count() > 0
                    &&& twidth.integer(0) * cpp <= usize::MAX
                    &&& raw.entry(Tag::TileLength) matches Some(tlength) ==> tlength.count() > 0
                        && tiles_readable(
                        buffer,
                        raw,
                        offsets,
                        tiling_of(width, height, cpp, twidth, tlength),
                        dummy,
                    )
                },
            },
        },
    }
}

impl<'a> DngDecoder<'a> {
    /// Decodes an image without compression.
    pub fn decode_uncompressed(&self, raw: &TiffIFD, width: usize, height: usize, dummy: bool) -> (res:
        Result<Vec<u16>, String>)
        requires
            uncompressed_readable(self@.buffer, *raw, width, height, dummy),
        ensures
            same_image(res, uncompressed_image(self@.buffer, *raw, width, height, dummy)),
    {
        let offset: usize = match raw.fetch(Tag::StripOffsets) {
            Ok(entry) => entry.get_usize(0),
            Err(text) => return Err(text),
        };
        if offset >= self.buffer.len() {
            return Err(with_number("DNG: strip offset ", offset, " is outside the file"));
        }
        let src: &[u8] = slice_subrange(self.buffer, offset, self.buffer.len());
        assert(src@ =~= self@.buffer.skip(offset as int));
        match raw.fetch(Tag::BitsPerSample) {
            Err(text) => Err(text),
            Ok(entry) => match entry.get_u32(0) {
                16 => Ok(decode_16le(src, width, height, dummy)),
                12 => Ok(decode_12be(src, width, height, dummy)),
                10 => Ok(decode_10le(src, width, height, dummy)),
                8 => decode_8bit_codes(src, width, height, dummy),
                bps => Err(with_number("DNG: Don't know about ", bps as usize, " bps images")),
            },
        }
    }

    /// Decodes an image with JPEG compression, of one strip or of tiles.
    pub fn decode_compressed(
        &self,
        raw: &TiffIFD,
        width: usize,
        height: usize,
        cpp: usize,
        dummy: bool,
    ) -> (res: Result<Vec<u16>, String>)
        requires
            compressed_readable(self@.buffer, *raw, width, height, cpp, dummy),
        ensures
            exists|planes: spec_fn(int) -> Seq<u8>|
                same_image(
                    res,
                    #[trigger] compressed_image(
                        self@.buffer,
                        *raw,
                        width,
                        height,
                        cpp,
                        planes,
                        dummy,
                    ),
                ),
    {
        let ghost none: spec_fn(int) -> Seq<u8> = |tile: int| seq![];
        // The result where nothing comes out of the decoder.
        let ghost unread = compressed_image(self@.buffer, *raw, width, height, cpp, none, dummy);
        if let Some(offsets) = raw.find_entry(Tag::StripOffsets) {
            let res: Result<Vec<u16>, String> = decode_strip(
                self.buffer,
                raw,
                offsets,
                width,
                height,
                dummy,
            );
            proof {
                let bytes = choose|bytes: Seq<u8>|
                    same_image(
                        res,
                        #[trigger] strip_image(
                            self@.buffer,
                            *raw,
                            *offsets,
                            width,
                            height,
                            dummy,
                            bytes,
                        ),
                    );
                let planes: spec_fn(int) -> Seq<u8> = |tile: int| bytes;
                assert(same_image(
                    res,
                    compressed_image(self@.buffer, *raw, width, height, cpp, planes, dummy),
                ));
            }
            res
        } else if let Some(offsets) = raw.find_entry(Tag::TileOffsets) {
            let twidth: usize = match raw.fetch(Tag::TileWidth) {
                Ok(entry) => entry.get_usize(0) * cpp,
                Err(text) => return Err(text),
            };
            let tlength: usize = match raw.fetch(Tag::TileLength) {
                Ok(entry) => entry.get_usize(0),
                Err(text) => return Err(text),
            };
            let res: Result<Vec<u16>, String> = decode_tiles(
                self.buffer,
                raw,
                offsets,
                width,
                height,
                twidth,
                tlength,
                dummy,
            );
            proof {
                let tiling = Tiling {
                    width: width as int,
                    height: height as int,
                    twidth: twidth as int,
                    tlength: tlength as int,
                };
                let planes = choose|planes: spec_fn(int) -> Seq<u8>|
                    same_image(
                        res,
                        #[trigger] tiled_image(
                            self@.buffer,
                            *raw,
                            *offsets,
                            tiling,
                            planes,
                            dummy,
                        ),
                    );
                assert(same_image(
                    res,
                    compressed_image(self@.buffer, *raw, width, height, cpp, planes, dummy),
                ));
            }
            res
        } else {
            Err("DNG: didn't find tiles or strips".to_string())
        }
    }
}

/// A directory holds a raw image: one of a compression that DNG has for it, and not a preview.
pub open spec fn is_raw(ifd: TiffIFD) -> bool {
    let compression = (ifd.entry(Tag::Compression)->0).integer(0);
    let preview = match ifd.entry(Tag::NewSubFileType) {
        Some(entry) => entry.integer(0) % 2 != 0,
        None => false,
    };
    !preview && (compression == 7 || compression == 1 || compression == 0x884c)
}

/// The first of the directories that holds a raw image.
pub open spec fn first_raw(ifds: Seq<TiffIFD>) -> Option<TiffIFD>
    decreases ifds.len(),
{
    if ifds.len() == 0 {
        None
    } else if is_raw(ifds[0]) {
        Some(ifds[0])
    } else {
        first_raw(ifds.skip(1))
    }
}

/// The directory of the raw image of a file.
pub open spec fn raw_ifd(tiff: TiffIFD) -> Option<TiffIFD> {
    first_raw(with_tag(tiff.directories(), Tag::Compression))
}

/// The entries by which the raw image is found have values.
pub open spec fn raw_findable(tiff: TiffIFD) -> bool {
    forall|i: int|
        #![trigger with_tag(tiff.directories(), Tag::Compression)[i]]
        0 <= i < with_tag(tiff.directories(), Tag::Compression).len() ==> {
            let ifd = with_tag(tiff.directories(), Tag::Compression)[i];
            &&& ifd.entry(Tag::Compression) matches Some(entry) && entry.count() > 0
            &&& has_value(ifd.entry(Tag::NewSubFileType))
        }
}

/// The stored codes of the raw image: by the compression that its directory states. The planes that
/// the decoder gives for DCT-compressed data hold the given bytes.
pub open spec fn stored_image(
    buffer: Seq<u8>,
    raw: TiffIFD,
    width: usize,
    height: usize,
    cpp: usize,
    planes: spec_fn(int) -> Seq<u8>,
    dummy: bool,
) -> Result<Seq<u16>, Seq<char>> {
    let compression = (raw.entry(Tag::Compression)->0).integer(0);
    if compression == 1 {
        uncompressed_image(buffer, raw, (width * cpp) as usize, height, dummy)
    } else if compression == 7 {
        compressed_image(buffer, raw, (width * cpp) as usize, height, cpp, planes, dummy)
    } else {
        Err("Don't know how to read DNGs with compression "@ + decimal(compression as nat))
    }
}

/// The raw image can be read: its entries have values, and it fits the machine.
pub open spec fn stored_readable(
    buffer: Seq<u8>,
    raw: TiffIFD,
    width: usize,
    height: usize,
    cpp: usize,
    dummy: bool,
) -> bool {
    let compression = (raw.entry(Tag::Compression)->0).integer(0);
    &&& compression == 1 || compression == 7 ==> width * cpp <= usize::MAX
    &&& compression == 1 ==> uncompressed_readable(
        buffer,
        raw,
        (width * cpp) as usize,
        height,
        dummy,
    )
    &&& compression == 7 ==> compressed_readable(
        buffer,
        raw,
        (width * cpp) as usize,
        height,
        cpp,
        dummy,
    )
}

/// The names of a camera: make, model, clean make and clean model; and the orientation of its
/// images. Those of the camera, if it is known, and else what the file states.
pub open spec fn names_of(cameras: Seq<Camera>, tiff: TiffIFD) -> (
    Seq<char>,
    Seq<char>,
    Seq<char>,
    Seq<char>,
    Orientation,
) {
    match camera_for(cameras, tiff) {
        Ok(i) => (
            cameras[i].make@,
            cameras[i].model@,
            cameras[i].clean_make@,
            cameras[i].clean_model@,
            cameras[i].orientation,
        ),
        Err(_) => {
            let make = match tiff.entry(Tag::Make) {
                Some(entry) => entry.text@,
                None => "DNG"@,
            };
            let model = match tiff.entry(Tag::Model) {
                Some(entry) => entry.text@,
                None => match tiff.entry(Tag::UniqueCameraModel) {
                    Some(entry) => entry.text@,
                    None => "DNG"@,
                },
            };
            (make, model, make, model, file_orientation(tiff))
        },
    }
}

/// The color filters of an image: none where it holds colors already.
pub open spec fn filters_of(raw: TiffIFD, linear: bool) -> Result<Pattern, Seq<char>> {
    if linear {
        Ok(Pattern { name: seq![], width: 0, height: 0 })
    } else {
        cfa_of(raw)
    }
}

/// The raw image of a file, of which size and kind are known, or what is wrong with it.
pub open spec fn sized_image(
    file: DngFile,
    raw: TiffIFD,
    width: usize,
    height: usize,
    cpp: usize,
    linear: bool,
    planes: spec_fn(int) -> Seq<u8>,
    dummy: bool,
) -> Result<Raw, Seq<char>> {
    match stored_image(file.buffer, raw, width, height, cpp, planes, dummy) {
        Err(message) => Err(message),
        Ok(codes) => match linearization(file.tiff, codes, dummy) {
            Err(message) => Err(message),
            Ok(data) => match filters_of(raw, linear) {
                Err(message) => Err(message),
                Ok(cfa) => described_image(file, raw, width, height, cpp, data, cfa),
            },
        },
    }
}

/// The raw image of a file, of which samples and color filters are known, or what is wrong with
/// what the file says of it.
pub open spec fn described_image(
    file: DngFile,
    raw: TiffIFD,
    width: usize,
    height: usize,
    cpp: usize,
    data: Seq<u16>,
    cfa: Pattern,
) -> Result<Raw, Seq<char>> {
    let (make, model, clean_make, clean_model, orientation) = names_of(file.cameras, file.tiff);
    match whitelevels_of(raw) {
        Err(message) => Err(message),
        Ok(whitelevels) => match color_matrix_of(file.tiff) {
            Err(message) => Err(message),
            Ok(xyz_to_cam) => match crops_of(raw, width, height) {
                Err(message) => Err(message),
                Ok(crops) => Ok(
                    Raw {
                        make,
                        model,
                        clean_make,
                        clean_model,
                        width,
                        height,
                        cpp,
                        data,
                        blacklevels: blacklevels_of(raw),
                        whitelevels,
                        xyz_to_cam,
                        cfa,
                        crops,
                        blackareas: masked_areas_of(raw),
                        orientation,
                    },
                ),
            },
        },
    }
}

/// The entries that describe an image have the values that are asked for.
pub open spec fn described_readable(
    file: DngFile,
    raw: TiffIFD,
    width: usize,
    height: usize,
) -> bool {
    &&& camera_for(file.cameras, file.tiff) is Err ==> has_value(file.tiff.entry(Tag::Orientation))
    &&& has_value(raw.entry(Tag::BlackLevels))
    &&& has_value(raw.entry(Tag::WhiteLevel))
    &&& whitelevels_of(raw) is Ok && color_matrix_of(file.tiff) is Ok && crops_of(
        raw,
        width,
        height,
    ) is Ok ==> (raw.entry(Tag::MaskedAreas) matches Some(entry) ==> entry.count() % 4 == 0)
}

/// The first value of an entry that has to be there.
pub open spec fn first_value(raw: TiffIFD, tag: Tag) -> Result<u32, Seq<char>> {
    match raw.entry(tag) {
        Some(entry) => Ok(entry.integer(0)),
        None => Err(missing(tag)),
    }
}

/// The raw image of a file, but for its white balance and the offsets of its black levels; or what
/// is wrong with it. The planes that the decoder gives for DCT-compressed data hold the given bytes.
pub open spec fn dng_image(file: DngFile, planes: spec_fn(int) -> Seq<u8>, dummy: bool) -> Result<
    Raw,
    Seq<char>,
> {
    let raw = raw_ifd(file.tiff)->0;
    match first_value(raw, Tag::ImageWidth) {
        Err(message) => Err(message),
        Ok(width) => match first_value(raw, Tag::ImageLength) {
            Err(message) => Err(message),
            Ok(height) => match first_value(raw, Tag::SamplesPerPixel) {
                Err(message) => Err(message),
                Ok(cpp) => match first_value(raw, Tag::PhotometricInt) {
                    Err(message) => Err(message),
                    Ok(kind) => sized_image(
                        file,
                        raw,
                        width as usize,
                        height as usize,
                        cpp as usize,
                        kind == 34892,
                        planes,
                        dummy,
                    ),
                },
            },
        },
    }
}

/// A file can be read: it holds a raw image, the entries that count have values, and the image
/// fits the machine.
pub open spec fn dng_readable(file: DngFile, dummy: bool) -> bool {
    let raw = raw_ifd(file.tiff)->0;
    &&& raw_findable(file.tiff)
    &&& raw_ifd(file.tiff) is Some
    &&& has_value(raw.entry(Tag::ImageWidth))
    &&& first_value(raw, Tag::ImageWidth) matches Ok(width) ==> {
        &&& has_value(raw.entry(Tag::ImageLength))
        &&& first_value(raw, Tag::ImageLength) matches Ok(height) ==> {
            &&& has_value(raw.entry(Tag::SamplesPerPixel))
            &&& first_value(raw, Tag::SamplesPerPixel) matches Ok(cpp) ==> {
                &&& has_value(raw.entry(Tag::PhotometricInt))
                &&& first_value(raw, Tag::PhotometricInt) matches Ok(kind) ==> sized_readable(
                    file,
                    raw,
                    width as usize,
                    height as usize,
                    cpp as usize,
                    kind == 34892,
                    dummy,
                )
            }
        }
    }
}

/// A raw image of which size and kind are known can be read.
pub open spec fn sized_readable(
    file: DngFile,
    raw: TiffIFD,
    width: usize,
    height: usize,
    cpp: usize,
    linear: bool,
    dummy: bool,
) -> bool {
    &&& stored_readable(file.buffer, raw, width, height, cpp, dummy)
    &&& forall|planes: spec_fn(int) -> Seq<u8>|
        (#[trigger] stored_image(file.buffer, raw, width, height, cpp, planes, dummy)) matches Ok(
            codes,
        ) ==> linearization(file.tiff, codes, dummy) is Ok ==> filters_of(raw, linear) is Ok
            ==> described_readable(file, raw, width, height)
}

/// An image has been read as expected.
pub open spec fn same_raw(res: Result<RawImage, String>, expected: Result<Raw, Seq<char>>) -> bool {
    match (res, expected) {
        (Ok(image), Ok(raw)) => image@ == raw,
        (Err(text), Err(message)) => text@ == message,
        _ => false,
    }
}

impl<'a> DngDecoder<'a> {
    /// The directory of the raw image.
    pub fn find_raw(&self) -> (found: Option<&TiffIFD>)
        requires
            raw_findable(self@.tiff),
        ensures
            match (found, raw_ifd(self@.tiff)) {
                (Some(raw), Some(expected)) => *raw == expected && (raw.entry(
                    Tag::Compression,
                ) matches Some(entry) && entry.count() > 0),
                (None, None) => true,
                _ => false,
            },
    {
        let ifds: Vec<&TiffIFD> = self.tiff.find_ifds_with_tag(Tag::Compression);
        let ghost all = with_tag(self@.tiff.directories(), Tag::Compression);
        assert(pointed(ifds@) == all);
        let mut i: usize = 0;
        assert(all.skip(0) =~= all);
        while i < ifds.len()
            invariant
                i <= ifds@.len(),
                all == with_tag(self@.tiff.directories(), Tag::Compression),
                pointed(ifds@) == all,
                raw_findable(self@.tiff),
                raw_ifd(self@.tiff) == first_raw(all.skip(i as int)),
            decreases ifds@.len() - i,
        {
            let ifd: &TiffIFD = ifds[i];
            proof {
                assert(all[i as int] == pointed(ifds@)[i as int]);
                assert(*ifd == all[i as int]);
                assert(all.skip(i as int)[0] == *ifd);
                assert(all.skip(i as int).skip(1) =~= all.skip(i + 1));
            }
            let compression: u32 = match ifd.find_entry(Tag::Compression) {
                Some(entry) => entry.get_u32(0),
                None => 0,
            };
            let preview: bool = match ifd.find_entry(Tag::NewSubFileType) {
                Some(entry) => entry.get_u32(0) % 2 != 0,
                None => false,
            };
            if !preview && (compression == 7 || compression == 1 || compression == 0x884c) {
                return Some(ifd);
            }
            i = i + 1;
        }
        None
    }

    fn first_size(&self, raw: &TiffIFD, tag: Tag) -> (res: Result<usize, String>)
        requires
            has_value(raw.entry(tag)),
        ensures
            match (res, first_value(*raw, tag)) {
                (Ok(n), Ok(expected)) => n == expected,
                (Err(text), Err(message)) => text@ == message,
                _ => false,
            },
    {
        match raw.fetch(tag) {
            Ok(entry) => Ok(entry.get_usize(0)),
            Err(text) => Err(text),
        }
    }

    fn names(&self) -> (names: (String, String, String, String, Orientation))
        requires
            camera_for(self@.cameras, self@.tiff) is Err ==> has_value(
                self@.tiff.entry(Tag::Orientation),
            ),
        ensures
            names_of(self@.cameras, self@.tiff) == (
                names.0@,
                names.1@,
                names.2@,
                names.3@,
                names.4,
            ),
    {
        match self.rawloader.check_supported(&self.tiff) {
            Ok(camera) => (
                camera.make.clone(),
                camera.model.clone(),
                camera.clean_make.clone(),
                camera.clean_model.clone(),
                camera.orientation,
            ),
            Err(_) => {
                let make: String = match self.tiff.find_entry(Tag::Make) {
                    Some(entry) => entry.get_str().to_string(),
                    None => "DNG".to_string(),
                };
                let model: String = match self.tiff.find_entry(Tag::Model) {
                    Some(entry) => entry.get_str().to_string(),
                    None => match self.tiff.find_entry(Tag::UniqueCameraModel) {
                        Some(entry) => entry.get_str().to_string(),
                        None => "DNG".to_string(),
                    },
                };
                let orientation: Orientation = Orientation::from_tiff(&self.tiff);
                (make.clone(), model.clone(), make, model, orientation)
            },
        }
    }

    fn describe(
        &self,
        raw: &TiffIFD,
        width: usize,
        height: usize,
        cpp: usize,
        data: Vec<u16>,
        cfa: CFA,
    ) -> (res: Result<RawImage, String>)
        requires
            described_readable(self@, *raw, width, height),
        ensures
            same_raw(res, described_image(self@, *raw, width, height, cpp, data@, cfa@)),
    {
        let (make, model, clean_make, clean_model, orientation): (
            String,
            String,
            String,
            String,
            Orientation,
        ) = self.names();
        let blacklevels: [u16; 4] = self.base_blacklevels(raw);
        let whitelevels: [u16; 4] = match self.get_whitelevels(raw) {
            Ok(levels) => levels,
            Err(text) => return Err(text),
        };
        let xyz_to_cam: [[u32; 3]; 4] = match self.get_color_matrix() {
            Ok(matrix) => matrix,
            Err(text) => return Err(text),
        };
        let crops: [usize; 4] = match self.get_crops(raw, width, height) {
            Ok(crops) => crops,
            Err(text) => return Err(text),
        };
        let blackareas: Vec<(u64, u64, u64, u64)> = self.get_masked_areas(raw);
        Ok(
            RawImage {
                make,
                model,
                clean_make,
                clean_model,
                width,
                height,
                cpp,
                data,
                blacklevels,
                whitelevels,
                xyz_to_cam,
                cfa,
                crops,
                blackareas,
                orientation,
            },
        )
    }

    fn stored(&self, raw: &TiffIFD, width: usize, height: usize, cpp: usize, dummy: bool) -> (res:
        Result<Vec<u16>, String>)
        requires
            stored_readable(self@.buffer, *raw, width, height, cpp, dummy),
            raw.entry(Tag::Compression) matches Some(entry) && entry.count() > 0,
        ensures
            exists|planes: spec_fn(int) -> Seq<u8>|
                same_image(
                    res,
                    #[trigger] stored_image(
                        self@.buffer,
                        *raw,
                        width,
                        height,
                        cpp,
                        planes,
                        dummy,
                    ),
                ),
    {
        let ghost none: spec_fn(int) -> Seq<u8> = |tile: int| seq![];
        // The result where nothing comes out of the decoder.
        let ghost unread = stored_image(self@.buffer, *raw, width, height, cpp, none, dummy);
        let compression: u32 = match raw.find_entry(Tag::Compression) {
            Some(entry) => entry.get_u32(0),
            None => 0,
        };
        match compression {
            1 => self.decode_uncompressed(raw, width * cpp, height, dummy),
            7 => {
                let res: Result<Vec<u16>, String> = self.decode_compressed(
                    raw,
                    width * cpp,
                    height,
                    cpp,
                    dummy,
                );
                proof {
                    let samples = (width * cpp) as usize;
                    let planes = choose|planes: spec_fn(int) -> Seq<u8>|
                        same_image(
                            res,
                            #[trigger] compressed_image(
                                self@.buffer,
                                *raw,
                                samples,
                                height,
                                cpp,
                                planes,
                                dummy,
                            ),
                        );
                    assert(same_image(
                        res,
                        stored_image(self@.buffer, *raw, width, height, cpp, planes, dummy),
                    ));
                }
                res
            },
            c => Err(number_after("Don't know how to read DNGs with compression ", c as usize)),
        }
    }

    fn filters(&self, raw: &TiffIFD, linear: bool) -> (res: Result<CFA, String>)
        ensures
            match (res, filters_of(*raw, linear)) {
                (Ok(cfa), Ok(pattern)) => cfa@ == pattern,
                (Err(text), Err(message)) => text@ == message,
                _ => false,
            },
    {
        if linear {
            proof {
                reveal_strlit("");
            }
            let none: CFA = CFA::new("");
            assert(none@.name =~= seq![]);
            Ok(none)
        } else {
            self.get_cfa(raw)
        }
    }

    /// The raw image of the file, but for its white balance and the offsets of its black levels. A
    /// dummy read leaves its samples out.
    pub fn image(&self, dummy: bool) -> (res: Result<RawImage, String>)
        requires
            dng_readable(self@, dummy),
        ensures
            exists|planes: spec_fn(int) -> Seq<u8>|
                same_raw(res, #[trigger] dng_image(self@, planes, dummy)),
    {
        let ghost none: spec_fn(int) -> Seq<u8> = |tile: int| seq![];
        // The result where nothing comes out of the decoder.
        let ghost unread = dng_image(self@, none, dummy);
        let raw: &TiffIFD = match self.find_raw() {
            Some(raw) => raw,
            None => return Err("DNG: no raw image".to_string()),
        };
        let width: usize = match self.first_size(raw, Tag::ImageWidth) {
            Ok(n) => n,
            Err(text) => return Err(text),
        };
        let height: usize = match self.first_size(raw, Tag::ImageLength) {
            Ok(n) => n,
            Err(text) => return Err(text),
        };
        let cpp: usize = match self.first_size(raw, Tag::SamplesPerPixel) {
            Ok(n) => n,
            Err(text) => return Err(text),
        };
        let linear: bool = match self.first_size(raw, Tag::PhotometricInt) {
            Ok(n) => n == 34892,
            Err(text) => return Err(text),
        };
        let stored: Result<Vec<u16>, String> = self.stored(raw, width, height, cpp, dummy);
        let ghost planes = choose|planes: spec_fn(int) -> Seq<u8>|
            same_image(
                stored,
                #[trigger] stored_image(self@.buffer, *raw, width, height, cpp, planes, dummy),
            );
        let ghost expected = dng_image(self@, planes, dummy);
        let mut image: Vec<u16> = match stored {
            Ok(image) => image,
            Err(text) => return Err(text),
        };
        let done: Result<(), String> = self.apply_linearization(image.as_mut_slice(), dummy);
        if let Err(text) = done {
            return Err(text);
        }
        let cfa: CFA = match self.filters(raw, linear) {
            Ok(cfa) => cfa,
            Err(text) => return Err(text),
        };
        self.describe(raw, width, height, cpp, image, cfa)
    }

    /// [`DngDecoder::image`], where the file can be read; `None` where an entry lacks a value that
    /// reading it takes, or the image does not fit the machine.
    pub fn try_image(&self, dummy: bool) -> (res: Option<Result<RawImage, String>>)
        ensures
            match res {
                Some(done) => dng_readable(self@, dummy) && exists|planes: spec_fn(int) -> Seq<u8>|
                    same_raw(done, #[trigger] dng_image(self@, planes, dummy)),
                None => !dng_readable(self@, dummy),
            },
    {
        let ghost none: spec_fn(int) -> Seq<u8> = |tile: int| seq![];
        // The result where nothing comes out of the decoder.
        let ghost unread = dng_image(self@, none, dummy);
        if !self.can_find_raw() {
            return None;
        }
        let raw: &TiffIFD = match self.find_raw() {
            Some(raw) => raw,
            None => return None,
        };
        if !filled(raw, Tag::ImageWidth) {
            return None;
        }
        let width: usize = match self.first_size(raw, Tag::ImageWidth) {
            Ok(n) => n,
            Err(text) => return Some(Err(text)),
        };
        if !filled(raw, Tag::ImageLength) {
            return None;
        }
        let height: usize = match self.first_size(raw, Tag::ImageLength) {
            Ok(n) => n,
            Err(text) => return Some(Err(text)),
        };
        if !filled(raw, Tag::SamplesPerPixel) {
            return None;
        }
        let cpp: usize = match self.first_size(raw, Tag::SamplesPerPixel) {
            Ok(n) => n,
            Err(text) => return Some(Err(text)),
        };
        if !filled(raw, Tag::PhotometricInt) {
            return None;
        }
        let linear: bool = match self.first_size(raw, Tag::PhotometricInt) {
            Ok(n) => n == 34892,
            Err(text) => return Some(Err(text)),
        };
        if !self.can_be_stored(raw, width, height, cpp, dummy) {
            return None;
        }
        if self.can_be_described(raw, width, height) {
            return Some(self.image(dummy));
        }
        let stored: Result<Vec<u16>, String> = self.stored(raw, width, height, cpp, dummy);
        let ghost planes = choose|planes: spec_fn(int) -> Seq<u8>|
            same_image(
                stored,
                #[trigger] stored_image(self@.buffer, *raw, width, height, cpp, planes, dummy),
            );
        let ghost expected = dng_image(self@, planes, dummy);
        proof {
            assert forall|others: spec_fn(int) -> Seq<u8>|
                same_fate(
                    stored_image(self@.buffer, *raw, width, height, cpp, planes, dummy),
                    #[trigger] stored_image(
                        self@.buffer,
                        *raw,
                        width,
                        height,
                        cpp,
                        others,
                        dummy,
                    ),
                ) by {
                lemma_stored_fate(
                    self@.buffer,
                    *raw,
                    width,
                    height,
                    cpp,
                    planes,
                    others,
                    dummy,
                );
            }
        }
        let mut image: Vec<u16> = match stored {
            Ok(image) => image,
            Err(text) => return Some(Err(text)),
        };
        let done: Result<(), String> = self.apply_linearization(image.as_mut_slice(), dummy);
        if let Err(text) = done {
            return Some(Err(text));
        }
        match self.filters(raw, linear) {
            Ok(_) => None,
            Err(text) => Some(Err(text)),
        }
    }

    fn can_be_described(&self, raw: &TiffIFD, width: usize, height: usize) -> (described: bool)
        ensures
            described == described_readable(self@, *raw, width, height),
    {
        let oriented: bool = match self.rawloader.check_supported(&self.tiff) {
            Ok(_) => true,
            Err(_) => filled(&self.tiff, Tag::Orientation),
        };
        if !oriented || !filled(raw, Tag::BlackLevels) || !filled(raw, Tag::WhiteLevel) {
            return false;
        }
        match raw.find_entry(Tag::MaskedAreas) {
            Some(entry) => entry.count() % 4 == 0 || self.get_whitelevels(raw).is_err()
                || self.get_color_matrix().is_err() || self.get_crops(raw, width, height).is_err(),
            None => true,
        }
    }

    fn can_be_stored(
        &self,
        raw: &TiffIFD,
        width: usize,
        height: usize,
        cpp: usize,
        dummy: bool,
    ) -> (stored: bool)
        requires
            raw.entry(Tag::Compression) matches Some(entry) && entry.count() > 0,
        ensures
            stored == stored_readable(self@.buffer, *raw, width, height, cpp, dummy),
    {
        let compression: u32 = match raw.find_entry(Tag::Compression) {
            Some(entry) => entry.get_u32(0),
            None => 0,
        };
        if compression != 1 && compression != 7 {
            return true;
        }
        match width.checked_mul(cpp) {
            Some(samples) => if compression == 1 {
                self.can_be_unpacked(raw, samples, height, dummy)
            } else {
                self.can_be_decompressed(raw, samples, height, cpp, dummy)
            },
            None => false,
        }
    }

    fn can_be_unpacked(&self, raw: &TiffIFD, width: usize, height: usize, dummy: bool) -> (unpacked:
        bool)
        ensures
            unpacked == uncompressed_readable(self@.buffer, *raw, width, height, dummy),
    {
        let offset: usize = match raw.find_entry(Tag::StripOffsets) {
            Some(entry) => {
                if entry.count() == 0 {
                    return false;
                }
                entry.get_usize(0)
            },
            None => return true,
        };
        if offset >= self.buffer.len() {
            return true;
        }
        match raw.find_entry(Tag::BitsPerSample) {
            Some(entry) => {
                if entry.count() == 0 {
                    return false;
                }
                let bits: u32 = entry.get_u32(0);
                dummy || !(bits == 16 || bits == 12 || bits == 10) || width.checked_mul(
                    height,
                ).is_some()
            },
            None => true,
        }
    }

    fn can_be_decompressed(
        &self,
        raw: &TiffIFD,
        width: usize,
        height: usize,
        cpp: usize,
        dummy: bool,
    ) -> (decompressed: bool)
        ensures
            decompressed == compressed_readable(self@.buffer, *raw, width, height, cpp, dummy),
    {
        if let Some(offsets) = raw.find_entry(Tag::StripOffsets) {
            return can_read_strip(self.buffer, raw, offsets, width, height, dummy);
        }
        let offsets: &TiffEntry = match raw.find_entry(Tag::TileOffsets) {
            Some(offsets) => offsets,
            None => return true,
        };
        let twidth: usize = match raw.find_entry(Tag::TileWidth) {
            Some(entry) => {
                if entry.count() == 0 {
                    return false;
                }
                match entry.get_usize(0).checked_mul(cpp) {
                    Some(twidth) => twidth,
                    None => return false,
                }
            },
            None => return true,
        };
        let tlength: usize = match raw.find_entry(Tag::TileLength) {
            Some(entry) => {
                if entry.count() == 0 {
                    return false;
                }
                entry.get_usize(0)
            },
            None => return true,
        };
        can_read_tiles(self.buffer, raw, offsets, width, height, twidth, tlength, dummy)
    }
}

/// The samples of DCT-compressed data have no part in whether a raw image can be read.
proof fn lemma_stored_fate(
    buffer: Seq<u8>,
    raw: TiffIFD,
    width: usize,
    height: usize,
    cpp: usize,
    planes: spec_fn(int) -> Seq<u8>,
    others: spec_fn(int) -> Seq<u8>,
    dummy: bool,
)
    ensures
        same_fate(
            stored_image(buffer, raw, width, height, cpp, planes, dummy),
            stored_image(buffer, raw, width, height, cpp, others, dummy),
        ),
{
    let samples = (width * cpp) as usize;
    if let Some(offsets) = raw.entry(Tag::StripOffsets) {
        strips_have_one_fate(
            buffer,
            raw,
            offsets,
            samples,
            height,
            dummy,
            planes(0),
            others(0),
        );
    } else if let (Some(offsets), Some(twidth), Some(tlength)) = (
        raw.entry(Tag::TileOffsets),
        raw.entry(Tag::TileWidth),
        raw.entry(Tag::TileLength),
    ) {
        tiles_have_one_fate(
            buffer,
            raw,
            offsets,
            tiling_of(samples, height, cpp, twidth, tlength),
            planes,
            others,
            dummy,
        );
    }
}

impl<'a> DngDecoder<'a> {
    fn can_find_raw(&self) -> (findable: bool)
        ensures
            findable == raw_findable(self@.tiff),
    {
        let ifds: Vec<&TiffIFD> = self.tiff.find_ifds_with_tag(Tag::Compression);
        let ghost all = with_tag(self@.tiff.directories(), Tag::Compression);
        let mut i: usize = 0;
        while i < ifds.len()
            invariant
                i <= ifds@.len(),
                all == with_tag(self@.tiff.directories(), Tag::Compression),
                pointed(ifds@) == all,
                forall|j: int|
                    0 <= j < i ==> {
                        &&& (#[trigger] all[j]).entry(Tag::Compression) matches Some(entry)
                            && entry.count() > 0
                        &&& has_value(all[j].entry(Tag::NewSubFileType))
                    },
            decreases ifds@.len() - i,
        {
            let ifd: &TiffIFD = ifds[i];
            proof {
                assert(all[i as int] == pointed(ifds@)[i as int]);
                assert(*ifd == all[i as int]);
            }
            match ifd.find_entry(Tag::Compression) {
                Some(entry) => if entry.count() == 0 {
                    return false;
                },
                None => return false,
            }
            if !filled(ifd, Tag::NewSubFileType) {
                return false;
            }
            i = i + 1;
        }
        assert(all.len() == pointed(ifds@).len());
        true
    }

}

fn filled(ifd: &TiffIFD, tag: Tag) -> (filled: bool)
    ensures
        filled == has_value(ifd.entry(tag)),
{
    match ifd.find_entry(tag) {
        Some(entry) => entry.count() > 0,
        None => true,
    }
}

fn bits_at(entry: &TiffEntry, i: usize) -> (bits: u32)
    ensures
        bits == matrix_bits(*entry, i as int),
{
    if i < entry.count() {
        entry.get_number(i).bits
    } else {
        0
    }
}

/// A linearized sample is an entry of the table: that of its code, or the last one for a code above
/// the table.
pub proof fn linearized_samples_are_table_entries(code: u16, table: Seq<u16>)
    requires
        table.len() > 0,
    ensures
        code < table.len() ==> linearized(code, table) == table[code as int],
        code >= table.len() ==> linearized(code, table) == table[table.len() - 1],
{
}

/// Linearization gives one sample for each code.
pub proof fn linearization_keeps_the_size(tiff: TiffIFD, codes: Seq<u16>, dummy: bool)
    requires
        linearization(tiff, codes, dummy) is Ok,
    ensures
        (linearization(tiff, codes, dummy)->Ok_0).len() == codes.len(),
{
}

/// An image that has been read, and not as a dummy, has a sample for every place.
pub proof fn dng_image_is_complete(file: DngFile, planes: spec_fn(int) -> Seq<u8>)
    requires
        dng_readable(file, false),
        dng_image(file, planes, false) is Ok,
    ensures
        ({
            let image = dng_image(file, planes, false)->Ok_0;
            image.data.len() == image.width * image.cpp * image.height
        }),
{
    let image = dng_image(file, planes, false)->Ok_0;
    let raw = raw_ifd(file.tiff)->0;
    let samples = (image.width * image.cpp) as usize;
    assert(0 <= image.width * image.cpp) by (nonlinear_arith);
    let codes = stored_image(
        file.buffer,
        raw,
        image.width,
        image.height,
        image.cpp,
        planes,
        false,
    )->Ok_0;
    assert(samples * image.height == image.width * image.cpp * image.height);
    if (raw.entry(Tag::Compression)->0).integer(0) == 1 {
        assert(0 <= samples * image.height) by (nonlinear_arith);
        assert(codes.len() == samples * image.height);
    } else {
        match raw.entry(Tag::StripOffsets) {
            Some(offsets) => {
                crate::dng::jpeg::strip_image_is_complete(
                    file.buffer,
                    raw,
                    offsets,
                    samples,
                    image.height,
                    planes(0),
                );
            },
            None => {
                crate::dng::jpeg::tiled_image_is_complete(
                    file.buffer,
                    raw,
                    raw.entry(Tag::TileOffsets)->0,
                    tiling_of(
                        samples,
                        image.height,
                        image.cpp,
                        raw.entry(Tag::TileWidth)->0,
                        raw.entry(Tag::TileLength)->0,
                    ),
                    planes,
                );
            },
        }
    }
}

/// The crop of an image that has been read leaves some of it.
pub proof fn dng_crop_leaves_an_image(
    file: DngFile,
    planes: spec_fn(int) -> Seq<u8>,
    dummy: bool,
)
    requires
        dng_image(file, planes, dummy) is Ok,
    ensures
        ({
            let image = dng_image(file, planes, dummy)->Ok_0;
            &&& image.crops[0] + image.crops[2] < image.height
            &&& image.crops[1] + image.crops[3] < image.width
        }),
{
    let image = dng_image(file, planes, dummy)->Ok_0;
    let raw = raw_ifd(file.tiff)->0;
    let active = raw.entry(Tag::ActiveArea);
    let area = match active {
        Some(entry) => [
            entry.integer(0) as usize,
            entry.integer(1) as usize,
            entry.integer(2) as usize,
            entry.integer(3) as usize,
        ],
        None => [0, 0, image.height, image.width],
    };
    let origin = raw.entry(Tag::DefaultCropOrigin);
    let size = raw.entry(Tag::DefaultCropSize);
    let default_crop = if origin is Some && size is Some {
        Some((pair_of(origin->0), pair_of(size->0)))
    } else {
        None
    };
    assert(crop_result(image.width, image.height, area, default_crop) is Ok);
    crate::dng::crop::crop_lies_in_the_active_area(image.width, image.height, area, default_crop);
}

/// The linearization table of a file applies to the stored codes of its image, however they are
/// stored.
pub proof fn image_samples_are_linearized(file: DngFile, planes: spec_fn(int) -> Seq<u8>)
    requires
        dng_image(file, planes, false) is Ok,
        file.tiff.entry(Tag::Linearization) is Some,
    ensures
        ({
            let image = dng_image(file, planes, false)->Ok_0;
            let raw = raw_ifd(file.tiff)->0;
            let entry = file.tiff.entry(Tag::Linearization)->0;
            let stored = stored_image(
                file.buffer,
                raw,
                image.width,
                image.height,
                image.cpp,
                planes,
                false,
            );
            let table = table_of(entry, entry.count() as nat);
            &&& stored is Ok
            &&& table is Ok
            &&& image.data == (stored->Ok_0).map_values(
                |code: u16| linearized(code, table->Ok_0),
            )
        }),
{
}

/// A dummy read gives what the read gives, but for the samples.
pub proof fn dummy_reads_leave_the_samples_out(
    file: DngFile,
    planes: spec_fn(int) -> Seq<u8>,
    others: spec_fn(int) -> Seq<u8>,
)
    requires
        dng_image(file, planes, false) is Ok,
    ensures
        dng_image(file, others, true) == Ok::<Raw, Seq<char>>(
            (Raw { data: dummy_image(), ..dng_image(file, planes, false)->Ok_0 }),
        ),
{
}

/// What the decoder gives for the samples of DCT-compressed data has no part in anything else:
/// whether a file can be read, the message if not, and what comes with the samples if so.
pub proof fn samples_of_planes_are_all_that_is_open(
    file: DngFile,
    planes: spec_fn(int) -> Seq<u8>,
    others: spec_fn(int) -> Seq<u8>,
    dummy: bool,
)
    ensures
        match (dng_image(file, planes, dummy), dng_image(file, others, dummy)) {
            (Ok(image), Ok(other)) => image.data.len() == other.data.len() && other == (Raw {
                data: other.data,
                ..image
            }),
            (Err(message), Err(other)) => message == other,
            _ => false,
        },
{
    let raw = raw_ifd(file.tiff)->0;
    if let (Ok(width), Ok(height), Ok(cpp)) = (
        first_value(raw, Tag::ImageWidth),
        first_value(raw, Tag::ImageLength),
        first_value(raw, Tag::SamplesPerPixel),
    ) {
        lemma_stored_fate(
            file.buffer,
            raw,
            width as usize,
            height as usize,
            cpp as usize,
            planes,
            others,
            dummy,
        );
    }
}

/// Byte counts that lead to the end of the file or past it do not count: an image with JPEG
/// compression can be read without them, and is then what it is with them.
pub proof fn byte_counts_past_the_end_do_not_count(
    buffer: Seq<u8>,
    raw: TiffIFD,
    other: TiffIFD,
    width: usize,
    height: usize,
    cpp: usize,
    planes: spec_fn(int) -> Seq<u8>,
    dummy: bool,
)
    requires
        raw.entry(Tag::StripOffsets) == other.entry(Tag::StripOffsets),
        raw.entry(Tag::TileOffsets) == other.entry(Tag::TileOffsets),
        raw.entry(Tag::TileWidth) == other.entry(Tag::TileWidth),
        raw.entry(Tag::TileLength) == other.entry(Tag::TileLength),
        raw.entry(Tag::WhiteLevel) == other.entry(Tag::WhiteLevel),
        raw.entry(Tag::StripOffsets) matches Some(offsets) ==> counts_lead_past(
            raw.entry(Tag::StripByteCounts),
            offsets,
            buffer.len() as int,
        ),
        raw.entry(Tag::StripOffsets) is None ==> (raw.entry(Tag::TileOffsets) matches Some(offsets)
            ==> counts_lead_past(raw.entry(Tag::TileByteCounts), offsets, buffer.len() as int) && (
        raw.entry(Tag::TileByteCounts) matches Some(entry) ==> entry.count() == offsets.count())),
        other.entry(Tag::StripByteCounts) is None,
        other.entry(Tag::TileByteCounts) is None,
        compressed_readable(buffer, raw, width, height, cpp, dummy),
    ensures
        compressed_image(buffer, raw, width, height, cpp, planes, dummy) == compressed_image(
            buffer,
            other,
            width,
            height,
            cpp,
            planes,
            dummy,
        ),
        compressed_readable(buffer, other, width, height, cpp, dummy),
{
    if let Some(offsets) = raw.entry(Tag::StripOffsets) {
        crate::dng::jpeg::strip_byte_counts_past_the_end(
            buffer,
            raw,
            other,
            offsets,
            width,
            height,
            dummy,
            planes(0),
        );
    } else if let (Some(offsets), Some(twidth), Some(tlength)) = (
        raw.entry(Tag::TileOffsets),
        raw.entry(Tag::TileWidth),
        raw.entry(Tag::TileLength),
    ) {
        crate::dng::jpeg::tile_byte_counts_past_the_end(
            buffer,
            raw,
            other,
            offsets,
            tiling_of(width, height, cpp, twidth, tlength),
            planes,
            dummy,
        );
    }
}

} // verus!
