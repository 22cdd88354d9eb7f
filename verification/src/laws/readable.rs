//! Which DNG files can be read.
use vstd::prelude::*;
use crate::camera::has_value;
use crate::dct::inspected;
use crate::dng::decoder::{compressed_readable, dng_readable, raw_findable, raw_ifd, stored_readable, tiling_of,
    uncompressed_readable, DngFile};
use crate::dng::jpeg::{jpeg_decodable, row_decodable, strip_readable, tile_decodable, tile_row, tile_source,
    tiles_readable, Tiling};
use crate::laws::dct::most_files_are_decoded_or_refused;
use crate::laws::tiff::{directories_come_before_those_below, lemma_own_is_found,
    the_raw_image_is_the_first_one};
use crate::region::Region;
use crate::tiff::{with_tag, Tag, TiffEntry, TiffIFD};

verus! {

/// The entries of a directory, and of those below it, have values.
pub open spec fn entries_have_values(ifd: TiffIFD) -> bool {
    forall|tag: Tag| (#[trigger] ifd.entry(tag)) matches Some(entry) ==> entry.count() > 0
}

/// No part of a file is JPEG data of an arithmetic coder.
pub open spec fn holds_no_arithmetic_scan(buffer: Seq<u8>) -> bool {
    forall|start: int, end: int|
        0 <= start <= end <= buffer.len() ==> !(inspected(#[trigger] buffer.subrange(start, end)) matches Ok(
            info,
        ) && (info.kind == "ExtendedSequentialArith"@ || info.kind == "ProgressiveArith"@))
}

/// An image is not empty, nor are the tiles it is cut into, and its samples fit the machine.
pub open spec fn has_a_size(raw: TiffIFD) -> bool {
    raw.entry(Tag::ImageWidth) matches Some(width) ==> raw.entry(Tag::ImageLength) matches Some(
        height,
    ) ==> raw.entry(Tag::SamplesPerPixel) matches Some(cpp) ==> {
        &&& width.integer(0) >= 1
        &&& height.integer(0) >= 1
        &&& cpp.integer(0) >= 1
        &&& width.integer(0) * cpp.integer(0) * height.integer(0) <= usize::MAX
        &&& raw.entry(Tag::TileWidth) matches Some(twidth) ==> twidth.integer(0) >= 1
            && twidth.integer(0) * cpp.integer(0) <= usize::MAX
        &&& raw.entry(Tag::TileLength) matches Some(tlength) ==> tlength.integer(0) >= 1
    }
}

proof fn lemma_jpeg_decodable(
    buffer: Seq<u8>,
    start: int,
    end: int,
    region: Region,
    len: nat,
    white: Option<TiffEntry>,
)
    requires
        0 <= start <= end <= buffer.len(),
        holds_no_arithmetic_scan(buffer),
        has_value(white),
    ensures
        jpeg_decodable(buffer.subrange(start, end), region, len, white),
{
    reveal(jpeg_decodable);
    most_files_are_decoded_or_refused(buffer.subrange(start, end), region, len);
}

proof fn lemma_few_tiles(tiling: Tiling)
    requires
        tiling.wf(),
    ensures
        0 <= tiling.coltiles() * tiling.rowtiles() <= tiling.width * tiling.height,
{
    let cols = tiling.coltiles();
    let rows = tiling.rowtiles();
    assert(1 <= cols <= tiling.width) by (nonlinear_arith)
        requires
            cols == (tiling.width - 1) / tiling.twidth + 1,
            tiling.width >= 1,
            tiling.twidth >= 1,
    ;
    assert(1 <= rows <= tiling.height) by (nonlinear_arith)
        requires
            rows == (tiling.height - 1) / tiling.tlength + 1,
            tiling.height >= 1,
            tiling.tlength >= 1,
    ;
    assert(0 <= cols * rows <= tiling.width * tiling.height) by (nonlinear_arith)
        requires
            1 <= cols <= tiling.width,
            1 <= rows <= tiling.height,
    ;
}

proof fn lemma_tiles_readable(
    buffer: Seq<u8>,
    raw: TiffIFD,
    offsets: TiffEntry,
    tiling: Tiling,
    dummy: bool,
)
    requires
        tiling.wf(),
        tiling.width * tiling.height <= usize::MAX,
        holds_no_arithmetic_scan(buffer),
        entries_have_values(raw),
    ensures
        tiles_readable(buffer, raw, offsets, tiling, dummy),
{
    lemma_few_tiles(tiling);
    let counts = raw.entry(Tag::TileByteCounts);
    assert forall|row: int| 0 <= row < tiling.rowtiles() implies #[trigger] row_decodable(
        buffer,
        raw,
        offsets,
        counts,
        tiling,
        row,
        tiling.coltiles() as nat,
    ) by {
        reveal(row_decodable);
        assert forall|planes: spec_fn(int) -> Seq<u8>, col: nat|
            col < tiling.coltiles() as nat && (#[trigger] tile_row(
                buffer,
                raw,
                offsets,
                counts,
                tiling,
                planes,
                row,
                col,
            )).1 is Ok implies tile_decodable(
            buffer,
            raw,
            offsets,
            counts,
            tiling,
            row,
            col as int,
        ) by {
            let tile = row * tiling.coltiles() + col;
            if let Ok(src) = tile_source(buffer, offsets, counts, tile) {
                let start = offsets.integer(tile) as int;
                let end = start + src.len();
                assert(src =~= buffer.subrange(start, end));
                lemma_jpeg_decodable(
                    buffer,
                    start,
                    end,
                    tiling.region(row, col as int),
                    (tiling.width * tiling.tile_height(row)) as nat,
                    raw.entry(Tag::WhiteLevel),
                );
            }
        }
    }
}

proof fn lemma_strip_readable(
    buffer: Seq<u8>,
    raw: TiffIFD,
    offsets: TiffEntry,
    width: usize,
    height: usize,
    dummy: bool,
)
    requires
        width * height <= usize::MAX,
        holds_no_arithmetic_scan(buffer),
        entries_have_values(raw),
    ensures
        strip_readable(buffer, raw, offsets, width, height, dummy),
{
    let start = offsets.integer(0) as int;
    let region = Region {
        x: 0,
        stripwidth: width as nat,
        width: width as nat,
        height: height as nat,
    };
    assert forall|end: int| start <= end <= buffer.len() implies jpeg_decodable(
        #[trigger] buffer.subrange(start, end),
        region,
        (width * height) as nat,
        raw.entry(Tag::WhiteLevel),
    ) by {
        lemma_jpeg_decodable(
            buffer,
            start,
            end,
            region,
            (width * height) as nat,
            raw.entry(Tag::WhiteLevel),
        );
    }
}

proof fn lemma_stored_readable(
    buffer: Seq<u8>,
    raw: TiffIFD,
    width: usize,
    height: usize,
    cpp: usize,
    dummy: bool,
)
    requires
        width >= 1,
        height >= 1,
        cpp >= 1,
        width * cpp * height <= usize::MAX,
        raw.entry(Tag::TileWidth) matches Some(twidth) ==> twidth.integer(0) >= 1 && twidth.integer(0)
            * cpp <= usize::MAX,
        raw.entry(Tag::TileLength) matches Some(tlength) ==> tlength.integer(0) >= 1,
        holds_no_arithmetic_scan(buffer),
        entries_have_values(raw),
    ensures
        stored_readable(buffer, raw, width, height, cpp, dummy),
{
    assert(1 <= width * cpp <= width * cpp * height) by (nonlinear_arith)
        requires
            width >= 1,
            cpp >= 1,
            height >= 1,
    ;
    let row = (width * cpp) as usize;
    if raw.entry(Tag::StripOffsets) is Some {
        lemma_strip_readable(buffer, raw, raw.entry(Tag::StripOffsets)->0, row, height, dummy);
    } else if raw.entry(Tag::TileOffsets) is Some && raw.entry(Tag::TileWidth) is Some && raw.entry(
        Tag::TileLength,
    ) is Some {
        let twidth = raw.entry(Tag::TileWidth)->0;
        let tlength = raw.entry(Tag::TileLength)->0;
        assert(twidth.integer(0) * cpp >= 1) by (nonlinear_arith)
            requires
                twidth.integer(0) >= 1,
                cpp >= 1,
        ;
        lemma_tiles_readable(
            buffer,
            raw,
            raw.entry(Tag::TileOffsets)->0,
            tiling_of(row, height, cpp, twidth, tlength),
            dummy,
        );
    }
    assert(uncompressed_readable(buffer, raw, row, height, dummy));
    assert(compressed_readable(buffer, raw, row, height, cpp, dummy));
}

proof fn lemma_with_tag(ifds: Seq<TiffIFD>, tag: Tag)
    requires
        forall|i: int| 0 <= i < ifds.len() ==> entries_have_values(#[trigger] ifds[i]),
    ensures
        forall|i: int|
            0 <= i < with_tag(ifds, tag).len() ==> entries_have_values(
                #[trigger] with_tag(ifds, tag)[i],
            ) && with_tag(ifds, tag)[i].entry(tag) is Some,
    decreases ifds.len(),
{
    if ifds.len() > 0 {
        let rest = ifds.skip(1);
        assert forall|i: int| 0 <= i < rest.len() implies entries_have_values(#[trigger] rest[i]) by {
            assert(rest[i] == ifds[i + 1]);
        }
        lemma_with_tag(rest, tag);
        lemma_own_is_found(ifds[0], tag);
        let all = with_tag(ifds, tag);
        let others = with_tag(rest, tag);
        assert forall|i: int| 0 <= i < all.len() implies entries_have_values(#[trigger] all[i])
            && all[i].entry(tag) is Some by {
            if ifds[0].own_entry(tag) is Some {
                if i > 0 {
                    assert(all[i] == others[i - 1]);
                } else {
                    assert(all[i] == ifds[0]);
                }
            } else {
                assert(all[i] == others[i]);
            }
        }
    }
}

/// A file can be read if it holds a raw image, its entries have values, those of masked areas four
/// for each, its image and its tiles are not empty, its samples fit the machine, and no arithmetic
/// coder wrote it.
pub proof fn sound_files_can_be_read(file: DngFile, raw: TiffIFD, dummy: bool)
    requires
        raw_ifd(file.tiff) == Some(raw),
        forall|i: int|
            0 <= i < file.tiff.directories().len() ==> entries_have_values(
                #[trigger] file.tiff.directories()[i],
            ),
        has_a_size(raw),
        raw.entry(Tag::MaskedAreas) matches Some(areas) ==> areas.count() % 4 == 0,
        holds_no_arithmetic_scan(file.buffer),
    ensures
        dng_readable(file, dummy),
{
    let ifds = file.tiff.directories();
    directories_come_before_those_below(file.tiff);
    the_raw_image_is_the_first_one(file.tiff);
    lemma_with_tag(ifds, Tag::Compression);
    assert(entries_have_values(ifds[0]));
    assert(raw_findable(file.tiff));
    assert(entries_have_values(raw));
    if raw.entry(Tag::ImageWidth) is Some && raw.entry(Tag::ImageLength) is Some && raw.entry(
        Tag::SamplesPerPixel,
    ) is Some {
        let width = (raw.entry(Tag::ImageWidth)->0).integer(0) as usize;
        let height = (raw.entry(Tag::ImageLength)->0).integer(0) as usize;
        let cpp = (raw.entry(Tag::SamplesPerPixel)->0).integer(0) as usize;
        lemma_stored_readable(file.buffer, raw, width, height, cpp, dummy);
    }
}

} // verus!
