//! What an image of strips or tiles holds of the data that they are.
use vstd::prelude::*;
use crate::dct::{dct_decode_fills_the_destination, dct_layout, dct_result, inspected, picture_of, FrameInfo,
    PictureInfo};
use crate::dng::decoder::{compressed_image, tiling_of};
use crate::dng::jpeg::{blank, fills_a_rectangle, jpeg_result, lemma_sample_of_a_tile,
    lemma_tile_row_len, lemma_tiles_along, tile_row, tile_rows, tile_source, tiles_cover_the_image, Tiling};
use crate::laws::dct::{is_nearest, pictures_are_placed_by_rows, plane_holds};
use crate::laws::scan::{decoding_gives_back_the_samples, is_written};
use crate::ljpeg::frame::Frame;
use crate::ljpeg::header::ljpeg_file;
use crate::ljpeg::scan::{standard_decode_fills_the_destination, standard_layout, standard_result};
use crate::region::Region;
use crate::tiff::{Tag, TiffEntry, TiffIFD};
use crate::unpack::dummy_image;

verus! {

/// A rectangle that is all there is.
pub open spec fn whole(width: int, height: int) -> Region {
    Region { x: 0, stripwidth: width as nat, width: width as nat, height: height as nat }
}

/// JPEG data decoded by itself.
pub open spec fn decoded_alone(
    src: Seq<u8>,
    width: int,
    height: int,
    white: Option<TiffEntry>,
    bytes: Seq<u8>,
) -> (Seq<u16>, bool) {
    let (samples, res) = jpeg_result(
        src,
        blank((width * height) as nat),
        whole(width, height),
        white,
        bytes,
    );
    (samples, res is Ok)
}

/// JPEG data that fills a rectangle is decoded into a rectangle of an image as it is decoded by
/// itself.
pub proof fn rectangles_are_decoded_alike(
    src: Seq<u8>,
    out: Seq<u16>,
    region: Region,
    white: Option<TiffEntry>,
    bytes: Seq<u8>,
)
    requires
        fills_a_rectangle(src),
        region.width > 0,
        region.height > 0,
        region.x + region.width <= region.stripwidth <= usize::MAX,
        (region.height - 1) * region.stripwidth + region.x + region.width <= out.len() <= usize::MAX,
        region.width * region.height <= usize::MAX,
    ensures
        ({
            let (samples, res) = jpeg_result(src, out, region, white, bytes);
            let (alone, done) = decoded_alone(
                src,
                region.width as int,
                region.height as int,
                white,
                bytes,
            );
            &&& res is Ok <==> done
            &&& done ==> forall|r: int, c: int|
                0 <= r < region.height && 0 <= c < region.width ==> #[trigger] samples[region.x + r
                    * region.stripwidth + c] == alone[r * region.width + c]
        }),
{
    reveal(jpeg_result);
    let own = whole(region.width as int, region.height as int);
    let empty = blank((region.width * region.height) as nat);
    assert(own.extent() == region.width * region.height) by (nonlinear_arith)
        requires
            own.extent() == (region.height - 1) * region.width + region.width,
    ;
    let (samples, res) = jpeg_result(src, out, region, white, bytes);
    let (alone, own_res) = jpeg_result(src, empty, own, white, bytes);
    match ljpeg_file(src) {
        Ok(frame) => {
            assert(standard_layout(frame, region, out.len()) is Ok <==> standard_layout(
                frame,
                own,
                empty.len(),
            ) is Ok);
            if own_res is Ok {
                assert forall|r: int, c: int|
                    0 <= r < region.height && 0 <= c < region.width implies #[trigger] samples[region.x
                    + r * region.stripwidth + c] == alone[r * region.width + c] by {
                    standard_decode_fills_the_destination(frame, out, region, r, c);
                    standard_decode_fills_the_destination(frame, empty, own, r, c);
                    assert(region.at(r, c) == region.x + r * region.stripwidth + c);
                    assert(own.at(r, c) == r * region.width + c);
                }
            }
        },
        Err(_) => {
            if let (Some(entry), Ok(info)) = (white, inspected(src)) {
                let picture = picture_of(src, info, bytes);
                assert(dct_layout(info, region, out.len()) is Ok <==> dct_layout(
                    info,
                    own,
                    empty.len(),
                ) is Ok);
                if own_res is Ok {
                    assert forall|r: int, c: int|
                        0 <= r < region.height && 0 <= c
                            < region.width implies #[trigger] samples[region.x + r
                        * region.stripwidth + c] == alone[r * region.width + c] by {
                        dct_decode_fills_the_destination(
                            info,
                            picture,
                            out,
                            region,
                            entry.integer(0),
                            r,
                            c,
                        );
                        dct_decode_fills_the_destination(
                            info,
                            picture,
                            empty,
                            own,
                            entry.integer(0),
                            r,
                            c,
                        );
                        assert(region.at(r, c) == region.x + r * region.stripwidth + c);
                        assert(own.at(r, c) == r * region.width + c);
                    }
                }
            }
        },
    }
}

/// The bytes of a file from an offset on: as many as are counted, if they are, and no more than
/// there are.
pub open spec fn counted_bytes(
    buffer: Seq<u8>,
    offset: int,
    counts: Option<TiffEntry>,
    i: int,
) -> Seq<u8> {
    match counts {
        Some(entry) => if offset + entry.integer(i) <= buffer.len() {
            buffer.subrange(offset, offset + entry.integer(i))
        } else {
            buffer.skip(offset)
        },
        None => buffer.skip(offset),
    }
}

/// The smallest number of pieces of a length that make up a whole.
pub open spec fn pieces(whole: int, piece: int) -> int {
    (whole + piece - 1) / piece
}

proof fn lemma_pieces(n: int, piece: int)
    requires
        1 <= n,
        1 <= piece,
    ensures
        pieces(n, piece) == (n - 1) / piece + 1,
        1 <= pieces(n, piece),
{
    vstd::arithmetic::div_mod::lemma_div_plus_one(n - 1, piece);
    vstd::arithmetic::div_mod::lemma_div_pos_is_pos(n - 1, piece);
}

/// The entries of an image that is cut into tiles: `twidth` and `tlength` are the width of a tile in
/// pixels and its height, and the image has a width in samples, of which `cpp` make up a pixel.
pub open spec fn has_tiles(
    raw: TiffIFD,
    offsets: TiffEntry,
    twidth: TiffEntry,
    tlength: TiffEntry,
) -> bool {
    &&& raw.entry(Tag::StripOffsets) is None
    &&& raw.entry(Tag::TileOffsets) == Some(offsets)
    &&& raw.entry(Tag::TileWidth) == Some(twidth)
    &&& raw.entry(Tag::TileLength) == Some(tlength)
}

/// An image of tiles has as many of them as it takes to cover it, where a tile is as many pixels
/// wide and high as its entries say, and a pixel is `cpp` samples. One with that many offsets, and
/// byte counts if any, is not refused for their number, and no other is read, not even as a dummy.
pub proof fn tiles_cover_whole_pixels(
    buffer: Seq<u8>,
    raw: TiffIFD,
    offsets: TiffEntry,
    twidth: TiffEntry,
    tlength: TiffEntry,
    width: usize,
    height: usize,
    cpp: usize,
    planes: spec_fn(int) -> Seq<u8>,
    dummy: bool,
)
    requires
        has_tiles(raw, offsets, twidth, tlength),
        width >= 1,
        height >= 1,
        twidth.integer(0) * cpp >= 1,
        tlength.integer(0) >= 1,
    ensures
        ({
            let tiles = pieces(width as int, twidth.integer(0) * cpp) * pieces(
                height as int,
                tlength.integer(0) as int,
            );
            let matching = offsets.count() == tiles && (raw.entry(Tag::TileByteCounts) matches Some(
                counts,
            ) ==> counts.count() == tiles);
            let image = compressed_image(buffer, raw, width, height, cpp, planes, dummy);
            &&& image is Ok ==> matching
            &&& dummy && matching ==> image is Ok
        }),
{
    lemma_pieces(width as int, twidth.integer(0) * cpp);
    lemma_pieces(height as int, tlength.integer(0) as int);
}

/// In an image of tiles that has been read, the sample in a row and a column is that of the tile
/// which covers it, decoded by itself: tiles are numbered row by row, a tile is its width in pixels
/// times the samples of a pixel wide, and its data starts at its offset. Those at the right and at
/// the bottom are cut to the image. The tile and those to its right fill rectangles.
pub proof fn samples_come_from_their_tiles(
    buffer: Seq<u8>,
    raw: TiffIFD,
    offsets: TiffEntry,
    twidth: TiffEntry,
    tlength: TiffEntry,
    width: usize,
    height: usize,
    cpp: usize,
    planes: spec_fn(int) -> Seq<u8>,
    x: int,
    y: int,
)
    requires
        has_tiles(raw, offsets, twidth, tlength),
        twidth.integer(0) * cpp >= 1,
        tlength.integer(0) >= 1,
        width * height <= usize::MAX,
        compressed_image(buffer, raw, width, height, cpp, planes, false) is Ok,
        0 <= x < width,
        0 <= y < height,
        ({
            let across = twidth.integer(0) * cpp;
            let down = tlength.integer(0) as int;
            let columns = pieces(width as int, across);
            forall|tile: int|
                (y / down) * columns + x / across <= tile < (y / down) * columns + columns
                    ==> #[trigger] fills_a_rectangle(
                    counted_bytes(
                        buffer,
                        offsets.integer(tile) as int,
                        raw.entry(Tag::TileByteCounts),
                        tile,
                    ),
                )
        }),
    ensures
        ({
            let image = compressed_image(buffer, raw, width, height, cpp, planes, false)->Ok_0;
            let across = twidth.integer(0) * cpp;
            let down = tlength.integer(0) as int;
            let tile = (y / down) * pieces(width as int, across) + x / across;
            let left = (x / across) * across;
            let top = (y / down) * down;
            let wide = if left + across <= width {
                across
            } else {
                width - left
            };
            let high = if top + down <= height {
                down
            } else {
                height - top
            };
            let offset = offsets.integer(tile) as int;
            let (alone, done) = decoded_alone(
                counted_bytes(buffer, offset, raw.entry(Tag::TileByteCounts), tile),
                wide,
                high,
                raw.entry(Tag::WhiteLevel),
                planes(tile),
            );
            &&& offset < buffer.len()
            &&& done
            &&& image[y * width + x] == alone[(y - top) * wide + (x - left)]
        }),
{
    let across = twidth.integer(0) * cpp;
    let down = tlength.integer(0) as int;
    let tiling = tiling_of(width, height, cpp, twidth, tlength);
    let counts = raw.entry(Tag::TileByteCounts);
    let columns = pieces(width as int, across);
    lemma_pieces(width as int, across);
    lemma_pieces(height as int, down);
    assert(tiling.coltiles() == columns);
    let row = y / down;
    let col = x / across;
    let tile = row * columns + col;
    assert forall|other: int|
        row * columns + col <= other < row * columns + columns implies (#[trigger] tile_source(
        buffer,
        offsets,
        counts,
        other,
    ) matches Ok(src) ==> fills_a_rectangle(src)) by {
        lemma_tile_bytes(buffer, offsets, counts, other);
        assert(fills_a_rectangle(
            counted_bytes(buffer, offsets.integer(other) as int, counts, other),
        ));
    }
    lemma_sample_of_a_tile(buffer, raw, offsets, tiling, planes, x, y);
    tiles_cover_the_image(tiling, x, y);
    lemma_tile_bytes(buffer, offsets, counts, tile);
    let src = tile_source(buffer, offsets, counts, tile)->Ok_0;
    let region = tiling.region(row, col);
    let strip = tile_row(buffer, raw, offsets, counts, tiling, planes, row, col as nat).0;
    let h = region.height as int;
    let w = width as int;
    assert(0 <= row * down) by (nonlinear_arith)
        requires
            0 <= row,
            1 <= down,
    ;
    assert(strip.len() == w * h);
    assert(w * h <= w * height) by (nonlinear_arith)
        requires
            h <= height,
            0 <= w,
    ;
    assert((h - 1) * w + region.x + region.width <= w * h) by (nonlinear_arith)
        requires
            region.x + region.width <= w,
    ;
    assert(region.width * h <= w * h) by (nonlinear_arith)
        requires
            region.width <= w,
            0 <= h,
    ;
    rectangles_are_decoded_alike(src, strip, region, raw.entry(Tag::WhiteLevel), planes(tile));
    let r = y - row * down;
    let c = x - region.x;
    let samples = jpeg_result(
        src,
        strip,
        region,
        raw.entry(Tag::WhiteLevel),
        planes(tile),
    ).0;
    assert(samples[region.x + r * region.stripwidth + c] == samples[region.at(r, c)]);
}

/// The data of a tile.
proof fn lemma_tile_bytes(
    buffer: Seq<u8>,
    offsets: TiffEntry,
    counts: Option<TiffEntry>,
    tile: int,
)
    ensures
        tile_source(buffer, offsets, counts, tile) matches Ok(src) ==> src == counted_bytes(
            buffer,
            offsets.integer(tile) as int,
            counts,
            tile,
        ) && offsets.integer(tile) < buffer.len(),
{
    let offset = offsets.integer(tile) as int;
    if tile_source(buffer, offsets, counts, tile) is Ok {
        assert(buffer.skip(offset) =~= buffer.subrange(offset, buffer.len() as int));
    }
}

/// An image of lossless tiles gives back the samples that the tiles were written from: the sample in
/// a row and a column is that of the pixel and the component of the tile which covers it, where the
/// frame of the tile is as large as the tile.
pub proof fn tiles_give_back_their_samples(
    buffer: Seq<u8>,
    raw: TiffIFD,
    offsets: TiffEntry,
    twidth: TiffEntry,
    tlength: TiffEntry,
    width: usize,
    height: usize,
    cpp: usize,
    planes: spec_fn(int) -> Seq<u8>,
    x: int,
    y: int,
    frame: Frame,
    written: spec_fn(int, int, int) -> int,
    starts: spec_fn(int) -> nat,
)
    requires
        has_tiles(raw, offsets, twidth, tlength),
        twidth.integer(0) * cpp >= 1,
        tlength.integer(0) >= 1,
        width * height <= usize::MAX,
        compressed_image(buffer, raw, width, height, cpp, planes, false) is Ok,
        0 <= x < width,
        0 <= y < height,
        frame.width * frame.cps >= twidth.integer(0) * cpp,
        frame.height >= tlength.integer(0),
        frame.cps <= 4,
        frame.width * frame.cps <= usize::MAX,
        frame.height * (frame.width * frame.cps) <= usize::MAX,
        is_written(frame, written, starts, frame.height as int),
        frame.sampling() is None,
        ({
            let across = twidth.integer(0) * cpp;
            let down = tlength.integer(0) as int;
            let columns = pieces(width as int, across);
            let tile = (y / down) * columns + x / across;
            &&& ljpeg_file(
                counted_bytes(
                    buffer,
                    offsets.integer(tile) as int,
                    raw.entry(Tag::TileByteCounts),
                    tile,
                ),
            ) == Ok::<Frame, Seq<char>>(frame)
            &&& forall|other: int|
                tile < other < (y / down) * columns + columns ==> #[trigger] fills_a_rectangle(
                    counted_bytes(
                        buffer,
                        offsets.integer(other) as int,
                        raw.entry(Tag::TileByteCounts),
                        other,
                    ),
                )
        }),
    ensures
        ({
            let image = compressed_image(buffer, raw, width, height, cpp, planes, false)->Ok_0;
            let across = twidth.integer(0) * cpp;
            let column = x % across;
            image[y * width + x] == written(
                y % (tlength.integer(0) as int),
                column / frame.cps as int,
                column % frame.cps as int,
            )
        }),
{
    let across = twidth.integer(0) * cpp;
    let down = tlength.integer(0) as int;
    let columns = pieces(width as int, across);
    let tile = (y / down) * columns + x / across;
    let counts = raw.entry(Tag::TileByteCounts);
    let src = counted_bytes(buffer, offsets.integer(tile) as int, counts, tile);
    assert(fills_a_rectangle(src));
    samples_come_from_their_tiles(
        buffer,
        raw,
        offsets,
        twidth,
        tlength,
        width,
        height,
        cpp,
        planes,
        x,
        y,
    );
    let left = (x / across) * across;
    let top = (y / down) * down;
    vstd::arithmetic::div_mod::lemma_fundamental_div_mod(x, across);
    vstd::arithmetic::div_mod::lemma_fundamental_div_mod(y, down);
    assert(across * (x / across) == left && down * (y / down) == top) by (nonlinear_arith)
        requires
            left == (x / across) * across,
            top == (y / down) * down,
    ;
    vstd::arithmetic::div_mod::lemma_div_pos_is_pos(x, across);
    vstd::arithmetic::div_mod::lemma_div_pos_is_pos(y, down);
    assert(0 <= left && 0 <= top) by (nonlinear_arith)
        requires
            left == (x / across) * across,
            top == (y / down) * down,
            0 <= x / across,
            0 <= y / down,
            1 <= across,
            1 <= down,
    ;
    let wide = if left + across <= width {
        across
    } else {
        width - left
    };
    let high = if top + down <= height {
        down
    } else {
        height - top
    };
    assert(wide * high <= width * height) by (nonlinear_arith)
        requires
            0 <= wide <= width,
            0 <= high <= height,
    ;
    let own = whole(wide, high);
    let empty = blank((wide * high) as nat);
    assert((high - 1) * wide + wide == wide * high) by (nonlinear_arith);
    decoding_gives_back_the_samples(frame, written, starts, empty, own);
    reveal(jpeg_result);
    let image = standard_result(frame, empty, own).0;
    let r = y - top;
    let c = x - left;
    assert(image[own.x + r * own.stripwidth + c] == image[r * wide + c]);
}

/// An image of one strip is its data decoded by itself: the bytes from the offset on, as many as are
/// counted. A dummy read needs no more than that they lie in the file.
pub proof fn strips_are_decoded_alone(
    buffer: Seq<u8>,
    raw: TiffIFD,
    offsets: TiffEntry,
    width: usize,
    height: usize,
    cpp: usize,
    planes: spec_fn(int) -> Seq<u8>,
)
    requires
        raw.entry(Tag::StripOffsets) == Some(offsets),
        offsets.count() == 1,
        offsets.integer(0) < buffer.len(),
        raw.entry(Tag::StripByteCounts) matches Some(counts) ==> offsets.integer(0)
            + counts.integer(0) <= usize::MAX,
    ensures
        ({
            let image = compressed_image(buffer, raw, width, height, cpp, planes, false);
            let (alone, done) = decoded_alone(
                counted_bytes(
                    buffer,
                    offsets.integer(0) as int,
                    raw.entry(Tag::StripByteCounts),
                    0,
                ),
                width as int,
                height as int,
                raw.entry(Tag::WhiteLevel),
                planes(0),
            );
            &&& image is Ok <==> done
            &&& done ==> image->Ok_0 == alone
            &&& compressed_image(buffer, raw, width, height, cpp, planes, true) == Ok::<
                Seq<u16>,
                Seq<char>,
            >(seq![0u16])
        }),
{
    let offset = offsets.integer(0) as int;
    assert(buffer.skip(offset) =~= buffer.subrange(offset, buffer.len() as int));
    assert(dummy_image() =~= seq![0u16]);
}

/// A piece of a whole that is cut into pieces of a length: all are of that length, but for the last
/// one, which is what is left.
pub open spec fn piece_length(whole: int, piece: int, i: int) -> int {
    if (i + 1) * piece <= whole {
        piece
    } else {
        whole - i * piece
    }
}

/// The data of a tile lies in the file, fills a rectangle, and can be decoded by itself.
pub open spec fn tile_is_sound(
    buffer: Seq<u8>,
    raw: TiffIFD,
    offsets: TiffEntry,
    width: int,
    height: int,
    across: int,
    down: int,
    planes: spec_fn(int) -> Seq<u8>,
    row: int,
    col: int,
) -> bool {
    let counts = raw.entry(Tag::TileByteCounts);
    let tile = row * pieces(width, across) + col;
    let offset = offsets.integer(tile) as int;
    let src = counted_bytes(buffer, offset, counts, tile);
    &&& offset < buffer.len()
    &&& counts matches Some(entry) ==> offset + entry.integer(tile) <= usize::MAX
    &&& fills_a_rectangle(src)
    &&& decoded_alone(
        src,
        piece_length(width, across, col),
        piece_length(height, down, row),
        raw.entry(Tag::WhiteLevel),
        planes(tile),
    ).1
}

proof fn lemma_sound_row(
    buffer: Seq<u8>,
    raw: TiffIFD,
    offsets: TiffEntry,
    tiling: Tiling,
    planes: spec_fn(int) -> Seq<u8>,
    row: int,
    n: nat,
)
    requires
        tiling.wf(),
        tiling.width <= usize::MAX,
        tiling.width * tiling.height <= usize::MAX,
        0 <= row < tiling.rowtiles(),
        n <= tiling.coltiles(),
        forall|col: int|
            0 <= col < tiling.coltiles() ==> #[trigger] tile_is_sound(
                buffer,
                raw,
                offsets,
                tiling.width,
                tiling.height,
                tiling.twidth,
                tiling.tlength,
                planes,
                row,
                col,
            ),
    ensures
        tile_row(
            buffer,
            raw,
            offsets,
            raw.entry(Tag::TileByteCounts),
            tiling,
            planes,
            row,
            n,
        ).1 is Ok,
    decreases n,
{
    if n > 0 {
        let counts = raw.entry(Tag::TileByteCounts);
        let col = n - 1;
        lemma_sound_row(buffer, raw, offsets, tiling, planes, row, col as nat);
        lemma_pieces(tiling.width, tiling.twidth);
        lemma_tiles_along(tiling.width, tiling.twidth, col);
        lemma_tiles_along(tiling.height, tiling.tlength, row);
        lemma_tile_row_len(buffer, raw, offsets, counts, tiling, planes, row, col as nat);
        let strip = tile_row(buffer, raw, offsets, counts, tiling, planes, row, col as nat).0;
        let tile = row * tiling.coltiles() + col;
        let region = tiling.region(row, col);
        assert(tile_is_sound(
            buffer,
            raw,
            offsets,
            tiling.width,
            tiling.height,
            tiling.twidth,
            tiling.tlength,
            planes,
            row,
            col,
        ));
        assert(tile_source(buffer, offsets, counts, tile) is Ok);
        lemma_tile_bytes(buffer, offsets, counts, tile);
        assert((col + 1) * tiling.twidth == col * tiling.twidth + tiling.twidth) by (nonlinear_arith);
        assert((row + 1) * tiling.tlength == row * tiling.tlength + tiling.tlength)
            by (nonlinear_arith);
        assert(region.width == piece_length(tiling.width, tiling.twidth, col));
        assert(region.height == piece_length(tiling.height, tiling.tlength, row));
        let w = tiling.width;
        let h = region.height as int;
        assert(w * h <= w * tiling.height) by (nonlinear_arith)
            requires
                h <= tiling.height,
                0 <= w,
        ;
        assert((h - 1) * w + region.x + region.width <= w * h) by (nonlinear_arith)
            requires
                region.x + region.width <= w,
        ;
        assert(region.width * h <= w * h) by (nonlinear_arith)
            requires
                region.width <= w,
                0 <= h,
        ;
        rectangles_are_decoded_alike(
            tile_source(buffer, offsets, counts, tile)->Ok_0,
            strip,
            region,
            raw.entry(Tag::WhiteLevel),
            planes(tile),
        );
    }
}

proof fn lemma_sound_rows(
    buffer: Seq<u8>,
    raw: TiffIFD,
    offsets: TiffEntry,
    tiling: Tiling,
    planes: spec_fn(int) -> Seq<u8>,
    n: nat,
)
    requires
        tiling.wf(),
        tiling.width <= usize::MAX,
        tiling.width * tiling.height <= usize::MAX,
        n <= tiling.rowtiles(),
        forall|row: int, col: int|
            0 <= row < tiling.rowtiles() && 0 <= col < tiling.coltiles() ==> #[trigger] tile_is_sound(
                buffer,
                raw,
                offsets,
                tiling.width,
                tiling.height,
                tiling.twidth,
                tiling.tlength,
                planes,
                row,
                col,
            ),
    ensures
        tile_rows(buffer, raw, offsets, raw.entry(Tag::TileByteCounts), tiling, planes, n) is Ok,
    decreases n,
{
    if n > 0 {
        lemma_sound_rows(buffer, raw, offsets, tiling, planes, (n - 1) as nat);
        lemma_pieces(tiling.width, tiling.twidth);
        lemma_sound_row(
            buffer,
            raw,
            offsets,
            tiling,
            planes,
            n - 1,
            tiling.coltiles() as nat,
        );
    }
}

/// An image of as many tiles as it takes to cover it, each of which can be decoded by itself, is
/// read.
pub proof fn sound_tiles_make_an_image(
    buffer: Seq<u8>,
    raw: TiffIFD,
    offsets: TiffEntry,
    twidth: TiffEntry,
    tlength: TiffEntry,
    width: usize,
    height: usize,
    cpp: usize,
    planes: spec_fn(int) -> Seq<u8>,
)
    requires
        has_tiles(raw, offsets, twidth, tlength),
        width >= 1,
        height >= 1,
        twidth.integer(0) * cpp >= 1,
        tlength.integer(0) >= 1,
        width * height <= usize::MAX,
        ({
            let across = twidth.integer(0) * cpp;
            let down = tlength.integer(0) as int;
            let columns = pieces(width as int, across);
            let rows = pieces(height as int, down);
            &&& offsets.count() == columns * rows
            &&& raw.entry(Tag::TileByteCounts) matches Some(counts) ==> counts.count() == columns
                * rows
            &&& forall|row: int, col: int|
                0 <= row < rows && 0 <= col < columns ==> #[trigger] tile_is_sound(
                    buffer,
                    raw,
                    offsets,
                    width as int,
                    height as int,
                    across,
                    down,
                    planes,
                    row,
                    col,
                )
        }),
    ensures
        compressed_image(buffer, raw, width, height, cpp, planes, false) is Ok,
{
    let tiling = tiling_of(width, height, cpp, twidth, tlength);
    lemma_pieces(width as int, twidth.integer(0) * cpp);
    lemma_pieces(height as int, tlength.integer(0) as int);
    lemma_sound_rows(buffer, raw, offsets, tiling, planes, tiling.rowtiles() as nat);
}

/// Lossless data that was written from samples gives them back where it is decoded by itself, into as
/// many rows and columns as it has, or fewer.
pub proof fn lossless_data_gives_back_its_samples(
    src: Seq<u8>,
    width: int,
    height: int,
    white: Option<TiffEntry>,
    bytes: Seq<u8>,
    frame: Frame,
    written: spec_fn(int, int, int) -> int,
    starts: spec_fn(int) -> nat,
)
    requires
        ljpeg_file(src) == Ok::<Frame, Seq<char>>(frame),
        !(frame.components[0].super_h == 2 && 1 <= frame.components[0].super_v <= 2),
        is_written(frame, written, starts, frame.height as int),
        frame.cps <= 4,
        frame.width * frame.cps <= usize::MAX,
        frame.height * (frame.width * frame.cps) <= usize::MAX,
        1 <= width <= frame.width * frame.cps,
        1 <= height <= frame.height,
    ensures
        ({
            let (samples, done) = decoded_alone(src, width, height, white, bytes);
            &&& done
            &&& forall|r: int, c: int|
                0 <= r < height && 0 <= c < width ==> #[trigger] samples[r * width + c] == written(
                    r,
                    c / frame.cps as int,
                    c % frame.cps as int,
                )
        }),
{
    reveal(jpeg_result);
    let own = whole(width, height);
    let empty = blank((width * height) as nat);
    assert((height - 1) * width + width == width * height) by (nonlinear_arith);
    let row_len = frame.width * frame.cps;
    assert(width * height <= frame.height * row_len) by (nonlinear_arith)
        requires
            0 <= width <= row_len,
            0 <= height <= frame.height,
    ;
    decoding_gives_back_the_samples(frame, written, starts, empty, own);
    let image = standard_result(frame, empty, own).0;
    assert forall|r: int, c: int| 0 <= r < height && 0 <= c < width implies #[trigger] image[r * width
        + c] == written(r, c / frame.cps as int, c % frame.cps as int) by {
        assert(image[own.x + r * own.stripwidth + c] == written(
            r,
            c / frame.cps as int,
            c % frame.cps as int,
        ));
    }
}

/// DCT-compressed data shows the plane that the decoder gives for it where it is decoded by itself:
/// every sample is the nearest one to that of its row and column of the plane, scaled to the white
/// level of the file.
pub proof fn dct_data_shows_its_plane(
    src: Seq<u8>,
    width: int,
    height: int,
    white: TiffEntry,
    bytes: Seq<u8>,
    info: FrameInfo,
    stride: usize,
    data: Seq<u8>,
    samples: spec_fn(int, int) -> int,
)
    requires
        ljpeg_file(src) is Err,
        inspected(src) == Ok::<FrameInfo, Seq<char>>(info),
        info.is_dct,
        info.components == 1,
        info.precision == 8 || info.precision == 12,
        picture_of(src, info, bytes) == PictureInfo::Planes(1, Some((stride, data))),
        plane_holds(data, stride as int, info, samples),
        1 <= width <= info.width,
        1 <= height <= info.height,
        width * height <= usize::MAX,
    ensures
        ({
            let (image, done) = decoded_alone(src, width, height, Some(white), bytes);
            let level = white.integer(0);
            &&& done
            &&& forall|r: int, c: int|
                0 <= r < height && 0 <= c < width ==> is_nearest(
                    #[trigger] image[r * width + c] as int,
                    samples(r, c),
                    if info.precision == 8 {
                        255
                    } else {
                        4095
                    },
                    if level == 0 {
                        1
                    } else if level > 65535 {
                        65535
                    } else {
                        level as int
                    },
                )
        }),
{
    reveal(jpeg_result);
    let own = whole(width, height);
    let empty = blank((width * height) as nat);
    assert((height - 1) * width + width == width * height) by (nonlinear_arith);
    pictures_are_placed_by_rows(info, stride, data, samples, empty, own, white.integer(0));
    let picture = picture_of(src, info, bytes);
    let image = dct_result(Ok(info), picture, empty, own, white.integer(0)).0;
    let level = white.integer(0);
    assert forall|r: int, c: int| 0 <= r < height && 0 <= c < width implies is_nearest(
        #[trigger] image[r * width + c] as int,
        samples(r, c),
        if info.precision == 8 {
            255
        } else {
            4095
        },
        if level == 0 {
            1
        } else if level > 65535 {
            65535
        } else {
            level as int
        },
    ) by {
        let sample = image[own.x + r * own.stripwidth + c];
        assert(own.x + r * own.stripwidth + c == r * width + c);
    }
}

/// Data that is neither lossless nor DCT-compressed is refused, and so is DCT-compressed data of a
/// file that states no white level.
pub proof fn other_data_is_refused(
    src: Seq<u8>,
    width: int,
    height: int,
    white: Option<TiffEntry>,
    bytes: Seq<u8>,
)
    requires
        ljpeg_file(src) is Err,
        white is None || inspected(src) is Err || !(inspected(src)->Ok_0).is_dct,
        width >= 1,
        height >= 1,
    ensures
        !decoded_alone(src, width, height, white, bytes).1,
{
    reveal(jpeg_result);
}

/// No image is read of a strip that is not the only one, that starts behind the end of the file, or
/// whose bytes lead past every place of the machine; nor of a file that has neither strips nor tiles,
/// or does not state the size of its tiles.
pub proof fn images_without_data_are_refused(
    buffer: Seq<u8>,
    raw: TiffIFD,
    width: usize,
    height: usize,
    cpp: usize,
    planes: spec_fn(int) -> Seq<u8>,
    dummy: bool,
)
    requires
        match raw.entry(Tag::StripOffsets) {
            Some(offsets) => offsets.count() != 1 || offsets.integer(0) >= buffer.len() || (
            raw.entry(Tag::StripByteCounts) matches Some(counts) && offsets.integer(0)
                + counts.integer(0) > usize::MAX),
            None => raw.entry(Tag::TileOffsets) is None || raw.entry(Tag::TileWidth) is None
                || raw.entry(Tag::TileLength) is None,
        },
    ensures
        compressed_image(buffer, raw, width, height, cpp, planes, dummy) is Err,
{
}

/// The samples of a strip of interleaved pairs that no pair covers, those of the last of an odd number
/// of columns, are 0.
pub proof fn samples_without_a_pair_are_zero(
    src: Seq<u8>,
    width: int,
    height: int,
    white: Option<TiffEntry>,
    bytes: Seq<u8>,
    r: int,
)
    requires
        0 <= r < height,
        width > 0,
        width % 2 == 1,
        ljpeg_file(src) matches Ok(frame) && frame.predictor == 8 && frame.components[0].super_h != 2,
    ensures
        ({
            let (samples, done) = decoded_alone(src, width, height, white, bytes);
            &&& done
            &&& samples.len() == width * height
            &&& samples[r * width + width - 1] == 0
        }),
{
    reveal(jpeg_result);
    let i = r * width + width - 1;
    assert(0 <= i < width * height) by (nonlinear_arith)
        requires
            i == r * width + width - 1,
            0 <= r,
            r + 1 <= height,
            width > 0,
    ;
    vstd::arithmetic::div_mod::lemma_fundamental_div_mod_converse(i, width, r, width - 1);
}

} // verus!
