//! The JPEG data of a DNG file: one strip, or tiles.
use vstd::prelude::*;
use vstd::slice::slice_subrange;
use crate::camera::has_value;
use crate::dct::{can_decode_dct, dct_decodable, dct_decode_fills_the_destination, dct_file_result,
    dct_layout, dct_samples_stay_below_white, dct_source, decode_dct_jpeg, encoded_white, inspected,
    picture_of, plane_of, plane_sample, same_decode, scaled, white_level, FrameInfo};
use crate::ljpeg::frame::{Frame, LjpegDecompressor};
use crate::ljpeg::header::ljpeg_file;
use crate::ljpeg::scan::low16;
use crate::region::Region;
use crate::text::{decimal, push_with, with_number};
use crate::tiff::{missing, Tag, TiffEntry, TiffIFD};
use crate::unpack::{dummy_image, no_image, same_image};

verus! {

/// Why JPEG data could not be decoded.
#[derive(Debug)]
pub enum JpegFailure {
    /// The data has the headers of lossless JPEG, but not its samples.
    Pixels(String),
    /// The white level is not known.
    NoWhite(String),
    /// The data is not lossless JPEG, for the first reason, nor DCT-compressed JPEG, for the second.
    Neither(String, String),
}

/// The contents of a [`JpegFailure`].
pub enum Failure {
    Pixels(Seq<char>),
    NoWhite(Seq<char>),
    Neither(Seq<char>, Seq<char>),
}

impl View for JpegFailure {
    type V = Failure;

    open spec fn view(&self) -> Failure {
        match self {
            JpegFailure::Pixels(text) => Failure::Pixels(text@),
            JpegFailure::NoWhite(text) => Failure::NoWhite(text@),
            JpegFailure::Neither(lossless, dct) => Failure::Neither(lossless@, dct@),
        }
    }
}

/// What decoding JPEG data, lossless or DCT-compressed, makes of a rectangle of an image, and why
/// it fails. The white level counts where the data is not lossless, and so do the bytes that the
/// plane of the decoder holds.
#[verifier::opaque]
pub open spec fn jpeg_result(
    src: Seq<u8>,
    out: Seq<u16>,
    region: Region,
    white: Option<TiffEntry>,
    bytes: Seq<u8>,
) -> (Seq<u16>, Result<(), Failure>) {
    match ljpeg_file(src) {
        Ok(frame) => {
            let (samples, res) = frame.decoded(out, region);
            (
                samples,
                match res {
                    Ok(_) => Ok(()),
                    Err(message) => Err(Failure::Pixels(message)),
                },
            )
        },
        Err(lossless) => match white {
            None => (out, Err(Failure::NoWhite(missing(Tag::WhiteLevel)))),
            Some(entry) => if region.width == 0 || region.height == 0 {
                (out, Ok(()))
            } else {
                let (samples, res) = dct_file_result(
                    src,
                    out,
                    region,
                    entry.integer(0),
                    bytes,
                );
                (
                    samples,
                    match res {
                        Ok(_) => Ok(()),
                        Err(message) => Err(Failure::Neither(lossless, message)),
                    },
                )
            },
        },
    }
}

/// JPEG data can be decoded into a rectangle of an image of `len` samples, or there is a message
/// that says why not: where it is not lossless, the entry of the white level has a value, and the
/// scans add up.
#[verifier::opaque]
pub open spec fn jpeg_decodable(
    src: Seq<u8>,
    region: Region,
    len: nat,
    white: Option<TiffEntry>,
) -> bool {
    ljpeg_file(src) is Err ==> {
        &&& has_value(white)
        &&& white is Some && region.width > 0 && region.height > 0 ==> dct_decodable(
            src,
            region,
            len,
        )
    }
}

fn can_decode_jpeg(
    src: &[u8],
    len: usize,
    x: usize,
    stripwidth: usize,
    width: usize,
    height: usize,
    raw: &TiffIFD,
) -> (decodable: bool)
    ensures
        decodable == jpeg_decodable(
            src@,
            (Region {
                x: x as nat,
                stripwidth: stripwidth as nat,
                width: width as nat,
                height: height as nat,
            }),
            len as nat,
            raw.entry(Tag::WhiteLevel),
        ),
{
    proof {
        reveal(jpeg_decodable);
    }
    if LjpegDecompressor::new(src).is_ok() {
        return true;
    }
    match raw.find_entry(Tag::WhiteLevel) {
        Some(entry) => entry.count() > 0 && (width == 0 || height == 0 || can_decode_dct(
            src,
            len,
            x,
            stripwidth,
            width,
            height,
        )),
        None => true,
    }
}

/// JPEG data has been decoded as expected.
pub open spec fn same_jpeg(
    out: Seq<u16>,
    res: Result<(), JpegFailure>,
    expected: (Seq<u16>, Result<(), Failure>),
) -> bool {
    &&& out == expected.0
    &&& match (res, expected.1) {
        (Ok(_), Ok(_)) => true,
        (Err(failure), Err(other)) => failure@ == other,
        _ => false,
    }
}

fn decode_jpeg(
    src: &[u8],
    out: &mut [u16],
    x: usize,
    stripwidth: usize,
    width: usize,
    height: usize,
    raw: &TiffIFD,
) -> (res: Result<(), JpegFailure>)
    requires
        jpeg_decodable(
            src@,
            (Region {
                x: x as nat,
                stripwidth: stripwidth as nat,
                width: width as nat,
                height: height as nat,
            }),
            old(out)@.len(),
            raw.entry(Tag::WhiteLevel),
        ),
    ensures
        ({
            let region = Region {
                x: x as nat,
                stripwidth: stripwidth as nat,
                width: width as nat,
                height: height as nat,
            };
            exists|bytes: Seq<u8>|
                same_jpeg(
                    final(out)@,
                    res,
                    #[trigger] jpeg_result(
                        src@,
                        old(out)@,
                        region,
                        raw.entry(Tag::WhiteLevel),
                        bytes,
                    ),
                )
        }),
{
    proof {
        reveal(jpeg_result);
        reveal(jpeg_decodable);
    }
    let ghost region = Region {
        x: x as nat,
        stripwidth: stripwidth as nat,
        width: width as nat,
        height: height as nat,
    };
    let ghost out0 = out@;
    // The result where nothing comes out of the decoder.
    let ghost unread = jpeg_result(src@, out0, region, raw.entry(Tag::WhiteLevel), seq![]);
    match LjpegDecompressor::new(src) {
        Ok(decompressor) => match decompressor.decode(out, x, stripwidth, width, height, false) {
            Ok(_) => Ok(()),
            Err(text) => Err(JpegFailure::Pixels(text)),
        },
        Err(lossless) => {
            let white: u32 = match raw.fetch(Tag::WhiteLevel) {
                Ok(entry) => entry.get_u32(0),
                Err(text) => return Err(JpegFailure::NoWhite(text)),
            };
            let done: Result<(), String> = decode_dct_jpeg(
                src,
                out,
                x,
                stripwidth,
                width,
                height,
                white,
                false,
            );
            proof {
                if width > 0 && height > 0 {
                    let bytes = choose|bytes: Seq<u8>|
                        same_decode(
                            out@,
                            done,
                            #[trigger] dct_file_result(src@, out0, region, white, bytes),
                        );
                    assert(jpeg_result(src@, out0, region, raw.entry(Tag::WhiteLevel), bytes).0
                        == out@);
                }
            }
            match done {
                Ok(_) => Ok(()),
                Err(text) => Err(JpegFailure::Neither(lossless, text)),
            }
        },
    }
}

/// An image of zeros.
pub open spec fn blank(len: nat) -> Seq<u16> {
    Seq::new(len, |i: int| 0u16)
}

/// Where data ends that starts at `offset`: after its byte count, if that is known, and before the
/// end of the file. `None` if the count leads too far.
pub open spec fn data_end(offset: int, bytes: Option<int>, len: int) -> Option<int> {
    match bytes {
        None => Some(len),
        Some(n) => if offset + n > usize::MAX {
            None
        } else if offset + n > len {
            Some(len)
        } else {
            Some(offset + n)
        },
    }
}

fn find_end(offset: usize, bytes: Option<usize>, len: usize) -> (end: Option<usize>)
    requires
        offset < len,
    ensures
        match (
            end,
            data_end(
                offset as int,
                match bytes {
                    Some(n) => Some(n as int),
                    None => None,
                },
                len as int,
            ),
        ) {
            (Some(n), Some(expected)) => n == expected && offset <= n <= len,
            (None, None) => true,
            _ => false,
        },
{
    match bytes {
        None => Some(len),
        Some(n) => match offset.checked_add(n) {
            None => None,
            Some(end) => if end > len {
                Some(len)
            } else {
                Some(end)
            },
        },
    }
}

/// Value number `i` of an entry, if it is there.
pub open spec fn value_of(entry: Option<TiffEntry>, i: int) -> Option<int> {
    match entry {
        Some(found) => Some(found.integer(i) as int),
        None => None,
    }
}

/// The message for a strip.
pub open spec fn strip_message(failure: Failure) -> Seq<char> {
    match failure {
        Failure::Pixels(message) => message,
        Failure::NoWhite(message) => message,
        Failure::Neither(lossless, dct) => "DNG: JPEG header was neither lossless ("@ + lossless
            + ") nor DCT ("@ + dct + ")"@,
    }
}

fn strip_text(failure: JpegFailure) -> (text: String)
    ensures
        text@ == strip_message(failure@),
{
    match failure {
        JpegFailure::Pixels(text) => text,
        JpegFailure::NoWhite(text) => text,
        JpegFailure::Neither(lossless, dct) => {
            let mut text: String = "DNG: JPEG header was neither lossless (".to_string();
            text.append(lossless.as_str());
            text.append(") nor DCT (");
            text.append(dct.as_str());
            text.append(")");
            text
        },
    }
}

/// The image of a file that holds one strip. If the strip is DCT-compressed, the plane of the
/// decoder holds the given bytes.
pub open spec fn strip_image(
    buffer: Seq<u8>,
    raw: TiffIFD,
    offsets: TiffEntry,
    width: usize,
    height: usize,
    dummy: bool,
    bytes: Seq<u8>,
) -> Result<Seq<u16>, Seq<char>> {
    let offset = offsets.integer(0) as int;
    if offsets.count() != 1 {
        Err("DNG: files with more than one slice not supported yet"@)
    } else if offset >= buffer.len() {
        Err("DNG: strip offset "@ + decimal(offset as nat) + " is outside the file"@)
    } else {
        match data_end(
            offset,
            value_of(raw.entry(Tag::StripByteCounts), 0),
            buffer.len() as int,
        ) {
            None => Err("DNG: strip byte count overflowed"@),
            Some(end) => if dummy {
                Ok(dummy_image())
            } else {
                let region = Region {
                    x: 0,
                    stripwidth: width as nat,
                    width: width as nat,
                    height: height as nat,
                };
                let (samples, res) = jpeg_result(
                    buffer.subrange(offset, end),
                    blank((width * height) as nat),
                    region,
                    raw.entry(Tag::WhiteLevel),
                    bytes,
                );
                match res {
                    Ok(_) => Ok(samples),
                    Err(failure) => Err(strip_message(failure)),
                }
            },
        }
    }
}

/// The entries that a strip is read from have values, and the image fits the machine.
pub open spec fn strip_readable(
    buffer: Seq<u8>,
    raw: TiffIFD,
    offsets: TiffEntry,
    width: usize,
    height: usize,
    dummy: bool,
) -> bool {
    let offset = offsets.integer(0) as int;
    offsets.count() == 1 && offset < buffer.len() ==> {
        let end = data_end(
            offset,
            value_of(raw.entry(Tag::StripByteCounts), 0),
            buffer.len() as int,
        );
        &&& has_value(raw.entry(Tag::StripByteCounts))
        &&& !dummy && end is Some ==> {
            &&& width * height <= usize::MAX
            &&& jpeg_decodable(
                buffer.subrange(offset, end->0),
                (Region {
                    x: 0,
                    stripwidth: width as nat,
                    width: width as nat,
                    height: height as nat,
                }),
                (width * height) as nat,
                raw.entry(Tag::WhiteLevel),
            )
        }
    }
}

/// Decodes a file that holds one strip.
pub fn decode_strip(
    buffer: &[u8],
    raw: &TiffIFD,
    offsets: &TiffEntry,
    width: usize,
    height: usize,
    dummy: bool,
) -> (res: Result<Vec<u16>, String>)
    requires
        strip_readable(buffer@, *raw, *offsets, width, height, dummy),
    ensures
        exists|bytes: Seq<u8>|
            same_image(
                res,
                #[trigger] strip_image(buffer@, *raw, *offsets, width, height, dummy, bytes),
            ),
{
    // The result where nothing comes out of the decoder.
    let ghost unread = strip_image(buffer@, *raw, *offsets, width, height, dummy, seq![]);
    if offsets.count() != 1 {
        return Err("DNG: files with more than one slice not supported yet".to_string());
    }
    let offset: usize = offsets.get_usize(0);
    if offset >= buffer.len() {
        return Err(with_number("DNG: strip offset ", offset, " is outside the file"));
    }
    let bytes: Option<usize> = match raw.find_entry(Tag::StripByteCounts) {
        Some(entry) => Some(entry.get_usize(0)),
        None => None,
    };
    let end: usize = match find_end(offset, bytes, buffer.len()) {
        Some(end) => end,
        None => return Err("DNG: strip byte count overflowed".to_string()),
    };
    if dummy {
        return Ok(no_image());
    }
    let src: &[u8] = slice_subrange(buffer, offset, end);
    let count: usize = width * height;
    let mut out: Vec<u16> = vec![0u16; count];
    assert(out@ =~= blank((width * height) as nat));
    let done: Result<(), JpegFailure> = decode_jpeg(
        src,
        out.as_mut_slice(),
        0,
        width,
        width,
        height,
        raw,
    );
    proof {
        let region = Region {
            x: 0,
            stripwidth: width as nat,
            width: width as nat,
            height: height as nat,
        };
        let blanks = blank((width * height) as nat);
        let bytes = choose|bytes: Seq<u8>|
            same_jpeg(
                out@,
                done,
                #[trigger] jpeg_result(src@, blanks, region, raw.entry(Tag::WhiteLevel), bytes),
            );
        let expected = strip_image(buffer@, *raw, *offsets, width, height, dummy, bytes);
        assert(expected is Ok == done is Ok);
    }
    match done {
        Ok(_) => Ok(out),
        Err(failure) => Err(strip_text(failure)),
    }
}

/// Tells whether a strip can be read.
pub fn can_read_strip(
    buffer: &[u8],
    raw: &TiffIFD,
    offsets: &TiffEntry,
    width: usize,
    height: usize,
    dummy: bool,
) -> (readable: bool)
    ensures
        readable == strip_readable(buffer@, *raw, *offsets, width, height, dummy),
{
    if offsets.count() != 1 {
        return true;
    }
    let offset: usize = offsets.get_usize(0);
    if offset >= buffer.len() {
        return true;
    }
    let bytes: Option<usize> = match raw.find_entry(Tag::StripByteCounts) {
        Some(entry) => {
            if entry.count() == 0 {
                return false;
            }
            Some(entry.get_usize(0))
        },
        None => None,
    };
    if dummy {
        return true;
    }
    match find_end(offset, bytes, buffer.len()) {
        Some(end) => match width.checked_mul(height) {
            Some(len) => can_decode_jpeg(
                slice_subrange(buffer, offset, end),
                len,
                0,
                width,
                width,
                height,
                raw,
            ),
            None => false,
        },
        None => true,
    }
}

/// An image that is cut into tiles, all of one size but for those at the right and the bottom.
pub struct Tiling {
    pub width: int,
    pub height: int,
    pub twidth: int,
    pub tlength: int,
}

impl Tiling {
    /// There is an image, and tiles to cut it into.
    pub open spec fn wf(self) -> bool {
        self.width >= 1 && self.height >= 1 && self.twidth >= 1 && self.tlength >= 1
    }

    /// The number of tiles side by side.
    pub open spec fn coltiles(self) -> int {
        (self.width - 1) / self.twidth + 1
    }

    /// The number of tiles one below the other.
    pub open spec fn rowtiles(self) -> int {
        (self.height - 1) / self.tlength + 1
    }

    /// The width of the tiles in a column.
    pub open spec fn tile_width(self, col: int) -> int {
        if self.width - col * self.twidth < self.twidth {
            self.width - col * self.twidth
        } else {
            self.twidth
        }
    }

    /// The height of the tiles in a row.
    pub open spec fn tile_height(self, row: int) -> int {
        if self.height - row * self.tlength < self.tlength {
            self.height - row * self.tlength
        } else {
            self.tlength
        }
    }

    /// Where a tile lies in its row of tiles.
    pub open spec fn region(self, row: int, col: int) -> Region {
        Region {
            x: (col * self.twidth) as nat,
            stripwidth: self.width as nat,
            width: self.tile_width(col) as nat,
            height: self.tile_height(row) as nat,
        }
    }
}

/// The entry that is pointed at, if there is one.
pub open spec fn pointed_entry(entry: Option<&TiffEntry>) -> Option<TiffEntry> {
    match entry {
        Some(found) => Some(*found),
        None => None,
    }
}

/// The data of a tile, or why there is none.
pub open spec fn tile_source(
    buffer: Seq<u8>,
    offsets: TiffEntry,
    counts: Option<TiffEntry>,
    tile: int,
) -> Result<Seq<u8>, Seq<char>> {
    let offset = offsets.integer(tile) as int;
    if offset >= buffer.len() {
        Err(
            "DNG: tile "@ + decimal(tile as nat) + " offset "@ + decimal(offset as nat)
                + " is outside the file"@,
        )
    } else {
        match data_end(offset, value_of(counts, tile), buffer.len() as int) {
            None => Err("DNG: tile "@ + decimal(tile as nat) + " byte count overflowed"@),
            Some(end) => Ok(buffer.subrange(offset, end)),
        }
    }
}

/// The message for a tile.
pub open spec fn tile_message(tile: int, failure: Failure) -> Seq<char> {
    match failure {
        Failure::Pixels(message) => "DNG: tile "@ + decimal(tile as nat)
            + " lossless JPEG pixels: "@ + message,
        Failure::NoWhite(message) => message,
        Failure::Neither(lossless, dct) => "DNG: tile "@ + decimal(tile as nat)
            + " header was neither lossless ("@ + lossless + ") nor DCT ("@ + dct + ")"@,
    }
}

/// A row of tiles once the first `n` of its tiles are decoded, and the message if one fails. The
/// planes that the decoder gives for DCT-compressed tiles hold the given bytes, by the numbers of
/// the tiles.
pub open spec fn tile_row(
    buffer: Seq<u8>,
    raw: TiffIFD,
    offsets: TiffEntry,
    counts: Option<TiffEntry>,
    tiling: Tiling,
    planes: spec_fn(int) -> Seq<u8>,
    row: int,
    n: nat,
) -> (Seq<u16>, Result<(), Seq<char>>)
    decreases n,
{
    if n == 0 {
        (blank((tiling.width * tiling.tile_height(row)) as nat), Ok(()))
    } else {
        let (strip, before) = tile_row(
            buffer,
            raw,
            offsets,
            counts,
            tiling,
            planes,
            row,
            (n - 1) as nat,
        );
        let tile = row * tiling.coltiles() + n - 1;
        if before is Err {
            (strip, before)
        } else {
            match tile_source(buffer, offsets, counts, tile) {
                Err(message) => (strip, Err(message)),
                Ok(src) => {
                    let (samples, res) = jpeg_result(
                        src,
                        strip,
                        tiling.region(row, n - 1),
                        raw.entry(Tag::WhiteLevel),
                        planes(tile),
                    );
                    (
                        samples,
                        match res {
                            Ok(_) => Ok(()),
                            Err(failure) => Err(tile_message(tile, failure)),
                        },
                    )
                },
            }
        }
    }
}

/// The image of the first `n` rows of tiles, or the message of the first tile that fails.
pub open spec fn tile_rows(
    buffer: Seq<u8>,
    raw: TiffIFD,
    offsets: TiffEntry,
    counts: Option<TiffEntry>,
    tiling: Tiling,
    planes: spec_fn(int) -> Seq<u8>,
    n: nat,
) -> Result<Seq<u16>, Seq<char>>
    decreases n,
{
    if n == 0 {
        Ok(seq![])
    } else {
        match tile_rows(buffer, raw, offsets, counts, tiling, planes, (n - 1) as nat) {
            Err(message) => Err(message),
            Ok(above) => {
                let (strip, res) = tile_row(
                    buffer,
                    raw,
                    offsets,
                    counts,
                    tiling,
                    planes,
                    n - 1,
                    tiling.coltiles() as nat,
                );
                match res {
                    Ok(_) => Ok(above + strip),
                    Err(message) => Err(message),
                }
            },
        }
    }
}

/// The image of a file that holds tiles of the given size.
pub open spec fn tiled_image(
    buffer: Seq<u8>,
    raw: TiffIFD,
    offsets: TiffEntry,
    tiling: Tiling,
    planes: spec_fn(int) -> Seq<u8>,
    dummy: bool,
) -> Result<Seq<u16>, Seq<char>> {
    let tiles = tiling.coltiles() * tiling.rowtiles();
    let counts = raw.entry(Tag::TileByteCounts);
    if tiles != offsets.count() {
        Err(
            "DNG: trying to decode "@ + decimal(tiles as nat) + " tiles from "@ + decimal(
                offsets.count() as nat,
            ) + " offsets"@,
        )
    } else if counts matches Some(entry) && entry.count() != offsets.count() {
        Err(
            "DNG: found "@ + decimal(offsets.count() as nat) + " tile offsets but "@ + decimal(
                (counts->0).count() as nat,
            ) + " tile byte counts"@,
        )
    } else if dummy {
        Ok(dummy_image())
    } else {
        tile_rows(buffer, raw, offsets, counts, tiling, planes, tiling.rowtiles() as nat)
    }
}

/// The data of a tile, where there is any, can be decoded.
pub open spec fn tile_decodable(
    buffer: Seq<u8>,
    raw: TiffIFD,
    offsets: TiffEntry,
    counts: Option<TiffEntry>,
    tiling: Tiling,
    row: int,
    col: int,
) -> bool {
    tile_source(buffer, offsets, counts, row * tiling.coltiles() + col) matches Ok(src)
        ==> jpeg_decodable(
        src,
        tiling.region(row, col),
        (tiling.width * tiling.tile_height(row)) as nat,
        raw.entry(Tag::WhiteLevel),
    )
}

/// Those of the first `n` tiles in a row of tiles that are reached can be decoded: a tile is
/// reached if no tile before it in its row fails.
#[verifier::opaque]
pub open spec fn row_decodable(
    buffer: Seq<u8>,
    raw: TiffIFD,
    offsets: TiffEntry,
    counts: Option<TiffEntry>,
    tiling: Tiling,
    row: int,
    n: nat,
) -> bool {
    forall|planes: spec_fn(int) -> Seq<u8>, col: nat|
        col < n && (#[trigger] tile_row(
            buffer,
            raw,
            offsets,
            counts,
            tiling,
            planes,
            row,
            col,
        )).1 is Ok ==> tile_decodable(buffer, raw, offsets, counts, tiling, row, col as int)
}

/// The image that is cut into tiles fits the machine, and the tiles that are reached can be
/// decoded.
pub open spec fn tiles_readable(
    buffer: Seq<u8>,
    raw: TiffIFD,
    offsets: TiffEntry,
    tiling: Tiling,
    dummy: bool,
) -> bool {
    let counts = raw.entry(Tag::TileByteCounts);
    &&& tiling.wf()
    &&& tiling.coltiles() * tiling.rowtiles() <= usize::MAX
    &&& !dummy && tiling.coltiles() * tiling.rowtiles() == offsets.count() && !(counts matches Some(
        entry,
    ) && entry.count() != offsets.count()) ==> {
        &&& tiling.width * tiling.height <= usize::MAX
        &&& forall|row: int|
            0 <= row < tiling.rowtiles() ==> #[trigger] row_decodable(
                buffer,
                raw,
                offsets,
                counts,
                tiling,
                row,
                tiling.coltiles() as nat,
            )
    }
}

fn tile_text(tile: usize, failure: JpegFailure) -> (text: String)
    ensures
        text@ == tile_message(tile as int, failure@),
{
    match failure {
        JpegFailure::Pixels(message) => {
            let mut text: String = with_number("DNG: tile ", tile, " lossless JPEG pixels: ");
            text.append(message.as_str());
            text
        },
        JpegFailure::NoWhite(text) => text,
        JpegFailure::Neither(lossless, dct) => {
            let mut text: String = with_number(
                "DNG: tile ",
                tile,
                " header was neither lossless (",
            );
            text.append(lossless.as_str());
            text.append(") nor DCT (");
            text.append(dct.as_str());
            text.append(")");
            text
        },
    }
}

fn find_tile<'b>(
    buffer: &'b [u8],
    offsets: &TiffEntry,
    counts: Option<&TiffEntry>,
    tile: usize,
) -> (res: Result<&'b [u8], String>)
    requires
        tile < offsets.count(),
        counts matches Some(entry) ==> tile < entry.count(),
    ensures
        match (
            res,
            tile_source(
                buffer@,
                *offsets,
                pointed_entry(counts),
                tile as int,
            ),
        ) {
            (Ok(src), Ok(expected)) => src@ == expected,
            (Err(text), Err(message)) => text@ == message,
            _ => false,
        },
{
    let offset: usize = offsets.get_usize(tile);
    if offset >= buffer.len() {
        let mut text: String = with_number("DNG: tile ", tile, " offset ");
        push_with(&mut text, offset, " is outside the file");
        return Err(text);
    }
    let bytes: Option<usize> = match counts {
        Some(entry) => Some(entry.get_usize(tile)),
        None => None,
    };
    match find_end(offset, bytes, buffer.len()) {
        Some(end) => Ok(slice_subrange(buffer, offset, end)),
        None => Err(with_number("DNG: tile ", tile, " byte count overflowed")),
    }
}

pub proof fn lemma_tiles_along(n: int, size: int, k: int)
    requires
        n >= 1,
        size >= 1,
        0 <= k <= (n - 1) / size,
    ensures
        0 <= k * size <= n - 1,
{
    assert(k * size <= n - 1) by (nonlinear_arith)
        requires
            k <= (n - 1) / size,
            size >= 1,
            n >= 1,
    ;
    assert(0 <= k * size) by (nonlinear_arith)
        requires
            0 <= k,
            size >= 1,
    ;
}

/// A row of tiles has been decoded as expected.
pub open spec fn same_row(
    res: Result<Vec<u16>, String>,
    expected: (Seq<u16>, Result<(), Seq<char>>),
) -> bool {
    match (res, expected.1) {
        (Ok(samples), Ok(_)) => samples@ == expected.0,
        (Err(text), Err(message)) => text@ == message,
        _ => false,
    }
}

fn decode_tile_row(
    buffer: &[u8],
    raw: &TiffIFD,
    offsets: &TiffEntry,
    counts: Option<&TiffEntry>,
    width: usize,
    height: usize,
    twidth: usize,
    tlength: usize,
    row: usize,
    n: usize,
) -> (res: Result<Vec<u16>, String>)
    requires
        ({
            let tiling = Tiling {
                width: width as int,
                height: height as int,
                twidth: twidth as int,
                tlength: tlength as int,
            };
            let entry = pointed_entry(counts);
            &&& tiling.wf()
            &&& width * height <= usize::MAX
            &&& row < tiling.rowtiles()
            &&& tiling.coltiles() * tiling.rowtiles() == offsets.count()
            &&& counts matches Some(found) ==> found.count() == offsets.count()
            &&& n <= tiling.coltiles()
            &&& row_decodable(buffer@, *raw, *offsets, entry, tiling, row as int, n as nat)
        }),
    ensures
        ({
            let tiling = Tiling {
                width: width as int,
                height: height as int,
                twidth: twidth as int,
                tlength: tlength as int,
            };
            let entry = pointed_entry(counts);
            exists|planes: spec_fn(int) -> Seq<u8>|
                same_row(
                    res,
                    #[trigger] tile_row(
                        buffer@,
                        *raw,
                        *offsets,
                        entry,
                        tiling,
                        planes,
                        row as int,
                        n as nat,
                    ),
                )
        }),
{
    let ghost tiling = Tiling {
        width: width as int,
        height: height as int,
        twidth: twidth as int,
        tlength: tlength as int,
    };
    let ghost entry = pointed_entry(counts);
    let coltiles: usize = (width - 1) / twidth + 1;
    proof {
        lemma_tiles_along(height as int, tlength as int, row as int);
    }
    let above: usize = row * tlength;
    let blength: usize = if height - above < tlength {
        height - above
    } else {
        tlength
    };
    proof {
        assert(width * blength <= width * height) by (nonlinear_arith)
            requires
                blength <= height,
        ;
    }
    let count: usize = width * blength;
    let mut strip: Vec<u16> = vec![0u16; count];
    assert(strip@ =~= blank(count as nat));
    let mut col: usize = 0;
    let ghost mut planes: spec_fn(int) -> Seq<u8> = |tile: int| seq![];
    while col < n
        invariant
            tiling == (Tiling {
                width: width as int,
                height: height as int,
                twidth: twidth as int,
                tlength: tlength as int,
            }),
            entry == pointed_entry(counts),
            tiling.wf(),
            coltiles == tiling.coltiles(),
            row < tiling.rowtiles(),
            tiling.coltiles() * tiling.rowtiles() == offsets.count(),
            counts matches Some(found) ==> found.count() == offsets.count(),
            n <= coltiles,
            row_decodable(buffer@, *raw, *offsets, entry, tiling, row as int, n as nat),
            blength == tiling.tile_height(row as int),
            col <= n,
            tile_row(buffer@, *raw, *offsets, entry, tiling, planes, row as int, col as nat) == (
                strip@,
                Ok::<(), Seq<char>>(()),
            ),
        decreases n - col,
    {
        let ghost before = strip@;
        proof {
            lemma_tiles_along(width as int, twidth as int, col as int);
            let rows = tiling.rowtiles();
            assert(0 <= row * coltiles && row * coltiles + col < coltiles * rows)
                by (nonlinear_arith)
                requires
                    row + 1 <= rows,
                    col < coltiles,
            ;
            assert(tile_row(
                buffer@,
                *raw,
                *offsets,
                entry,
                tiling,
                planes,
                row as int,
                ((col + 1) - 1) as nat,
            ) == (before, Ok::<(), Seq<char>>(())));
            reveal(row_decodable);
            assert(tile_row(
                buffer@,
                *raw,
                *offsets,
                entry,
                tiling,
                planes,
                row as int,
                col as nat,
            ).1 is Ok);
            lemma_tile_row_len(
                buffer@,
                *raw,
                *offsets,
                entry,
                tiling,
                planes,
                row as int,
                col as nat,
            );
        }
        let tile: usize = row * coltiles + col;
        let src: &[u8] = match find_tile(buffer, offsets, counts, tile) {
            Ok(src) => src,
            Err(text) => {
                proof {
                    lemma_row_end(
                        buffer@,
                        *raw,
                        *offsets,
                        entry,
                        tiling,
                        planes,
                        row as int,
                        (col + 1) as nat,
                        n as nat,
                    );
                }
                return Err(text);
            },
        };
        let left: usize = col * twidth;
        let bwidth: usize = if width - left < twidth {
            width - left
        } else {
            twidth
        };
        let done: Result<(), JpegFailure> = decode_jpeg(
            src,
            strip.as_mut_slice(),
            left,
            width,
            bwidth,
            blength,
            raw,
        );
        proof {
            let region = tiling.region(row as int, col as int);
            let white = raw.entry(Tag::WhiteLevel);
            let bytes = choose|bytes: Seq<u8>|
                same_jpeg(
                    strip@,
                    done,
                    #[trigger] jpeg_result(src@, before, region, white, bytes),
                );
            let last = planes;
            planes = |t: int|
                if t == tile {
                    bytes
                } else {
                    last(t)
                };
            lemma_row_planes(
                buffer@,
                *raw,
                *offsets,
                entry,
                tiling,
                last,
                planes,
                row as int,
                col as nat,
            );
            lemma_row_end(
                buffer@,
                *raw,
                *offsets,
                entry,
                tiling,
                planes,
                row as int,
                (col + 1) as nat,
                n as nat,
            );
        }
        match done {
            Ok(_) => (),
            Err(failure) => return Err(tile_text(tile, failure)),
        }
        col = col + 1;
    }
    let ghost expected = tile_row(
        buffer@,
        *raw,
        *offsets,
        entry,
        tiling,
        planes,
        row as int,
        n as nat,
    );
    assert(expected.0 == strip@);
    Ok(strip)
}

/// Tells whether the image that is cut into tiles can be read.
pub fn can_read_tiles(
    buffer: &[u8],
    raw: &TiffIFD,
    offsets: &TiffEntry,
    width: usize,
    height: usize,
    twidth: usize,
    tlength: usize,
    dummy: bool,
) -> (readable: bool)
    ensures
        readable == tiles_readable(
            buffer@,
            *raw,
            *offsets,
            (Tiling {
                width: width as int,
                height: height as int,
                twidth: twidth as int,
                tlength: tlength as int,
            }),
            dummy,
        ),
{
    let ghost tiling = Tiling {
        width: width as int,
        height: height as int,
        twidth: twidth as int,
        tlength: tlength as int,
    };
    if width == 0 || height == 0 || twidth == 0 || tlength == 0 {
        return false;
    }
    proof {
        assert((width - 1) / twidth as int <= width - 1) by (nonlinear_arith)
            requires
                twidth >= 1,
                width >= 1,
        ;
        assert((height - 1) / tlength as int <= height - 1) by (nonlinear_arith)
            requires
                tlength >= 1,
                height >= 1,
        ;
    }
    let coltiles: usize = (width - 1) / twidth + 1;
    let rowtiles: usize = (height - 1) / tlength + 1;
    let tiles: usize = match coltiles.checked_mul(rowtiles) {
        Some(tiles) => tiles,
        None => return false,
    };
    if dummy || tiles != offsets.count() {
        return true;
    }
    let counts: Option<&TiffEntry> = raw.find_entry(Tag::TileByteCounts);
    if let Some(entry) = counts {
        if entry.count() != offsets.count() {
            return true;
        }
    }
    if width.checked_mul(height).is_none() {
        return false;
    }
    let mut row: usize = 0;
    while row < rowtiles
        invariant
            tiling == (Tiling {
                width: width as int,
                height: height as int,
                twidth: twidth as int,
                tlength: tlength as int,
            }),
            tiling.wf(),
            width * height <= usize::MAX,
            !dummy,
            rowtiles == tiling.rowtiles(),
            tiling.coltiles() * tiling.rowtiles() == offsets.count(),
            pointed_entry(counts) == raw.entry(Tag::TileByteCounts),
            counts matches Some(entry) ==> entry.count() == offsets.count(),
            row <= rowtiles,
            forall|r: int|
                0 <= r < row ==> #[trigger] row_decodable(
                    buffer@,
                    *raw,
                    *offsets,
                    raw.entry(Tag::TileByteCounts),
                    tiling,
                    r,
                    tiling.coltiles() as nat,
                ),
        decreases rowtiles - row,
    {
        if !can_decode_row(
            buffer,
            raw,
            offsets,
            counts,
            width,
            height,
            twidth,
            tlength,
            row,
        ) {
            return false;
        }
        row = row + 1;
    }
    true
}

/// Tells whether the tiles in a row of tiles that are reached can be decoded.
fn can_decode_row(
    buffer: &[u8],
    raw: &TiffIFD,
    offsets: &TiffEntry,
    counts: Option<&TiffEntry>,
    width: usize,
    height: usize,
    twidth: usize,
    tlength: usize,
    row: usize,
) -> (decodable: bool)
    requires
        ({
            let tiling = Tiling {
                width: width as int,
                height: height as int,
                twidth: twidth as int,
                tlength: tlength as int,
            };
            &&& tiling.wf()
            &&& width * height <= usize::MAX
            &&& row < tiling.rowtiles()
            &&& tiling.coltiles() * tiling.rowtiles() == offsets.count()
            &&& counts matches Some(found) ==> found.count() == offsets.count()
        }),
    ensures
        ({
            let tiling = Tiling {
                width: width as int,
                height: height as int,
                twidth: twidth as int,
                tlength: tlength as int,
            };
            decodable == row_decodable(
                buffer@,
                *raw,
                *offsets,
                pointed_entry(counts),
                tiling,
                row as int,
                tiling.coltiles() as nat,
            )
        }),
{
    let ghost tiling = Tiling {
        width: width as int,
        height: height as int,
        twidth: twidth as int,
        tlength: tlength as int,
    };
    let ghost entry = pointed_entry(counts);
    let coltiles: usize = (width - 1) / twidth + 1;
    proof {
        lemma_tiles_along(height as int, tlength as int, row as int);
        reveal(row_decodable);
    }
    let above: usize = row * tlength;
    let blength: usize = if height - above < tlength {
        height - above
    } else {
        tlength
    };
    proof {
        assert(width * blength <= width * height) by (nonlinear_arith)
            requires
                blength <= height,
        ;
    }
    let len: usize = width * blength;
    let mut col: usize = 0;
    while col < coltiles
        invariant
            tiling == (Tiling {
                width: width as int,
                height: height as int,
                twidth: twidth as int,
                tlength: tlength as int,
            }),
            entry == pointed_entry(counts),
            tiling.wf(),
            width * height <= usize::MAX,
            coltiles == tiling.coltiles(),
            row < tiling.rowtiles(),
            tiling.coltiles() * tiling.rowtiles() == offsets.count(),
            counts matches Some(found) ==> found.count() == offsets.count(),
            blength == tiling.tile_height(row as int),
            len == width * blength,
            col <= coltiles,
            forall|c: int|
                0 <= c < col ==> #[trigger] tile_decodable(
                    buffer@,
                    *raw,
                    *offsets,
                    entry,
                    tiling,
                    row as int,
                    c,
                ),
        decreases coltiles - col,
    {
        proof {
            lemma_tiles_along(width as int, twidth as int, col as int);
            let rows = tiling.rowtiles();
            assert(0 <= row * coltiles && row * coltiles + col < coltiles * rows)
                by (nonlinear_arith)
                requires
                    row + 1 <= rows,
                    col < coltiles,
            ;
        }
        let left: usize = col * twidth;
        let bwidth: usize = if width - left < twidth {
            width - left
        } else {
            twidth
        };
        let found: bool = match find_tile(buffer, offsets, counts, row * coltiles + col) {
            Ok(src) => can_decode_jpeg(src, len, left, width, bwidth, blength, raw),
            Err(_) => true,
        };
        if !found {
            // The tile counts if it is reached.
            proof {
                reveal(row_decodable);
            }
            let before: Result<Vec<u16>, String> = decode_tile_row(
                buffer,
                raw,
                offsets,
                counts,
                width,
                height,
                twidth,
                tlength,
                row,
                col,
            );
            proof {
                lemma_row_reached(
                    buffer@,
                    *raw,
                    *offsets,
                    entry,
                    tiling,
                    row as int,
                    col as nat,
                    before,
                );
            }
            return before.is_err();
        }
        col = col + 1;
    }
    proof {
        reveal(row_decodable);
    }
    true
}

/// The first tile of a row that cannot be decoded counts exactly if the tiles before it are
/// decoded.
proof fn lemma_row_reached(
    buffer: Seq<u8>,
    raw: TiffIFD,
    offsets: TiffEntry,
    counts: Option<TiffEntry>,
    tiling: Tiling,
    row: int,
    col: nat,
    before: Result<Vec<u16>, String>,
)
    requires
        col < tiling.coltiles(),
        forall|c: int|
            0 <= c < col ==> #[trigger] tile_decodable(
                buffer,
                raw,
                offsets,
                counts,
                tiling,
                row,
                c,
            ),
        !tile_decodable(buffer, raw, offsets, counts, tiling, row, col as int),
        exists|planes: spec_fn(int) -> Seq<u8>|
            same_row(
                before,
                #[trigger] tile_row(buffer, raw, offsets, counts, tiling, planes, row, col),
            ),
    ensures
        row_decodable(
            buffer,
            raw,
            offsets,
            counts,
            tiling,
            row,
            tiling.coltiles() as nat,
        ) == before is Err,
{
    reveal(row_decodable);
    let planes = choose|planes: spec_fn(int) -> Seq<u8>|
        same_row(
            before,
            #[trigger] tile_row(buffer, raw, offsets, counts, tiling, planes, row, col),
        );
    if before is Err {
        assert forall|others: spec_fn(int) -> Seq<u8>, c: nat|
            c < tiling.coltiles() && (#[trigger] tile_row(
                buffer,
                raw,
                offsets,
                counts,
                tiling,
                others,
                row,
                c,
            )).1 is Ok implies tile_decodable(
            buffer,
            raw,
            offsets,
            counts,
            tiling,
            row,
            c as int,
        ) by {
            if c >= col {
                lemma_row_fate(buffer, raw, offsets, counts, tiling, planes, others, row, col);
                lemma_row_end(buffer, raw, offsets, counts, tiling, others, row, col, c);
            }
        }
    }
}

/// The planes of other tiles do not count for a row of tiles.
proof fn lemma_row_planes(
    buffer: Seq<u8>,
    raw: TiffIFD,
    offsets: TiffEntry,
    counts: Option<TiffEntry>,
    tiling: Tiling,
    planes: spec_fn(int) -> Seq<u8>,
    others: spec_fn(int) -> Seq<u8>,
    row: int,
    n: nat,
)
    requires
        forall|tile: int|
            row * tiling.coltiles() <= tile < row * tiling.coltiles() + n ==> #[trigger] planes(
                tile,
            ) == others(tile),
    ensures
        tile_row(buffer, raw, offsets, counts, tiling, planes, row, n) == tile_row(
            buffer,
            raw,
            offsets,
            counts,
            tiling,
            others,
            row,
            n,
        ),
    decreases n,
{
    if n > 0 {
        lemma_row_planes(
            buffer,
            raw,
            offsets,
            counts,
            tiling,
            planes,
            others,
            row,
            (n - 1) as nat,
        );
        assert(planes(row * tiling.coltiles() + n - 1) == others(row * tiling.coltiles() + n - 1));
    }
}

/// The planes of other tiles do not count for the rows of tiles above them.
proof fn lemma_rows_planes(
    buffer: Seq<u8>,
    raw: TiffIFD,
    offsets: TiffEntry,
    counts: Option<TiffEntry>,
    tiling: Tiling,
    planes: spec_fn(int) -> Seq<u8>,
    others: spec_fn(int) -> Seq<u8>,
    n: nat,
)
    requires
        tiling.coltiles() >= 0,
        forall|tile: int|
            0 <= tile < n * tiling.coltiles() ==> #[trigger] planes(tile) == others(tile),
    ensures
        tile_rows(buffer, raw, offsets, counts, tiling, planes, n) == tile_rows(
            buffer,
            raw,
            offsets,
            counts,
            tiling,
            others,
            n,
        ),
    decreases n,
{
    if n > 0 {
        let cols = tiling.coltiles();
        assert(0 <= (n - 1) * cols && (n - 1) * cols + cols == n * cols) by (nonlinear_arith)
            requires
                n >= 1,
                cols >= 0,
        ;
        lemma_rows_planes(buffer, raw, offsets, counts, tiling, planes, others, (n - 1) as nat);
        lemma_row_planes(
            buffer,
            raw,
            offsets,
            counts,
            tiling,
            planes,
            others,
            n - 1,
            cols as nat,
        );
    }
}

/// A row of tiles that fails at one tile has failed with that message at the end.
proof fn lemma_row_end(
    buffer: Seq<u8>,
    raw: TiffIFD,
    offsets: TiffEntry,
    counts: Option<TiffEntry>,
    tiling: Tiling,
    planes: spec_fn(int) -> Seq<u8>,
    row: int,
    k: nat,
    n: nat,
)
    requires
        k <= n,
    ensures
        tile_row(buffer, raw, offsets, counts, tiling, planes, row, k).1 is Err ==> tile_row(
            buffer,
            raw,
            offsets,
            counts,
            tiling,
            planes,
            row,
            n,
        ).1 == tile_row(buffer, raw, offsets, counts, tiling, planes, row, k).1,
    decreases n,
{
    if k < n {
        lemma_row_end(buffer, raw, offsets, counts, tiling, planes, row, k, (n - 1) as nat);
    }
}

/// An image that fails at one row of tiles has failed with that message at the end.
proof fn lemma_rows_end(
    buffer: Seq<u8>,
    raw: TiffIFD,
    offsets: TiffEntry,
    counts: Option<TiffEntry>,
    tiling: Tiling,
    planes: spec_fn(int) -> Seq<u8>,
    k: nat,
    n: nat,
)
    requires
        k <= n,
        tile_rows(buffer, raw, offsets, counts, tiling, planes, k) is Err,
    ensures
        tile_rows(buffer, raw, offsets, counts, tiling, planes, n) == tile_rows(
            buffer,
            raw,
            offsets,
            counts,
            tiling,
            planes,
            k,
        ),
    decreases n,
{
    if k < n {
        lemma_rows_end(buffer, raw, offsets, counts, tiling, planes, k, (n - 1) as nat);
    }
}

/// Decodes a file that holds tiles of the given size.
pub fn decode_tiles(
    buffer: &[u8],
    raw: &TiffIFD,
    offsets: &TiffEntry,
    width: usize,
    height: usize,
    twidth: usize,
    tlength: usize,
    dummy: bool,
) -> (res: Result<Vec<u16>, String>)
    requires
        tiles_readable(
            buffer@,
            *raw,
            *offsets,
            (Tiling {
                width: width as int,
                height: height as int,
                twidth: twidth as int,
                tlength: tlength as int,
            }),
            dummy,
        ),
    ensures
        exists|planes: spec_fn(int) -> Seq<u8>|
            same_image(
                res,
                #[trigger] tiled_image(
                    buffer@,
                    *raw,
                    *offsets,
                    (Tiling {
                        width: width as int,
                        height: height as int,
                        twidth: twidth as int,
                        tlength: tlength as int,
                    }),
                    planes,
                    dummy,
                ),
            ),
{
    let ghost tiling = Tiling {
        width: width as int,
        height: height as int,
        twidth: twidth as int,
        tlength: tlength as int,
    };
    proof {
        assert((width - 1) / twidth as int <= width - 1) by (nonlinear_arith)
            requires
                twidth >= 1,
                width >= 1,
        ;
        assert((height - 1) / tlength as int <= height - 1) by (nonlinear_arith)
            requires
                tlength >= 1,
                height >= 1,
        ;
    }
    let ghost none: spec_fn(int) -> Seq<u8> = |tile: int| seq![];
    // The result where nothing comes out of the decoder.
    let ghost unread = tiled_image(buffer@, *raw, *offsets, tiling, none, dummy);
    let coltiles: usize = (width - 1) / twidth + 1;
    let rowtiles: usize = (height - 1) / tlength + 1;
    let tiles: usize = coltiles * rowtiles;
    if tiles != offsets.count() {
        let mut text: String = with_number("DNG: trying to decode ", tiles, " tiles from ");
        push_with(&mut text, offsets.count(), " offsets");
        return Err(text);
    }
    let counts: Option<&TiffEntry> = raw.find_entry(Tag::TileByteCounts);
    if let Some(entry) = counts {
        if entry.count() != offsets.count() {
            let mut text: String = with_number(
                "DNG: found ",
                offsets.count(),
                " tile offsets but ",
            );
            push_with(&mut text, entry.count(), " tile byte counts");
            return Err(text);
        }
    }
    if dummy {
        return Ok(no_image());
    }
    let ghost found = raw.entry(Tag::TileByteCounts);
    let mut image: Vec<u16> = Vec::new();
    let mut row: usize = 0;
    let ghost mut planes = none;
    assert(forall|p: spec_fn(int) -> Seq<u8>|
        #[trigger] tiled_image(buffer@, *raw, *offsets, tiling, p, dummy) == tile_rows(
            buffer@,
            *raw,
            *offsets,
            found,
            tiling,
            p,
            rowtiles as nat,
        ));
    assert(image@ =~= seq![]);
    while row < rowtiles
        invariant
            tiling == (Tiling {
                width: width as int,
                height: height as int,
                twidth: twidth as int,
                tlength: tlength as int,
            }),
            tiling.wf(),
            width * height <= usize::MAX,
            rowtiles == tiling.rowtiles(),
            tiling.coltiles() * tiling.rowtiles() == offsets.count(),
            !dummy,
            found == raw.entry(Tag::TileByteCounts),
            found == pointed_entry(counts),
            counts matches Some(entry) ==> entry.count() == offsets.count(),
            forall|r: int|
                0 <= r < rowtiles ==> #[trigger] row_decodable(
                    buffer@,
                    *raw,
                    *offsets,
                    found,
                    tiling,
                    r,
                    tiling.coltiles() as nat,
                ),
            coltiles == tiling.coltiles(),
            row <= rowtiles,
            forall|p: spec_fn(int) -> Seq<u8>|
                #[trigger] tiled_image(buffer@, *raw, *offsets, tiling, p, dummy) == tile_rows(
                    buffer@,
                    *raw,
                    *offsets,
                    found,
                    tiling,
                    p,
                    rowtiles as nat,
                ),
            tile_rows(buffer@, *raw, *offsets, found, tiling, planes, row as nat) == Ok::<
                Seq<u16>,
                Seq<char>,
            >(image@),
        decreases rowtiles - row,
    {
        let decoded: Result<Vec<u16>, String> = decode_tile_row(
            buffer,
            raw,
            offsets,
            counts,
            width,
            height,
            twidth,
            tlength,
            row,
            coltiles,
        );
        proof {
            let cols = tiling.coltiles();
            assert(cols >= 0) by {
                vstd::arithmetic::div_mod::lemma_div_pos_is_pos(width - 1, twidth as int);
            }
            let own = choose|own: spec_fn(int) -> Seq<u8>|
                same_row(
                    decoded,
                    #[trigger] tile_row(
                        buffer@,
                        *raw,
                        *offsets,
                        found,
                        tiling,
                        own,
                        row as int,
                        cols as nat,
                    ),
                );
            let above = planes;
            planes = |t: int|
                if t < row * cols {
                    above(t)
                } else {
                    own(t)
                };
            lemma_rows_planes(
                buffer@,
                *raw,
                *offsets,
                found,
                tiling,
                above,
                planes,
                row as nat,
            );
            lemma_row_planes(
                buffer@,
                *raw,
                *offsets,
                found,
                tiling,
                own,
                planes,
                row as int,
                cols as nat,
            );
            assert(((row + 1) as nat - 1) as nat == row as nat);
            if decoded is Err {
                lemma_rows_end(
                    buffer@,
                    *raw,
                    *offsets,
                    found,
                    tiling,
                    planes,
                    (row + 1) as nat,
                    rowtiles as nat,
                );
                assert(same_image(
                    decoded,
                    tiled_image(buffer@, *raw, *offsets, tiling, planes, dummy),
                ));
            }
        }
        match decoded {
            Ok(mut strip) => {
                image.append(&mut strip);
            },
            Err(text) => return Err(text),
        }
        row = row + 1;
    }
    assert(tiled_image(buffer@, *raw, *offsets, tiling, planes, dummy) is Ok);
    Ok(image)
}

proof fn lemma_jpeg_len(
    src: Seq<u8>,
    out: Seq<u16>,
    region: Region,
    white: Option<TiffEntry>,
    bytes: Seq<u8>,
)
    ensures
        jpeg_result(src, out, region, white, bytes).0.len() == out.len(),
{
    reveal(jpeg_result);
    if let Ok(frame) = ljpeg_file(src) {
        crate::ljpeg::decode::decode_keeps_the_size(frame, out, region);
    }
}

pub proof fn lemma_tile_row_len(
    buffer: Seq<u8>,
    raw: TiffIFD,
    offsets: TiffEntry,
    counts: Option<TiffEntry>,
    tiling: Tiling,
    planes: spec_fn(int) -> Seq<u8>,
    row: int,
    n: nat,
)
    requires
        tiling.wf(),
        0 <= row < tiling.rowtiles(),
    ensures
        tile_row(buffer, raw, offsets, counts, tiling, planes, row, n).0.len() == tiling.width
            * tiling.tile_height(row),
    decreases n,
{
    lemma_tiles_along(tiling.height, tiling.tlength, row);
    let rows = tiling.tile_height(row);
    assert(0 <= tiling.width * rows) by (nonlinear_arith)
        requires
            tiling.width >= 1,
            rows >= 0,
    ;
    if n > 0 {
        lemma_tile_row_len(buffer, raw, offsets, counts, tiling, planes, row, (n - 1) as nat);
        let strip = tile_row(buffer, raw, offsets, counts, tiling, planes, row, (n - 1) as nat).0;
        let tile = row * tiling.coltiles() + n - 1;
        if let Ok(src) = tile_source(buffer, offsets, counts, tile) {
            lemma_jpeg_len(
                src,
                strip,
                tiling.region(row, n - 1),
                raw.entry(Tag::WhiteLevel),
                planes(tile),
            );
        }
    }
}

proof fn lemma_tile_rows_len(
    buffer: Seq<u8>,
    raw: TiffIFD,
    offsets: TiffEntry,
    counts: Option<TiffEntry>,
    tiling: Tiling,
    planes: spec_fn(int) -> Seq<u8>,
    n: nat,
)
    requires
        tiling.wf(),
        n <= tiling.rowtiles(),
    ensures
        tile_rows(buffer, raw, offsets, counts, tiling, planes, n) matches Ok(image) ==> image.len()
            == tiling.width * if n == tiling.rowtiles() {
            tiling.height
        } else {
            n * tiling.tlength
        },
    decreases n,
{
    if n == 0 {
        assert(tiling.width * (0 * tiling.tlength) == 0) by (nonlinear_arith);
        assert(tiling.rowtiles() >= 1) by {
            vstd::arithmetic::div_mod::lemma_div_pos_is_pos(tiling.height - 1, tiling.tlength);
        }
    } else {
        let row = n - 1;
        lemma_tile_rows_len(buffer, raw, offsets, counts, tiling, planes, (n - 1) as nat);
        lemma_tile_row_len(
            buffer,
            raw,
            offsets,
            counts,
            tiling,
            planes,
            row,
            tiling.coltiles() as nat,
        );
        lemma_tiles_along(tiling.height, tiling.tlength, row);
        if n < tiling.rowtiles() {
            lemma_tiles_along(tiling.height, tiling.tlength, n as int);
            assert(n * tiling.tlength == row * tiling.tlength + tiling.tlength)
                by (nonlinear_arith)
                requires
                    row == n - 1,
            ;
            assert(tiling.tile_height(row) == tiling.tlength);
        } else {
            vstd::arithmetic::div_mod::lemma_fundamental_div_mod(
                tiling.height - 1,
                tiling.tlength,
            );
            assert(tiling.height - row * tiling.tlength <= tiling.tlength) by (nonlinear_arith)
                requires
                    row == (tiling.height - 1) / tiling.tlength,
                    tiling.height - 1 == tiling.tlength * ((tiling.height - 1) / tiling.tlength) + (
                    tiling.height - 1) % tiling.tlength,
                    (tiling.height - 1) % tiling.tlength < tiling.tlength,
            ;
            assert(tiling.tile_height(row) == tiling.height - row * tiling.tlength);
        }
        let h = tiling.tile_height(row);
        assert(tiling.width * (row * tiling.tlength) + tiling.width * h == tiling.width * (row
            * tiling.tlength + h)) by (nonlinear_arith);
    }
}

/// An image of tiles that has been decoded has a sample for every place.
pub proof fn tiled_image_is_complete(
    buffer: Seq<u8>,
    raw: TiffIFD,
    offsets: TiffEntry,
    tiling: Tiling,
    planes: spec_fn(int) -> Seq<u8>,
)
    requires
        tiling.wf(),
        tiled_image(buffer, raw, offsets, tiling, planes, false) is Ok,
    ensures
        (tiled_image(buffer, raw, offsets, tiling, planes, false)->Ok_0).len() == tiling.width
            * tiling.height,
{
    assert(tiling.rowtiles() >= 1) by {
        vstd::arithmetic::div_mod::lemma_div_pos_is_pos(tiling.height - 1, tiling.tlength);
    }
    lemma_tile_rows_len(
        buffer,
        raw,
        offsets,
        raw.entry(Tag::TileByteCounts),
        tiling,
        planes,
        tiling.rowtiles() as nat,
    );
}

/// An image of a strip that has been decoded has a sample for every place.
pub proof fn strip_image_is_complete(
    buffer: Seq<u8>,
    raw: TiffIFD,
    offsets: TiffEntry,
    width: usize,
    height: usize,
    bytes: Seq<u8>,
)
    requires
        strip_image(buffer, raw, offsets, width, height, false, bytes) is Ok,
    ensures
        (strip_image(buffer, raw, offsets, width, height, false, bytes)->Ok_0).len() == width
            * height,
{
    let offset = offsets.integer(0) as int;
    let end = data_end(
        offset,
        value_of(raw.entry(Tag::StripByteCounts), 0),
        buffer.len() as int,
    )->0;
    assert(0 <= width * height) by (nonlinear_arith);
    lemma_jpeg_len(
        buffer.subrange(offset, end),
        blank((width * height) as nat),
        (Region {
            x: 0,
            stripwidth: width as nat,
            width: width as nat,
            height: height as nat,
        }),
        raw.entry(Tag::WhiteLevel),
        bytes,
    );
}

/// Two images have been decoded, or have failed with the same message.
pub open spec fn same_fate(
    image: Result<Seq<u16>, Seq<char>>,
    other: Result<Seq<u16>, Seq<char>>,
) -> bool {
    match (image, other) {
        (Ok(samples), Ok(others)) => samples.len() == others.len(),
        (Err(message), Err(text)) => message == text,
        _ => false,
    }
}

/// Whether JPEG data can be decoded, and why not, does not depend on the samples that were there
/// before, nor on those of the plane of the decoder.
pub proof fn jpeg_data_has_one_fate(
    src: Seq<u8>,
    out: Seq<u16>,
    other: Seq<u16>,
    region: Region,
    white: Option<TiffEntry>,
    bytes: Seq<u8>,
    others: Seq<u8>,
)
    requires
        out.len() == other.len(),
    ensures
        jpeg_result(src, out, region, white, bytes).1 == jpeg_result(
            src,
            other,
            region,
            white,
            others,
        ).1,
{
    reveal(jpeg_result);
    if let Ok(frame) = ljpeg_file(src) {
        if let Some(sampling) = frame.sampling() {
            crate::ljpeg::yuv::subsampled_decode_has_one_fate(
                sampling,
                frame,
                out,
                other,
                region.width,
                region.height,
            );
        }
    }
}

/// Whether a strip can be decoded, and why not, does not depend on the samples of the plane of the
/// decoder.
pub proof fn strips_have_one_fate(
    buffer: Seq<u8>,
    raw: TiffIFD,
    offsets: TiffEntry,
    width: usize,
    height: usize,
    dummy: bool,
    bytes: Seq<u8>,
    others: Seq<u8>,
)
    ensures
        same_fate(
            strip_image(buffer, raw, offsets, width, height, dummy, bytes),
            strip_image(buffer, raw, offsets, width, height, dummy, others),
        ),
{
    let offset = offsets.integer(0) as int;
    let region = Region {
        x: 0,
        stripwidth: width as nat,
        width: width as nat,
        height: height as nat,
    };
    let white = raw.entry(Tag::WhiteLevel);
    let out = blank((width * height) as nat);
    if let Some(end) = data_end(
        offset,
        value_of(raw.entry(Tag::StripByteCounts), 0),
        buffer.len() as int,
    ) {
        let src = buffer.subrange(offset, end);
        jpeg_data_has_one_fate(src, out, out, region, white, bytes, others);
        lemma_jpeg_len(src, out, region, white, bytes);
        lemma_jpeg_len(src, out, region, white, others);
    }
}

proof fn lemma_row_fate(
    buffer: Seq<u8>,
    raw: TiffIFD,
    offsets: TiffEntry,
    counts: Option<TiffEntry>,
    tiling: Tiling,
    planes: spec_fn(int) -> Seq<u8>,
    others: spec_fn(int) -> Seq<u8>,
    row: int,
    n: nat,
)
    ensures
        ({
            let (strip, res) = tile_row(
                buffer,
                raw,
                offsets,
                counts,
                tiling,
                planes,
                row,
                n,
            );
            let (other, expected) = tile_row(
                buffer,
                raw,
                offsets,
                counts,
                tiling,
                others,
                row,
                n,
            );
            res == expected && strip.len() == other.len()
        }),
    decreases n,
{
    if n > 0 {
        let k = (n - 1) as nat;
        lemma_row_fate(buffer, raw, offsets, counts, tiling, planes, others, row, k);
        let strip = tile_row(buffer, raw, offsets, counts, tiling, planes, row, k).0;
        let other = tile_row(buffer, raw, offsets, counts, tiling, others, row, k).0;
        let tile = row * tiling.coltiles() + n - 1;
        let region = tiling.region(row, n - 1);
        let white = raw.entry(Tag::WhiteLevel);
        if let Ok(src) = tile_source(buffer, offsets, counts, tile) {
            let bytes = planes(tile);
            let more = others(tile);
            jpeg_data_has_one_fate(src, strip, other, region, white, bytes, more);
            lemma_jpeg_len(src, strip, region, white, bytes);
            lemma_jpeg_len(src, other, region, white, more);
        }
    }
}

proof fn lemma_rows_fate(
    buffer: Seq<u8>,
    raw: TiffIFD,
    offsets: TiffEntry,
    counts: Option<TiffEntry>,
    tiling: Tiling,
    planes: spec_fn(int) -> Seq<u8>,
    others: spec_fn(int) -> Seq<u8>,
    n: nat,
)
    ensures
        same_fate(
            tile_rows(buffer, raw, offsets, counts, tiling, planes, n),
            tile_rows(buffer, raw, offsets, counts, tiling, others, n),
        ),
    decreases n,
{
    if n > 0 {
        lemma_rows_fate(buffer, raw, offsets, counts, tiling, planes, others, (n - 1) as nat);
        lemma_row_fate(
            buffer,
            raw,
            offsets,
            counts,
            tiling,
            planes,
            others,
            n - 1,
            tiling.coltiles() as nat,
        );
    }
}

/// Whether an image of tiles can be decoded, and why not, does not depend on the samples of the
/// planes of the decoder.
pub proof fn tiles_have_one_fate(
    buffer: Seq<u8>,
    raw: TiffIFD,
    offsets: TiffEntry,
    tiling: Tiling,
    planes: spec_fn(int) -> Seq<u8>,
    others: spec_fn(int) -> Seq<u8>,
    dummy: bool,
)
    ensures
        same_fate(
            tiled_image(buffer, raw, offsets, tiling, planes, dummy),
            tiled_image(buffer, raw, offsets, tiling, others, dummy),
        ),
{
    lemma_rows_fate(
        buffer,
        raw,
        offsets,
        raw.entry(Tag::TileByteCounts),
        tiling,
        planes,
        others,
        tiling.rowtiles() as nat,
    );
}

/// Every place of an image lies in one tile: the one in row `y / tlength` and column `x / twidth`
/// of the tiles.
pub proof fn tiles_cover_the_image(tiling: Tiling, x: int, y: int)
    requires
        tiling.wf(),
        0 <= x < tiling.width,
        0 <= y < tiling.height,
    ensures
        ({
            let row = y / tiling.tlength;
            let col = x / tiling.twidth;
            let region = tiling.region(row, col);
            &&& 0 <= row < tiling.rowtiles()
            &&& 0 <= col < tiling.coltiles()
            &&& region.wf()
            &&& 0 <= y - row * tiling.tlength < region.height
            &&& 0 <= x - region.x < region.width
        }),
{
    let row = y / tiling.tlength;
    let col = x / tiling.twidth;
    lemma_piece(tiling.height, tiling.tlength, y);
    lemma_piece(tiling.width, tiling.twidth, x);
}

/// A place lies in no other tile than its own.
pub proof fn tiles_do_not_overlap(tiling: Tiling, x: int, y: int, row: int, col: int)
    requires
        tiling.wf(),
        0 <= row < tiling.rowtiles(),
        0 <= col < tiling.coltiles(),
        row * tiling.tlength <= y < row * tiling.tlength + tiling.tile_height(row),
        col * tiling.twidth <= x < col * tiling.twidth + tiling.tile_width(col),
    ensures
        row == y / tiling.tlength,
        col == x / tiling.twidth,
{
    vstd::arithmetic::div_mod::lemma_fundamental_div_mod_converse(
        y,
        tiling.tlength,
        row,
        y - row * tiling.tlength,
    );
    vstd::arithmetic::div_mod::lemma_fundamental_div_mod_converse(
        x,
        tiling.twidth,
        col,
        x - col * tiling.twidth,
    );
}

proof fn lemma_piece(n: int, size: int, i: int)
    requires
        size >= 1,
        0 <= i < n,
    ensures
        0 <= i / size <= (n - 1) / size,
        0 <= (i / size) * size <= i,
        i - (i / size) * size < size,
{
    vstd::arithmetic::div_mod::lemma_fundamental_div_mod(i, size);
    vstd::arithmetic::div_mod::lemma_div_pos_is_pos(i, size);
    vstd::arithmetic::div_mod::lemma_div_is_ordered(i, n - 1, size);
    vstd::arithmetic::mul::lemma_mul_is_commutative(size, i / size);
    assert(0 <= (i / size) * size) by (nonlinear_arith)
        requires
            0 <= i / size,
            size >= 1,
    ;
}

/// In an image of tiles that has been decoded, the rows of tiles follow each other.
pub proof fn tile_rows_follow_each_other(
    buffer: Seq<u8>,
    raw: TiffIFD,
    offsets: TiffEntry,
    counts: Option<TiffEntry>,
    tiling: Tiling,
    planes: spec_fn(int) -> Seq<u8>,
    n: nat,
    row: int,
    i: int,
)
    requires
        tiling.wf(),
        n <= tiling.rowtiles(),
        0 <= row < n,
        tile_rows(buffer, raw, offsets, counts, tiling, planes, n) is Ok,
        0 <= i < tiling.width * tiling.tile_height(row),
    ensures
        ({
            let (strip, res) = tile_row(
                buffer,
                raw,
                offsets,
                counts,
                tiling,
                planes,
                row,
                tiling.coltiles() as nat,
            );
            &&& res is Ok
            &&& (tile_rows(buffer, raw, offsets, counts, tiling, planes, n)->Ok_0)[tiling.width * (row
                * tiling.tlength) + i] == strip[i]
        }),
    decreases n,
{
    let last = n - 1;
    lemma_tile_rows_len(buffer, raw, offsets, counts, tiling, planes, (n - 1) as nat);
    lemma_tile_row_len(buffer, raw, offsets, counts, tiling, planes, last, tiling.coltiles() as nat);
    lemma_tiles_along(tiling.height, tiling.tlength, row);
    assert(0 <= tiling.width * (row * tiling.tlength)) by (nonlinear_arith)
        requires
            0 <= row * tiling.tlength,
            tiling.width >= 1,
    ;
    if row < last {
        tile_rows_follow_each_other(
            buffer,
            raw,
            offsets,
            counts,
            tiling,
            planes,
            (n - 1) as nat,
            row,
            i,
        );
        let h = tiling.tile_height(row);
        assert(tiling.width * (row * tiling.tlength) + tiling.width * h <= tiling.width * (last
            * tiling.tlength)) by (nonlinear_arith)
            requires
                row + 1 <= last,
                h <= tiling.tlength,
                tiling.width >= 1,
                tiling.tlength >= 1,
        ;
    }
}

/// The data decodes into a rectangle: it is not lossless JPEG that fills the image from its start.
pub open spec fn fills_a_rectangle(src: Seq<u8>) -> bool {
    ljpeg_file(src) matches Ok(frame) ==> frame.sampling() is None && frame.predictor != 8
}

/// Decoding JPEG data into a rectangle changes nothing outside of it.
pub proof fn jpeg_keeps_the_rest(
    src: Seq<u8>,
    out: Seq<u16>,
    region: Region,
    white: Option<TiffEntry>,
    bytes: Seq<u8>,
    i: int,
)
    requires
        fills_a_rectangle(src),
        0 <= i < out.len(),
        !region.holds(i),
    ensures
        jpeg_result(src, out, region, white, bytes).0[i] == out[i],
{
    reveal(jpeg_result);
}

/// The samples that one tile of a row of tiles gives stay when the tiles to its right are decoded.
pub proof fn tiles_of_a_row_stay(
    buffer: Seq<u8>,
    raw: TiffIFD,
    offsets: TiffEntry,
    counts: Option<TiffEntry>,
    tiling: Tiling,
    planes: spec_fn(int) -> Seq<u8>,
    row: int,
    col: int,
    n: nat,
    i: int,
)
    requires
        tiling.wf(),
        0 <= row < tiling.rowtiles(),
        0 <= col < n <= tiling.coltiles(),
        forall|tile: int|
            row * tiling.coltiles() + col < tile < row * tiling.coltiles() + n ==> (
            #[trigger] tile_source(buffer, offsets, counts, tile) matches Ok(src)
                ==> fills_a_rectangle(src)),
        0 <= i < tiling.width * tiling.tile_height(row),
        tiling.region(row, col).holds(i),
    ensures
        tile_row(buffer, raw, offsets, counts, tiling, planes, row, n).0[i] == tile_row(
            buffer,
            raw,
            offsets,
            counts,
            tiling,
            planes,
            row,
            (col + 1) as nat,
        ).0[i],
    decreases n,
{
    let last = n - 1;
    if col < last {
        tiles_of_a_row_stay(
            buffer,
            raw,
            offsets,
            counts,
            tiling,
            planes,
            row,
            col,
            (n - 1) as nat,
            i,
        );
        lemma_tile_row_len(buffer, raw, offsets, counts, tiling, planes, row, (n - 1) as nat);
        let strip = tile_row(buffer, raw, offsets, counts, tiling, planes, row, (n - 1) as nat).0;
        let tile = row * tiling.coltiles() + n - 1;
        let region = tiling.region(row, last);
        lemma_tiles_along(tiling.width, tiling.twidth, last);
        lemma_tiles_along(tiling.width, tiling.twidth, col);
        assert(col * tiling.twidth + tiling.twidth <= last * tiling.twidth) by (nonlinear_arith)
            requires
                col + 1 <= last,
                tiling.twidth >= 1,
        ;
        assert(!region.holds(i));
        if let Ok(src) = tile_source(buffer, offsets, counts, tile) {
            jpeg_keeps_the_rest(
                src,
                strip,
                region,
                raw.entry(Tag::WhiteLevel),
                planes(tile),
                i,
            );
        }
    }
}

/// Where the whole row of tiles has been decoded, so has each of its tiles.
proof fn lemma_row_prefix(
    buffer: Seq<u8>,
    raw: TiffIFD,
    offsets: TiffEntry,
    counts: Option<TiffEntry>,
    tiling: Tiling,
    planes: spec_fn(int) -> Seq<u8>,
    row: int,
    k: nat,
    n: nat,
)
    requires
        k <= n,
        tile_row(buffer, raw, offsets, counts, tiling, planes, row, n).1 is Ok,
    ensures
        tile_row(buffer, raw, offsets, counts, tiling, planes, row, k).1 is Ok,
{
    lemma_row_end(buffer, raw, offsets, counts, tiling, planes, row, k, n);
}

/// In an image of tiles that has been decoded, the sample at a place is the one that decoding the
/// tile which covers it has left there, where the tiles to its right fill rectangles.
pub proof fn lemma_sample_of_a_tile(
    buffer: Seq<u8>,
    raw: TiffIFD,
    offsets: TiffEntry,
    tiling: Tiling,
    planes: spec_fn(int) -> Seq<u8>,
    x: int,
    y: int,
)
    requires
        tiling.wf(),
        tiled_image(buffer, raw, offsets, tiling, planes, false) is Ok,
        0 <= x < tiling.width,
        0 <= y < tiling.height,
        ({
            let own = (y / tiling.tlength) * tiling.coltiles() + x / tiling.twidth;
            let end = (y / tiling.tlength) * tiling.coltiles() + tiling.coltiles();
            forall|tile: int|
                own < tile < end ==> (#[trigger] tile_source(
                    buffer,
                    offsets,
                    raw.entry(Tag::TileByteCounts),
                    tile,
                ) matches Ok(src) ==> fills_a_rectangle(src))
        }),
    ensures
        ({
            let counts = raw.entry(Tag::TileByteCounts);
            let row = y / tiling.tlength;
            let col = x / tiling.twidth;
            let tile = row * tiling.coltiles() + col;
            let region = tiling.region(row, col);
            let r = y - row * tiling.tlength;
            let c = x - region.x;
            let strip = tile_row(
                buffer,
                raw,
                offsets,
                counts,
                tiling,
                planes,
                row,
                col as nat,
            ).0;
            let src = tile_source(buffer, offsets, counts, tile);
            let (samples, res) = jpeg_result(
                src->Ok_0,
                strip,
                region,
                raw.entry(Tag::WhiteLevel),
                planes(tile),
            );
            &&& src is Ok
            &&& res is Ok
            &&& region.wf()
            &&& 0 <= r < region.height
            &&& 0 <= c < region.width
            &&& strip.len() == tiling.width * tiling.tile_height(row)
            &&& (tiled_image(buffer, raw, offsets, tiling, planes, false)->Ok_0)[y * tiling.width
                + x] == samples[region.at(r, c)]
        }),
{
    let counts = raw.entry(Tag::TileByteCounts);
    let row = y / tiling.tlength;
    let col = x / tiling.twidth;
    let cols = tiling.coltiles();
    let rows = tiling.rowtiles();
    let region = tiling.region(row, col);
    let tile = row * cols + col;
    let r = y - row * tiling.tlength;
    let c = x - region.x;
    let white = raw.entry(Tag::WhiteLevel);
    tiles_cover_the_image(tiling, x, y);
    lemma_tiles_along(tiling.width, tiling.twidth, col);
    assert(0 <= row * cols && row * cols + cols <= cols * rows) by (nonlinear_arith)
        requires
            0 <= row,
            row + 1 <= rows,
            0 <= cols,
    ;
    // The place in its row of tiles.
    let i = r * tiling.width + x;
    assert(i == region.at(r, c));
    crate::region::lemma_region_at(region, r, c);
    lemma_tile_row_len(buffer, raw, offsets, counts, tiling, planes, row, cols as nat);
    assert(i < tiling.width * tiling.tile_height(row)) by (nonlinear_arith)
        requires
            i == r * tiling.width + x,
            r + 1 <= tiling.tile_height(row),
            0 <= x < tiling.width,
    ;
    assert(tiling.width * (row * tiling.tlength) + i == y * tiling.width + x) by (nonlinear_arith)
        requires
            i == r * tiling.width + x,
            r == y - row * tiling.tlength,
    ;
    tile_rows_follow_each_other(
        buffer,
        raw,
        offsets,
        counts,
        tiling,
        planes,
        rows as nat,
        row,
        i,
    );
    tiles_of_a_row_stay(buffer, raw, offsets, counts, tiling, planes, row, col, cols as nat, i);
    lemma_row_prefix(
        buffer,
        raw,
        offsets,
        counts,
        tiling,
        planes,
        row,
        (col + 1) as nat,
        cols as nat,
    );
    lemma_row_prefix(buffer, raw, offsets, counts, tiling, planes, row, col as nat, cols as nat);
    let strip = tile_row(buffer, raw, offsets, counts, tiling, planes, row, col as nat).0;
    assert(((col + 1) as nat - 1) as nat == col as nat);
    lemma_tile_row_len(buffer, raw, offsets, counts, tiling, planes, row, col as nat);
    let src = tile_source(buffer, offsets, counts, tile)->Ok_0;
    assert(jpeg_result(src, strip, region, white, planes(tile)).1 is Ok);
}

/// In an image of tiles that has been decoded, the sample at a place is that of the tile which
/// covers it, where the tile is lossless: the sample of its scan that belongs there. The tile and
/// those to its right fill rectangles.
pub proof fn tiled_image_holds_the_samples_of_its_tiles(
    buffer: Seq<u8>,
    raw: TiffIFD,
    offsets: TiffEntry,
    tiling: Tiling,
    planes: spec_fn(int) -> Seq<u8>,
    frame: Frame,
    x: int,
    y: int,
)
    requires
        tiling.wf(),
        tiled_image(buffer, raw, offsets, tiling, planes, false) is Ok,
        0 <= x < tiling.width,
        0 <= y < tiling.height,
        ({
            let own = (y / tiling.tlength) * tiling.coltiles() + x / tiling.twidth;
            let end = (y / tiling.tlength) * tiling.coltiles() + tiling.coltiles();
            forall|tile: int|
                own < tile < end ==> (#[trigger] tile_source(
                    buffer,
                    offsets,
                    raw.entry(Tag::TileByteCounts),
                    tile,
                ) matches Ok(src) ==> fills_a_rectangle(src))
        }),
        ({
            let tile = (y / tiling.tlength) * tiling.coltiles() + x / tiling.twidth;
            tile_source(buffer, offsets, raw.entry(Tag::TileByteCounts), tile) matches Ok(src)
                ==> ljpeg_file(src) == Ok::<Frame, Seq<char>>(frame) && fills_a_rectangle(src)
        }),
    ensures
        ({
            let row = y / tiling.tlength;
            let col = x / tiling.twidth;
            let region = tiling.region(row, col);
            let layout = frame.layout(region.width, region.height)->0;
            let total = frame.scan_rows(layout, region.height) * frame.row_len();
            let k = frame.source(layout, region.width, y - row * tiling.tlength, x - region.x);
            &&& 0 <= k < total
            &&& total == frame.scanned(total).values.len()
            &&& (tiled_image(buffer, raw, offsets, tiling, planes, false)->Ok_0)[y * tiling.width + x]
                == low16(frame.scanned(total).values[k])
        }),
{
    let row = y / tiling.tlength;
    let col = x / tiling.twidth;
    let region = tiling.region(row, col);
    let counts = raw.entry(Tag::TileByteCounts);
    let strip = tile_row(buffer, raw, offsets, counts, tiling, planes, row, col as nat).0;
    lemma_sample_of_a_tile(buffer, raw, offsets, tiling, planes, x, y);
    let tile = row * tiling.coltiles() + col;
    let src = tile_source(buffer, offsets, counts, tile)->Ok_0;
    let white = raw.entry(Tag::WhiteLevel);
    assert(ljpeg_file(src) == Ok::<Frame, Seq<char>>(frame));
    assert(frame.decoded(strip, region).1 is Ok && frame.decoded(strip, region).0 == jpeg_result(
        src,
        strip,
        region,
        white,
        planes(tile),
    ).0) by {
        reveal(jpeg_result);
    }
    crate::ljpeg::scan::standard_decode_fills_the_destination(
        frame,
        strip,
        region,
        y - row * tiling.tlength,
        x - region.x,
    );
}

/// In an image of tiles that has been decoded, the sample at a place is that of the tile which
/// covers it, where the tile is DCT-compressed: the sample of its plane that belongs there, scaled
/// to the white level of the file, which it does not exceed. The tiles to its right fill rectangles.
pub proof fn tiled_image_holds_the_samples_of_its_dct_tiles(
    buffer: Seq<u8>,
    raw: TiffIFD,
    offsets: TiffEntry,
    tiling: Tiling,
    planes: spec_fn(int) -> Seq<u8>,
    info: FrameInfo,
    x: int,
    y: int,
)
    requires
        tiling.wf(),
        tiled_image(buffer, raw, offsets, tiling, planes, false) is Ok,
        0 <= x < tiling.width,
        0 <= y < tiling.height,
        ({
            let own = (y / tiling.tlength) * tiling.coltiles() + x / tiling.twidth;
            let end = (y / tiling.tlength) * tiling.coltiles() + tiling.coltiles();
            forall|tile: int|
                own < tile < end ==> (#[trigger] tile_source(
                    buffer,
                    offsets,
                    raw.entry(Tag::TileByteCounts),
                    tile,
                ) matches Ok(src) ==> fills_a_rectangle(src))
        }),
        ({
            let tile = (y / tiling.tlength) * tiling.coltiles() + x / tiling.twidth;
            tile_source(buffer, offsets, raw.entry(Tag::TileByteCounts), tile) matches Ok(src)
                ==> ljpeg_file(src) is Err && inspected(src) == Ok::<FrameInfo, Seq<char>>(info)
        }),
    ensures
        ({
            let row = y / tiling.tlength;
            let col = x / tiling.twidth;
            let tile = row * tiling.coltiles() + col;
            let region = tiling.region(row, col);
            let len = (tiling.width * tiling.tile_height(row)) as nat;
            let src = tile_source(buffer, offsets, raw.entry(Tag::TileByteCounts), tile);
            let layout = dct_layout(info, region, len);
            let plane = plane_of(info, picture_of(src->Ok_0, info, planes(tile)));
            let (stride, data) = plane->Ok_0;
            let (line, column) = dct_source(
                layout->Ok_0,
                region.width,
                y - row * tiling.tlength,
                x - region.x,
            );
            let white = raw.entry(Tag::WhiteLevel);
            &&& src is Ok
            &&& layout is Ok
            &&& plane is Ok
            &&& white is Some
            &&& 0 <= line < info.height
            &&& 0 <= column < info.width
            &&& (tiled_image(buffer, raw, offsets, tiling, planes, false)->Ok_0)[y * tiling.width
                + x] == scaled(
                plane_sample(data, stride as int, info.precision, line, column),
                encoded_white(info.precision),
                white_level((white->0).integer(0)),
            )
            &&& info.precision == 8 || info.precision == 12 ==> (tiled_image(
                buffer,
                raw,
                offsets,
                tiling,
                planes,
                false,
            )->Ok_0)[y * tiling.width + x] <= white_level((white->0).integer(0))
        }),
{
    let row = y / tiling.tlength;
    let col = x / tiling.twidth;
    let tile = row * tiling.coltiles() + col;
    let region = tiling.region(row, col);
    let counts = raw.entry(Tag::TileByteCounts);
    let strip = tile_row(buffer, raw, offsets, counts, tiling, planes, row, col as nat).0;
    lemma_sample_of_a_tile(buffer, raw, offsets, tiling, planes, x, y);
    reveal(jpeg_result);
    let src = tile_source(buffer, offsets, counts, tile)->Ok_0;
    dct_decode_fills_the_destination(
        info,
        picture_of(src, info, planes(tile)),
        strip,
        region,
        (raw.entry(Tag::WhiteLevel)->0).integer(0),
        y - row * tiling.tlength,
        x - region.x,
    );
    crate::region::lemma_region_at(region, y - row * tiling.tlength, x - region.x);
    if info.precision == 8 || info.precision == 12 {
        dct_samples_stay_below_white(
            src,
            info,
            planes(tile),
            strip,
            region,
            (raw.entry(Tag::WhiteLevel)->0).integer(0),
        );
    }
}

/// The data of a strip that lies in the file.
pub open spec fn strip_source(buffer: Seq<u8>, raw: TiffIFD, offsets: TiffEntry) -> Seq<u8> {
    let offset = offsets.integer(0) as int;
    let end = data_end(
        offset,
        value_of(raw.entry(Tag::StripByteCounts), 0),
        buffer.len() as int,
    );
    buffer.subrange(offset, end->0)
}

/// In an image of a strip that has been decoded, the sample at a place is the one of the scan that
/// belongs there, where the strip is lossless and fills its rectangle.
pub proof fn strip_image_holds_the_samples_of_its_scan(
    buffer: Seq<u8>,
    raw: TiffIFD,
    offsets: TiffEntry,
    width: usize,
    height: usize,
    bytes: Seq<u8>,
    frame: Frame,
    x: int,
    y: int,
)
    requires
        strip_image(buffer, raw, offsets, width, height, false, bytes) is Ok,
        fills_a_rectangle(strip_source(buffer, raw, offsets)),
        ljpeg_file(strip_source(buffer, raw, offsets)) == Ok::<Frame, Seq<char>>(frame),
        0 <= x < width,
        0 <= y < height,
    ensures
        ({
            let layout = frame.layout(width as nat, height as nat)->0;
            let total = frame.scan_rows(layout, height as nat) * frame.row_len();
            let k = frame.source(layout, width as nat, y, x);
            &&& 0 <= k < total
            &&& total == frame.scanned(total).values.len()
            &&& (strip_image(buffer, raw, offsets, width, height, false, bytes)->Ok_0)[y * width
                + x] == low16(frame.scanned(total).values[k])
        }),
{
    let region = Region {
        x: 0,
        stripwidth: width as nat,
        width: width as nat,
        height: height as nat,
    };
    let out = blank((width * height) as nat);
    let src = strip_source(buffer, raw, offsets);
    let white = raw.entry(Tag::WhiteLevel);
    assert(frame.decoded(out, region).1 is Ok && frame.decoded(out, region).0 == jpeg_result(
        src,
        out,
        region,
        white,
        bytes,
    ).0) by {
        reveal(jpeg_result);
    }
    crate::ljpeg::scan::standard_decode_fills_the_destination(frame, out, region, y, x);
}

/// In an image of a strip that has been decoded, the sample at a place is that of the plane that
/// belongs there, scaled to the white level of the file, which it does not exceed, where the strip
/// is DCT-compressed.
pub proof fn strip_image_holds_the_samples_of_its_plane(
    buffer: Seq<u8>,
    raw: TiffIFD,
    offsets: TiffEntry,
    width: usize,
    height: usize,
    bytes: Seq<u8>,
    info: FrameInfo,
    x: int,
    y: int,
)
    requires
        strip_image(buffer, raw, offsets, width, height, false, bytes) is Ok,
        ljpeg_file(strip_source(buffer, raw, offsets)) is Err,
        inspected(strip_source(buffer, raw, offsets)) == Ok::<FrameInfo, Seq<char>>(info),
        0 <= x < width,
        0 <= y < height,
    ensures
        ({
            let region = Region {
                x: 0,
                stripwidth: width as nat,
                width: width as nat,
                height: height as nat,
            };
            let src = strip_source(buffer, raw, offsets);
            let layout = dct_layout(info, region, (width * height) as nat);
            let plane = plane_of(info, picture_of(src, info, bytes));
            let (stride, data) = plane->Ok_0;
            let (line, column) = dct_source(layout->Ok_0, width as nat, y, x);
            let white = raw.entry(Tag::WhiteLevel);
            &&& layout is Ok
            &&& plane is Ok
            &&& white is Some
            &&& 0 <= line < info.height
            &&& 0 <= column < info.width
            &&& (strip_image(buffer, raw, offsets, width, height, false, bytes)->Ok_0)[y * width
                + x] == scaled(
                plane_sample(data, stride as int, info.precision, line, column),
                encoded_white(info.precision),
                white_level((white->0).integer(0)),
            )
            &&& info.precision == 8 || info.precision == 12 ==> (strip_image(
                buffer,
                raw,
                offsets,
                width,
                height,
                false,
                bytes,
            )->Ok_0)[y * width + x] <= white_level((white->0).integer(0))
        }),
{
    let region = Region {
        x: 0,
        stripwidth: width as nat,
        width: width as nat,
        height: height as nat,
    };
    let src = strip_source(buffer, raw, offsets);
    assert(0 <= width * height) by (nonlinear_arith);
    reveal(jpeg_result);
    dct_decode_fills_the_destination(
        info,
        picture_of(src, info, bytes),
        blank((width * height) as nat),
        region,
        (raw.entry(Tag::WhiteLevel)->0).integer(0),
        y,
        x,
    );
    crate::region::lemma_region_at(region, y, x);
    if info.precision == 8 || info.precision == 12 {
        dct_samples_stay_below_white(
            src,
            info,
            bytes,
            blank((width * height) as nat),
            region,
            (raw.entry(Tag::WhiteLevel)->0).integer(0),
        );
    }
}

/// A byte count that leads to the end of the file or past it is cut off there: the data ends where
/// it ends without a byte count.
pub proof fn byte_counts_are_clamped(offset: int, n: int, len: int)
    requires
        offset < len,
        len <= offset + n <= usize::MAX,
    ensures
        data_end(offset, Some(n), len) == data_end(offset, None, len),
{
}

/// The byte counts of an entry, where there is one, lead to the end of the file or past it, by the
/// offsets of the data that lies in the file.
pub open spec fn counts_lead_past(
    counts: Option<TiffEntry>,
    offsets: TiffEntry,
    len: int,
) -> bool {
    counts matches Some(entry) ==> forall|i: int|
        0 <= i < offsets.count() && offsets.integer(i) < len ==> len <= offsets.integer(i)
            + #[trigger] entry.integer(i) <= usize::MAX
}

/// A byte count that leads past the end of the file gives the image that no byte count gives, and
/// where the one can be read, so can the other.
pub proof fn strip_byte_counts_past_the_end(
    buffer: Seq<u8>,
    raw: TiffIFD,
    other: TiffIFD,
    offsets: TiffEntry,
    width: usize,
    height: usize,
    dummy: bool,
    bytes: Seq<u8>,
)
    requires
        raw.entry(Tag::WhiteLevel) == other.entry(Tag::WhiteLevel),
        counts_lead_past(raw.entry(Tag::StripByteCounts), offsets, buffer.len() as int),
        other.entry(Tag::StripByteCounts) is None,
    ensures
        strip_image(buffer, raw, offsets, width, height, dummy, bytes) == strip_image(
            buffer,
            other,
            offsets,
            width,
            height,
            dummy,
            bytes,
        ),
        strip_readable(buffer, raw, offsets, width, height, dummy) ==> strip_readable(
            buffer,
            other,
            offsets,
            width,
            height,
            dummy,
        ),
{
    let offset = offsets.integer(0) as int;
    if let Some(entry) = raw.entry(Tag::StripByteCounts) {
        if offsets.count() == 1 && offset < buffer.len() {
            byte_counts_are_clamped(offset, entry.integer(0) as int, buffer.len() as int);
        }
    }
}

proof fn lemma_source_past_the_end(
    buffer: Seq<u8>,
    offsets: TiffEntry,
    counts: Option<TiffEntry>,
    tile: int,
)
    requires
        counts_lead_past(counts, offsets, buffer.len() as int),
        0 <= tile < offsets.count(),
    ensures
        tile_source(buffer, offsets, counts, tile) == tile_source(buffer, offsets, None, tile),
{
    let offset = offsets.integer(tile) as int;
    if let Some(entry) = counts {
        if offset < buffer.len() {
            byte_counts_are_clamped(offset, entry.integer(tile) as int, buffer.len() as int);
        }
    }
}

proof fn lemma_row_past_the_end(
    buffer: Seq<u8>,
    raw: TiffIFD,
    other: TiffIFD,
    offsets: TiffEntry,
    counts: Option<TiffEntry>,
    tiling: Tiling,
    planes: spec_fn(int) -> Seq<u8>,
    row: int,
    n: nat,
)
    requires
        raw.entry(Tag::WhiteLevel) == other.entry(Tag::WhiteLevel),
        counts_lead_past(counts, offsets, buffer.len() as int),
        0 <= row * tiling.coltiles(),
        row * tiling.coltiles() + n <= offsets.count(),
    ensures
        tile_row(buffer, raw, offsets, counts, tiling, planes, row, n) == tile_row(
            buffer,
            other,
            offsets,
            None,
            tiling,
            planes,
            row,
            n,
        ),
    decreases n,
{
    if n > 0 {
        lemma_row_past_the_end(
            buffer,
            raw,
            other,
            offsets,
            counts,
            tiling,
            planes,
            row,
            (n - 1) as nat,
        );
        lemma_source_past_the_end(buffer, offsets, counts, row * tiling.coltiles() + n - 1);
    }
}

proof fn lemma_rows_past_the_end(
    buffer: Seq<u8>,
    raw: TiffIFD,
    other: TiffIFD,
    offsets: TiffEntry,
    counts: Option<TiffEntry>,
    tiling: Tiling,
    planes: spec_fn(int) -> Seq<u8>,
    n: nat,
)
    requires
        raw.entry(Tag::WhiteLevel) == other.entry(Tag::WhiteLevel),
        counts_lead_past(counts, offsets, buffer.len() as int),
        0 <= tiling.coltiles(),
        n * tiling.coltiles() <= offsets.count(),
    ensures
        tile_rows(buffer, raw, offsets, counts, tiling, planes, n) == tile_rows(
            buffer,
            other,
            offsets,
            None,
            tiling,
            planes,
            n,
        ),
    decreases n,
{
    if n > 0 {
        let cols = tiling.coltiles();
        assert(0 <= (n - 1) * cols && (n - 1) * cols + cols == n * cols) by (nonlinear_arith)
            requires
                n >= 1,
                cols >= 0,
        ;
        lemma_rows_past_the_end(
            buffer,
            raw,
            other,
            offsets,
            counts,
            tiling,
            planes,
            (n - 1) as nat,
        );
        lemma_row_past_the_end(
            buffer,
            raw,
            other,
            offsets,
            counts,
            tiling,
            planes,
            n - 1,
            cols as nat,
        );
    }
}

/// The tiles of a row that are reached can be decoded without the byte counts too.
proof fn lemma_row_decodable_past_the_end(
    buffer: Seq<u8>,
    raw: TiffIFD,
    other: TiffIFD,
    offsets: TiffEntry,
    counts: Option<TiffEntry>,
    tiling: Tiling,
    row: int,
    n: nat,
)
    requires
        raw.entry(Tag::WhiteLevel) == other.entry(Tag::WhiteLevel),
        counts_lead_past(counts, offsets, buffer.len() as int),
        0 <= row * tiling.coltiles(),
        row * tiling.coltiles() + n <= offsets.count(),
        row_decodable(buffer, raw, offsets, counts, tiling, row, n),
    ensures
        row_decodable(buffer, other, offsets, None, tiling, row, n),
{
    reveal(row_decodable);
    assert forall|planes: spec_fn(int) -> Seq<u8>, col: nat|
        col < n && (#[trigger] tile_row(
            buffer,
            other,
            offsets,
            None,
            tiling,
            planes,
            row,
            col,
        )).1 is Ok implies tile_decodable(buffer, other, offsets, None, tiling, row, col as int) by {
        lemma_row_past_the_end(buffer, raw, other, offsets, counts, tiling, planes, row, col);
        assert(tile_row(buffer, raw, offsets, counts, tiling, planes, row, col).1 is Ok);
        lemma_source_past_the_end(buffer, offsets, counts, row * tiling.coltiles() + col);
    }
}

/// Byte counts that lead past the end of the file give the image that no byte counts give, and
/// where the one can be read, so can the other.
pub proof fn tile_byte_counts_past_the_end(
    buffer: Seq<u8>,
    raw: TiffIFD,
    other: TiffIFD,
    offsets: TiffEntry,
    tiling: Tiling,
    planes: spec_fn(int) -> Seq<u8>,
    dummy: bool,
)
    requires
        tiling.wf(),
        raw.entry(Tag::WhiteLevel) == other.entry(Tag::WhiteLevel),
        raw.entry(Tag::TileByteCounts) matches Some(entry) ==> entry.count() == offsets.count(),
        counts_lead_past(raw.entry(Tag::TileByteCounts), offsets, buffer.len() as int),
        other.entry(Tag::TileByteCounts) is None,
    ensures
        tiled_image(buffer, raw, offsets, tiling, planes, dummy) == tiled_image(
            buffer,
            other,
            offsets,
            tiling,
            planes,
            dummy,
        ),
        tiles_readable(buffer, raw, offsets, tiling, dummy) ==> tiles_readable(
            buffer,
            other,
            offsets,
            tiling,
            dummy,
        ),
{
    let cols = tiling.coltiles();
    let rows = tiling.rowtiles();
    vstd::arithmetic::div_mod::lemma_div_pos_is_pos(tiling.width - 1, tiling.twidth);
    vstd::arithmetic::div_mod::lemma_div_pos_is_pos(tiling.height - 1, tiling.tlength);
    assert(cols * rows == rows * cols) by (nonlinear_arith);
    if cols * rows == offsets.count() {
        lemma_rows_past_the_end(
            buffer,
            raw,
            other,
            offsets,
            raw.entry(Tag::TileByteCounts),
            tiling,
            planes,
            rows as nat,
        );
        if !dummy && tiles_readable(buffer, raw, offsets, tiling, dummy) {
            let counts = raw.entry(Tag::TileByteCounts);
            assert forall|row: int| 0 <= row < rows implies #[trigger] row_decodable(
                buffer,
                other,
                offsets,
                None,
                tiling,
                row,
                cols as nat,
            ) by {
                assert(0 <= row * cols && row * cols + cols <= rows * cols) by (nonlinear_arith)
                    requires
                        0 <= row < rows,
                        0 <= cols,
                ;
                assert(row_decodable(buffer, raw, offsets, counts, tiling, row, cols as nat));
                lemma_row_decodable_past_the_end(
                    buffer,
                    raw,
                    other,
                    offsets,
                    counts,
                    tiling,
                    row,
                    cols as nat,
                );
            }
        }
    }
}

} // verus!
