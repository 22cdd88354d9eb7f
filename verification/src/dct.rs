//! Raw samples from DCT-compressed JPEG data, which lossy DNG files hold.
use vstd::prelude::*;
use oxideav_core::{CodecId, CodecParameters, Frame, Packet, TimeBase};
use oxideav_mjpeg::decoder::make_decoder;
use oxideav_mjpeg::inspect_jpeg;
use crate::ljpeg::frame::Frame as LosslessFrame;
use crate::ljpeg::scan::Layout;
use crate::region::Region;
use crate::text::{decimal, push_number, push_with, same_result, with_number};

verus! {

/// What the headers of a JPEG file say of its frame.
#[derive(Debug)]
pub struct JpegFrame {
    /// The frame is DCT-compressed.
    pub is_dct: bool,
    /// The name of the kind of frame.
    pub kind: String,
    /// The number of components.
    pub components: usize,
    pub width: u16,
    pub height: u16,
    /// The number of bits of a sample.
    pub precision: u8,
}

/// The contents of a [`JpegFrame`].
pub struct FrameInfo {
    pub is_dct: bool,
    pub kind: Seq<char>,
    pub components: usize,
    pub width: u16,
    pub height: u16,
    pub precision: u8,
}

impl View for JpegFrame {
    type V = FrameInfo;

    open spec fn view(&self) -> FrameInfo {
        FrameInfo {
            is_dct: self.is_dct,
            kind: self.kind@,
            components: self.components,
            width: self.width,
            height: self.height,
            precision: self.precision,
        }
    }
}

/// What the JPEG decoder made of a file.
#[derive(Debug)]
pub enum Picture {
    /// There is no decoder, for this reason.
    NotCreated(String),
    /// The decoder did not take the file.
    NotSubmitted(String),
    /// The decoder could not decode the file.
    NotDecoded(String),
    /// The decoder gave something else than a picture.
    NotVideo,
    /// The number of planes, and the first of them: the bytes from one row to the next, and the
    /// bytes of all rows.
    Planes(usize, Option<(usize, Vec<u8>)>),
}

/// The contents of a [`Picture`].
pub enum PictureInfo {
    NotCreated(Seq<char>),
    NotSubmitted(Seq<char>),
    NotDecoded(Seq<char>),
    NotVideo,
    Planes(usize, Option<(usize, Seq<u8>)>),
}

impl View for Picture {
    type V = PictureInfo;

    open spec fn view(&self) -> PictureInfo {
        match self {
            Picture::NotCreated(text) => PictureInfo::NotCreated(text@),
            Picture::NotSubmitted(text) => PictureInfo::NotSubmitted(text@),
            Picture::NotDecoded(text) => PictureInfo::NotDecoded(text@),
            Picture::NotVideo => PictureInfo::NotVideo,
            Picture::Planes(count, first) => PictureInfo::Planes(
                *count,
                match first {
                    Some((stride, data)) => Some((*stride, data@)),
                    None => None,
                },
            ),
        }
    }
}

/// What the decoder made of a file, but for the samples: of the bytes of the first plane it has
/// only how many there are.
pub enum Outcome {
    NotCreated(Seq<char>),
    NotSubmitted(Seq<char>),
    NotDecoded(Seq<char>),
    NotVideo,
    Planes(usize, Option<(usize, nat)>),
}

impl PictureInfo {
    /// The picture without its samples.
    pub open spec fn outcome(self) -> Outcome {
        match self {
            PictureInfo::NotCreated(text) => Outcome::NotCreated(text),
            PictureInfo::NotSubmitted(text) => Outcome::NotSubmitted(text),
            PictureInfo::NotDecoded(text) => Outcome::NotDecoded(text),
            PictureInfo::NotVideo => Outcome::NotVideo,
            PictureInfo::Planes(count, first) => Outcome::Planes(
                count,
                match first {
                    Some((stride, data)) => Some((stride, data.len())),
                    None => None,
                },
            ),
        }
    }

    /// The rows of the first plane are made of pairs of bytes, whose second byte is at most 15.
    pub open spec fn has_twelve_bits(self) -> bool {
        match self {
            PictureInfo::Planes(_, Some((stride, data))) => forall|i: int|
                0 <= i < data.len() && (i % stride as int) % 2 == 1 ==> #[trigger] data[i] <= 15,
            _ => true,
        }
    }
}

/// What a byte can be that stands at `i` in a plane of samples: the second byte of a sample of 12
/// bits has its 4 high bits only.
pub open spec fn plane_byte(precision: u8, stride: int, i: int, byte: u8) -> u8 {
    if precision == 12 && (i % stride) % 2 == 1 {
        byte % 16
    } else {
        byte
    }
}

impl Outcome {
    /// The picture whose first plane, if there is one, holds the given bytes, as samples of a
    /// precision can have them.
    pub open spec fn with_bytes(self, precision: u8, bytes: Seq<u8>) -> PictureInfo {
        match self {
            Outcome::NotCreated(text) => PictureInfo::NotCreated(text),
            Outcome::NotSubmitted(text) => PictureInfo::NotSubmitted(text),
            Outcome::NotDecoded(text) => PictureInfo::NotDecoded(text),
            Outcome::NotVideo => PictureInfo::NotVideo,
            Outcome::Planes(count, first) => PictureInfo::Planes(
                count,
                match first {
                    Some((stride, len)) => Some(
                        (
                            stride,
                            Seq::new(
                                len,
                                |i: int| plane_byte(precision, stride as int, i, bytes[i]),
                            ),
                        ),
                    ),
                    None => None,
                },
            ),
        }
    }
}

/// What `oxideav_mjpeg::inspect_jpeg` finds in a file: whether its frame is DCT-compressed, the
/// name of the frame's kind, the number of components, width, height and precision; or its error.
pub uninterp spec fn inspected(src: Seq<u8>) -> Result<FrameInfo, Seq<char>>;

/// What the decoder of a codec makes of a file of the given width and height, but for the samples.
pub uninterp spec fn decoder_outcome(codec: Seq<char>, src: Seq<u8>, width: u32, height: u32) -> Outcome;

/// The frame that `oxideav_mjpeg::inspect_jpeg` finds, or the text of its error. It reads the
/// markers of the file, and what it finds depends on the bytes of the file alone. What it finds in
/// which bytes is not said here.
#[verifier::external_body]
fn inspect(src: &[u8]) -> (res: Result<JpegFrame, String>)
    ensures
        match (res, inspected(src@)) {
            (Ok(frame), Ok(info)) => frame@ == info,
            (Err(text), Err(message)) => text@ == message,
            _ => false,
        },
{
    match inspect_jpeg(src) {
        Ok(info) => Ok(JpegFrame {
            is_dct: info.sof_kind.is_dct(),
            kind: format!("{:?}", info.sof_kind),
            components: info.num_components(),
            width: info.width,
            height: info.height,
            precision: info.precision,
        }),
        Err(error) => Err(error.to_string()),
    }
}

/// The number of places where a file holds the two bytes that open a scan header.
pub open spec fn scan_headers(src: Seq<u8>) -> nat
    decreases src.len(),
{
    if src.len() < 2 {
        0
    } else {
        let before = scan_headers(src.drop_last());
        if src[src.len() - 2] == 0xff && src.last() == 0xda {
            before + 1
        } else {
            before
        }
    }
}

/// A frame is of a kind whose scans an arithmetic coder wrote, and whose coefficients later scans
/// can refine. The decoder refuses a file that starts with a differential frame before it reads a
/// scan, so the kinds of such frames do not count.
pub open spec fn is_arithmetic(info: FrameInfo) -> bool {
    info.kind == "ExtendedSequentialArith"@ || info.kind == "ProgressiveArith"@
}

/// The scans of a file are few enough to add up. A scan of an arithmetic coder can change a
/// coefficient by 2^13, from at most 2^28, and coefficients have 32 bits: they can hold what 229376
/// scans make of them.
pub open spec fn scans_add_up(src: Seq<u8>, info: FrameInfo) -> bool {
    is_arithmetic(info) ==> scan_headers(src) <= 229376
}

/// The picture that the decoder of `oxideav_mjpeg::decoder::make_decoder` gives by `receive_frame`
/// when the file is sent to it by `send_packet` as one packet, or the text of the first error of
/// the three. The decoder is made anew for every file, and whether there is an error, its text, and
/// the number and the sizes of the planes depend on the name of the codec, the bytes of the file,
/// the width and the height alone. The decoder takes samples of 8 and of 12 bits only. Those of 12
/// bits are limited to 4095 and stored in two bytes, the low one first. The samples themselves come
/// out of an inverse cosine transform in floating point, whose cosines may differ from one machine
/// to another: of them nothing else is said here, nor what comes out for which bytes.
///
/// The file has to hold a frame of one component that is not empty. A refining scan of an
/// arithmetic coder adds to the coefficients without a check for overflow, so there is a limit to
/// the number of such scans.
#[verifier::external_body]
fn run_decoder(codec: &str, src: &[u8], width: u32, height: u32) -> (picture: Picture)
    requires
        inspected(src@) matches Ok(info) && info.is_dct && info.components == 1 && info.width > 0
            && info.height > 0 && width == info.width && height == info.height && scans_add_up(
            src@,
            info,
        ),
    ensures
        picture@.outcome() == decoder_outcome(codec@, src@, width, height),
        inspected(src@) matches Ok(info) && info.precision != 8 && info.precision != 12
            ==> picture@ is NotDecoded,
        inspected(src@) matches Ok(info) && info.precision == 12 ==> picture@.has_twelve_bits(),
{
    let mut params = CodecParameters::video(CodecId::new(codec));
    params.width = Some(width);
    params.height = Some(height);
    let mut decoder = match make_decoder(&params) {
        Ok(decoder) => decoder,
        Err(error) => return Picture::NotCreated(error.to_string()),
    };
    if let Err(error) = decoder.send_packet(&Packet::new(0, TimeBase::SECONDS, src.to_vec())) {
        return Picture::NotSubmitted(error.to_string());
    }
    match decoder.receive_frame() {
        Ok(Frame::Video(video)) => Picture::Planes(video.planes.len(), video.planes.into_iter().next().map(|p| (p.stride, p.data))),
        Ok(_) => Picture::NotVideo,
        Err(error) => Picture::NotDecoded(error.to_string()),
    }
}

/// What is wrong with placing the samples of a frame in a rectangle of an image of `len` samples,
/// or how they are placed: row by row, or with several rows of the rectangle in one row of the
/// frame.
pub open spec fn dct_layout(info: FrameInfo, region: Region, len: nat) -> Result<Layout, Seq<char>> {
    let factor = info.width as nat / region.width;
    let row_end = region.x + region.width;
    let horizontal = info.width >= region.width && info.height >= region.height;
    let stacked = info.width as nat % region.width == 0 && factor > 1 && region.height
        <= info.height * factor;
    if !info.is_dct {
        Err("JPEG frame "@ + info.kind + " is not DCT-compressed"@)
    } else if info.components != 1 {
        Err(
            "DNG DCT JPEG has "@ + decimal(info.components as nat)
                + " components, expected one sensor plane"@,
        )
    } else if info.width == 0 || info.height == 0 {
        Err(
            "DNG DCT JPEG has invalid dimensions "@ + decimal(info.width as nat) + "x"@ + decimal(
                info.height as nat,
            ),
        )
    } else if !horizontal && !stacked {
        Err(
            "DNG DCT JPEG "@ + decimal(info.width as nat) + "x"@ + decimal(info.height as nat)
                + " cannot fill tile "@ + decimal(region.width) + "x"@ + decimal(region.height),
        )
    } else if row_end > usize::MAX {
        Err("DNG DCT JPEG destination row overflowed"@)
    } else if row_end > region.stripwidth {
        Err(
            "DNG DCT JPEG destination "@ + decimal(region.x) + ".."@ + decimal(row_end)
                + " exceeds row width "@ + decimal(region.stripwidth),
        )
    } else if region.extent() > usize::MAX {
        Err("DNG DCT JPEG destination size overflowed"@)
    } else if region.extent() > len {
        Err(
            "DNG DCT JPEG destination has "@ + decimal(len) + " samples, needs "@ + decimal(
                region.extent(),
            ),
        )
    } else if horizontal {
        Ok(Layout::Rows)
    } else {
        Ok(Layout::Stacked(factor as usize))
    }
}

/// The bytes of a stored sample.
pub open spec fn sample_bytes(precision: u8) -> int {
    if precision <= 8 {
        1
    } else {
        2
    }
}

/// The plane of a picture, with the bytes from one of its rows to the next; or why the picture has
/// none that holds the frame.
pub open spec fn plane_of(info: FrameInfo, picture: PictureInfo) -> Result<
    (usize, Seq<u8>),
    Seq<char>,
> {
    match picture {
        PictureInfo::NotCreated(text) => Err("could not create DCT JPEG decoder: "@ + text),
        PictureInfo::NotSubmitted(text) => Err("could not submit DCT JPEG tile: "@ + text),
        PictureInfo::NotDecoded(text) => Err("DCT JPEG decode failed: "@ + text),
        PictureInfo::NotVideo => Err("DCT JPEG decoder returned a non-video frame"@),
        PictureInfo::Planes(count, first) => match first {
            Some((stride, data)) => if count != 1 {
                Err(
                    "DNG DCT JPEG decoded to "@ + decimal(count as nat) + " planes, expected one"@,
                )
            } else if stride < info.width * sample_bytes(info.precision) || data.len() < stride
                * info.height {
                Err(
                    "DNG DCT JPEG plane has stride "@ + decimal(stride as nat) + " and "@ + decimal(
                        data.len(),
                    ) + " bytes for "@ + decimal(info.width as nat) + "x"@ + decimal(
                        info.height as nat,
                    ) + " samples"@,
                )
            } else {
                Ok((stride, data))
            },
            None => Err("DNG DCT JPEG decoded to "@ + decimal(0) + " planes, expected one"@),
        },
    }
}

/// The largest sample of a precision.
pub open spec fn encoded_white(precision: u8) -> int {
    if precision >= 16 {
        65535
    } else {
        vstd::arithmetic::power2::pow2(precision as nat) - 1
    }
}

/// A white level as it is used: at least 1, at most 65535.
pub open spec fn white_level(target_white: u32) -> int {
    if target_white < 1 {
        1
    } else if target_white > 65535 {
        65535
    } else {
        target_white as int
    }
}

/// A sample scaled from one white level to another, rounded to nearest, at most 65535.
pub open spec fn scaled(sample: int, from_white: int, to_white: int) -> u16 {
    let value = (sample * to_white + from_white / 2) / from_white;
    if value > 65535 {
        65535
    } else {
        value as u16
    }
}

/// The sample in a row and column of a plane.
pub open spec fn plane_sample(data: Seq<u8>, stride: int, precision: u8, row: int, column: int) -> int {
    let at = row * stride + column * sample_bytes(precision);
    if sample_bytes(precision) == 1 {
        data[at] as int
    } else {
        data[at] + 256 * data[at + 1]
    }
}

/// The row and the column of the frame whose sample goes to row `r` and column `c` of a rectangle.
pub open spec fn dct_source(layout: Layout, width: nat, r: int, c: int) -> (int, int) {
    match layout {
        Layout::Stacked(factor) => (r / factor as int, (r % factor as int) * width + c),
        _ => (r, c),
    }
}

/// The image once the samples of a plane stand in a rectangle of it.
pub open spec fn with_plane(
    out: Seq<u16>,
    region: Region,
    layout: Layout,
    info: FrameInfo,
    plane: (usize, Seq<u8>),
    target_white: u32,
) -> Seq<u16> {
    Seq::new(
        out.len(),
        |i: int|
            if region.holds(i) {
                let (row, column) = dct_source(layout, region.width, region.row(i), region.col(i));
                scaled(
                    plane_sample(plane.1, plane.0 as int, info.precision, row, column),
                    encoded_white(info.precision),
                    white_level(target_white),
                )
            } else {
                out[i]
            },
    )
}

/// What decoding makes of a rectangle of an image, and the message if it fails, by what was found
/// in the headers and what the decoder gave.
pub open spec fn dct_result(
    found: Result<FrameInfo, Seq<char>>,
    picture: PictureInfo,
    out: Seq<u16>,
    region: Region,
    target_white: u32,
) -> (Seq<u16>, Result<(), Seq<char>>) {
    match found {
        Err(message) => (out, Err("JPEG inspection failed: "@ + message)),
        Ok(info) => match dct_layout(info, region, out.len()) {
            Err(message) => (out, Err(message)),
            Ok(layout) => match plane_of(info, picture) {
                Err(message) => (out, Err(message)),
                Ok(plane) => (
                    with_plane(out, region, layout, info, plane, target_white),
                    Ok(()),
                ),
            },
        },
    }
}

/// A frame that claims a precision of 0 bits comes with no plane: such samples have no scale.
pub open spec fn has_scale(info: FrameInfo, picture: PictureInfo) -> bool {
    info.precision == 0 ==> plane_of(info, picture) is Err
}

/// A file can be decoded into a rectangle of an image of `len` samples, or there is a message that
/// says why not: its scans add up if it is decoded at all.
pub open spec fn dct_decodable(src: Seq<u8>, region: Region, len: nat) -> bool {
    match inspected(src) {
        Ok(info) => dct_layout(info, region, len) is Ok ==> scans_add_up(src, info),
        Err(_) => true,
    }
}

/// The picture that the decoder makes of a file whose headers say what was found, where its plane
/// holds the given bytes.
pub open spec fn picture_of(src: Seq<u8>, info: FrameInfo, bytes: Seq<u8>) -> PictureInfo {
    decoder_outcome("mjpeg"@, src, info.width as u32, info.height as u32).with_bytes(
        info.precision,
        bytes,
    )
}

/// What decoding a file makes of a rectangle of an image, and the message if it fails, where the
/// plane that the decoder gives holds the given bytes.
pub open spec fn dct_file_result(
    src: Seq<u8>,
    out: Seq<u16>,
    region: Region,
    target_white: u32,
    bytes: Seq<u8>,
) -> (Seq<u16>, Result<(), Seq<char>>) {
    let found = inspected(src);
    dct_result(found, picture_of(src, found->Ok_0, bytes), out, region, target_white)
}

/// No sample of a rectangle of an image exceeds a white level.
pub open spec fn below_white(out: Seq<u16>, region: Region, target_white: u32) -> bool {
    forall|i: int|
        0 <= i < out.len() && region.holds(i) ==> #[trigger] out[i] <= white_level(target_white)
}

/// A decode has left the samples, and the message if it failed, that were expected.
pub open spec fn same_decode(
    out: Seq<u16>,
    res: Result<(), String>,
    expected: (Seq<u16>, Result<(), Seq<char>>),
) -> bool {
    out == expected.0 && same_result(res, expected.1)
}

fn text_after(before: &str, text: &String) -> (res: String)
    ensures
        res@ == before@ + text@,
{
    let mut res: String = before.to_string();
    res.append(text.as_str());
    res
}

/// How the samples of a frame are placed in a rectangle of an image of `len` samples.
pub fn plan_dct(
    frame: &JpegFrame,
    len: usize,
    x: usize,
    stripwidth: usize,
    width: usize,
    height: usize,
) -> (res: Result<Layout, String>)
    requires
        width > 0,
        height > 0,
    ensures
        ({
            let region = Region {
                x: x as nat,
                stripwidth: stripwidth as nat,
                width: width as nat,
                height: height as nat,
            };
            same_result(res, dct_layout(frame@, region, len as nat))
        }),
{
    let ghost region = Region {
        x: x as nat,
        stripwidth: stripwidth as nat,
        width: width as nat,
        height: height as nat,
    };
    if !frame.is_dct {
        let mut text: String = text_after("JPEG frame ", &frame.kind);
        text.append(" is not DCT-compressed");
        return Err(text);
    }
    if frame.components != 1 {
        return Err(
            with_number(
                "DNG DCT JPEG has ",
                frame.components,
                " components, expected one sensor plane",
            ),
        );
    }
    let encoded_width: usize = frame.width as usize;
    let encoded_height: usize = frame.height as usize;
    if encoded_width == 0 || encoded_height == 0 {
        let mut text: String = with_number(
            "DNG DCT JPEG has invalid dimensions ",
            encoded_width,
            "x",
        );
        push_number(&mut text, encoded_height);
        return Err(text);
    }
    let horizontal: bool = encoded_width >= width && encoded_height >= height;
    let factor: usize = encoded_width / width;
    proof {
        assert(factor <= 65535 && encoded_height * factor <= 65535 * 65535) by (nonlinear_arith)
            requires
                factor == encoded_width as int / width as int,
                encoded_width <= 65535,
                encoded_height <= 65535,
                width >= 1,
        ;
    }
    let stacked: bool = encoded_width % width == 0 && factor > 1 && encoded_height * factor
        >= height;
    if !horizontal && !stacked {
        let mut text: String = with_number("DNG DCT JPEG ", encoded_width, "x");
        push_with(&mut text, encoded_height, " cannot fill tile ");
        push_with(&mut text, width, "x");
        push_number(&mut text, height);
        return Err(text);
    }
    let row_end: usize = match x.checked_add(width) {
        Some(row_end) => row_end,
        None => return Err("DNG DCT JPEG destination row overflowed".to_string()),
    };
    if row_end > stripwidth {
        let mut text: String = with_number("DNG DCT JPEG destination ", x, "..");
        push_with(&mut text, row_end, " exceeds row width ");
        push_number(&mut text, stripwidth);
        return Err(text);
    }
    let before: usize = match (height - 1).checked_mul(stripwidth) {
        Some(before) => before,
        None => {
            assert(region.extent() >= (height - 1) * stripwidth);
            return Err("DNG DCT JPEG destination size overflowed".to_string());
        },
    };
    let required: usize = match before.checked_add(row_end) {
        Some(required) => required,
        None => return Err("DNG DCT JPEG destination size overflowed".to_string()),
    };
    assert(required == region.extent());
    if required > len {
        let mut text: String = with_number("DNG DCT JPEG destination has ", len, " samples, needs ");
        push_number(&mut text, required);
        return Err(text);
    }
    if horizontal {
        Ok(Layout::Rows)
    } else {
        Ok(Layout::Stacked(factor))
    }
}

/// The plane of a picture that holds the samples of a frame.
pub fn take_plane(frame: &JpegFrame, picture: Picture) -> (res: Result<(usize, Vec<u8>), String>)
    ensures
        match (res, plane_of(frame@, picture@)) {
            (Ok((stride, data)), Ok(plane)) => plane == (stride, data@),
            (Err(text), Err(message)) => text@ == message,
            _ => false,
        },
{
    let (count, first): (usize, Option<(usize, Vec<u8>)>) = match picture {
        Picture::NotCreated(text) => {
            return Err(text_after("could not create DCT JPEG decoder: ", &text));
        },
        Picture::NotSubmitted(text) => {
            return Err(text_after("could not submit DCT JPEG tile: ", &text));
        },
        Picture::NotDecoded(text) => {
            return Err(text_after("DCT JPEG decode failed: ", &text));
        },
        Picture::NotVideo => {
            return Err("DCT JPEG decoder returned a non-video frame".to_string());
        },
        Picture::Planes(count, first) => (count, first),
    };
    let (stride, data): (usize, Vec<u8>) = match first {
        Some(plane) => plane,
        None => {
            return Err(with_number("DNG DCT JPEG decoded to ", 0, " planes, expected one"));
        },
    };
    if count != 1 {
        return Err(with_number("DNG DCT JPEG decoded to ", count, " planes, expected one"));
    }
    let encoded_width: usize = frame.width as usize;
    let encoded_height: usize = frame.height as usize;
    let bytes_per_sample: usize = if frame.precision <= 8 {
        1
    } else {
        2
    };
    let row_bytes: usize = encoded_width * bytes_per_sample;
    let held: bool = match stride.checked_mul(encoded_height) {
        Some(needed) => data.len() >= needed,
        None => false,
    };
    if stride < row_bytes || !held {
        let mut text: String = with_number("DNG DCT JPEG plane has stride ", stride, " and ");
        push_with(&mut text, data.len(), " bytes for ");
        push_with(&mut text, encoded_width, "x");
        push_with(&mut text, encoded_height, " samples");
        return Err(text);
    }
    Ok((stride, data))
}

fn white_of(precision: u8) -> (white: u32)
    ensures
        white == encoded_white(precision),
        precision > 0 ==> 1 <= white,
        white <= 65535,
{
    if precision >= 16 {
        return 65535;
    }
    proof {
        vstd::arithmetic::power2::lemma2_to64();
        vstd::arithmetic::power2::lemma_pow2_strictly_increases(precision as nat, 16);
        if precision > 0 {
            vstd::arithmetic::power2::lemma_pow2_strictly_increases(0, precision as nat);
        } else {
            assert(vstd::arithmetic::power2::pow2(0) == 1);
        }
    }
    crate::ljpeg::huffman::power_of_two(precision) as u32 - 1
}

fn scale_sample(sample: u16, from_white: u32, to_white: u32) -> (value: u16)
    requires
        1 <= from_white <= 65535,
        1 <= to_white <= 65535,
    ensures
        value == scaled(sample as int, from_white as int, to_white as int),
{
    assert(0 <= sample * to_white <= 65535 * 65535) by (nonlinear_arith)
        requires
            sample <= 65535,
            to_white <= 65535,
    ;
    let value: u32 = (sample as u32 * to_white + from_white / 2) / from_white;
    if value > 65535 {
        65535
    } else {
        value as u16
    }
}

fn read_sample(data: &Vec<u8>, stride: usize, precision: u8, row: usize, column: usize, Ghost(
    info,
): Ghost<FrameInfo>) -> (sample: u16)
    requires
        info.precision == precision,
        row < info.height,
        column < info.width,
        stride >= info.width * sample_bytes(precision),
        data@.len() >= stride * info.height,
    ensures
        sample == plane_sample(data@, stride as int, precision, row as int, column as int),
{
    let len: usize = data.len();
    proof {
        assert(0 <= row * stride && row * stride + stride <= stride * info.height)
            by (nonlinear_arith)
            requires
                row + 1 <= info.height,
        ;
    }
    if precision <= 8 {
        assert(sample_bytes(precision) == 1);
        assert(info.width * sample_bytes(precision) == info.width) by (nonlinear_arith)
            requires
                sample_bytes(precision) == 1,
        ;
        assert(column * sample_bytes(precision) == column) by (nonlinear_arith)
            requires
                sample_bytes(precision) == 1,
        ;
        data[row * stride + column] as u16
    } else {
        assert(sample_bytes(precision) == 2);
        assert(info.width * sample_bytes(precision) == 2 * info.width) by (nonlinear_arith)
            requires
                sample_bytes(precision) == 2,
        ;
        assert(column * sample_bytes(precision) == 2 * column) by (nonlinear_arith)
            requires
                sample_bytes(precision) == 2,
        ;
        let at: usize = row * stride + column * 2;
        data[at] as u16 + 256 * (data[at + 1] as u16)
    }
}

/// Stores the samples of a picture in a rectangle of an image, scaled to a white level.
#[verifier::rlimit(30)]
pub fn place_picture(
    frame: &JpegFrame,
    picture: Picture,
    layout: Layout,
    out: &mut [u16],
    x: usize,
    stripwidth: usize,
    width: usize,
    height: usize,
    target_white: u32,
) -> (res: Result<(), String>)
    requires
        width > 0,
        height > 0,
        has_scale(frame@, picture@),
        dct_layout(
            frame@,
            (Region {
                x: x as nat,
                stripwidth: stripwidth as nat,
                width: width as nat,
                height: height as nat,
            }),
            old(out)@.len(),
        ) == Ok::<Layout, Seq<char>>(layout),
    ensures
        ({
            let region = Region {
                x: x as nat,
                stripwidth: stripwidth as nat,
                width: width as nat,
                height: height as nat,
            };
            let (samples, expected) = dct_result(
                Ok(frame@),
                picture@,
                old(out)@,
                region,
                target_white,
            );
            final(out)@ == samples && same_result(res, expected)
        }),
{
    let ghost region = Region {
        x: x as nat,
        stripwidth: stripwidth as nat,
        width: width as nat,
        height: height as nat,
    };
    let ghost info = frame@;
    let ghost out0 = out@;
    let len: usize = out.len();
    let (stride, data): (usize, Vec<u8>) = match take_plane(frame, picture) {
        Ok(plane) => plane,
        Err(text) => return Err(text),
    };
    let ghost plane = (stride, data@);
    let encoded_white: u32 = white_of(frame.precision);
    let target: u32 = if target_white < 1 {
        1
    } else if target_white > 65535 {
        65535
    } else {
        target_white
    };
    let ghost all = with_plane(out0, region, layout, info, plane, target_white);
    let mut r: usize = 0;
    while r < height
        invariant
            0 < width,
            0 < height,
            region == (Region {
                x: x as nat,
                stripwidth: stripwidth as nat,
                width: width as nat,
                height: height as nat,
            }),
            info == frame@,
            plane == (stride, data@),
            stride >= info.width * sample_bytes(info.precision),
            data@.len() >= stride * info.height,
            dct_layout(info, region, out0.len()) == Ok::<Layout, Seq<char>>(layout),
            region.wf(),
            region.extent() <= len,
            len == out0.len(),
            len == out@.len(),
            encoded_white == crate::dct::encoded_white(info.precision),
            1 <= encoded_white <= 65535,
            target == white_level(target_white),
            1 <= target <= 65535,
            all == with_plane(out0, region, layout, info, plane, target_white),
            r <= height,
            forall|i: int|
                0 <= i < len ==> #[trigger] out@[i] == if region.row(i) < r {
                    all[i]
                } else {
                    out0[i]
                },
        decreases height - r,
    {
        let mut c: usize = 0;
        while c < width
            invariant
                0 < width,
                0 < height,
                region == (Region {
                    x: x as nat,
                    stripwidth: stripwidth as nat,
                    width: width as nat,
                    height: height as nat,
                }),
                info == frame@,
                plane == (stride, data@),
                stride >= info.width * sample_bytes(info.precision),
                data@.len() >= stride * info.height,
                dct_layout(info, region, out0.len()) == Ok::<Layout, Seq<char>>(layout),
                region.wf(),
                region.extent() <= len,
                len == out0.len(),
                len == out@.len(),
                encoded_white == crate::dct::encoded_white(info.precision),
                1 <= encoded_white <= 65535,
                target == white_level(target_white),
                1 <= target <= 65535,
                all == with_plane(out0, region, layout, info, plane, target_white),
                r < height,
                c <= width,
                forall|i: int|
                    0 <= i < len ==> #[trigger] out@[i] == if region.row(i) < r || (region.row(i)
                        == r && region.col(i) < c) {
                        all[i]
                    } else {
                        out0[i]
                    },
            decreases width - c,
        {
            proof {
                lemma_dct_source(info, region, len as nat, layout, r as int, c as int);
                crate::region::lemma_region_at(region, r as int, c as int);
                assert(0 <= r * stripwidth) by (nonlinear_arith);
            }
            let (row, column): (usize, usize) = match layout {
                Layout::Stacked(factor) => (r / factor, (r % factor) * width + c),
                _ => (r, c),
            };
            let sample: u16 = read_sample(&data, stride, frame.precision, row, column, Ghost(info));
            let value: u16 = scale_sample(sample, encoded_white, target);
            let at: usize = r * stripwidth + x + c;
            let ghost before = out@;
            out[at] = value;
            proof {
                assert forall|i: int| 0 <= i < len implies #[trigger] out@[i] == if region.row(i) < r
                    || (region.row(i) == r && region.col(i) < c + 1) {
                    all[i]
                } else {
                    out0[i]
                } by {
                    assert(before[i] == before[i]);
                    vstd::arithmetic::div_mod::lemma_fundamental_div_mod(i, stripwidth as int);
                    if i != at {
                        if region.row(i) == r && region.col(i) == c {
                            assert(stripwidth * region.row(i) == r * stripwidth)
                                by (nonlinear_arith)
                                requires
                                    region.row(i) == r,
                            ;
                        }
                    }
                }
            }
            c = c + 1;
        }
        proof {
            assert forall|i: int| 0 <= i < len implies #[trigger] out@[i] == if region.row(i) < r + 1 {
                all[i]
            } else {
                out0[i]
            } by {
                if region.row(i) == r && region.col(i) >= width {
                    assert(all[i] == out0[i]);
                }
            }
        }
        r = r + 1;
    }
    assert(out@ =~= all);
    Ok(())
}

/// Every place of the rectangle has its sample in the frame.
proof fn lemma_dct_source(
    info: FrameInfo,
    region: Region,
    len: nat,
    layout: Layout,
    r: int,
    c: int,
)
    requires
        region.width > 0,
        dct_layout(info, region, len) == Ok::<Layout, Seq<char>>(layout),
        0 <= r < region.height,
        0 <= c < region.width,
    ensures
        ({
            let (row, column) = dct_source(layout, region.width, r, c);
            0 <= row < info.height && 0 <= column < info.width
        }),
        layout matches Layout::Stacked(factor) ==> factor > 1 && 0 <= (r % factor as int)
            * region.width <= usize::MAX,
{
    match layout {
        Layout::Stacked(factor) => {
            let f = factor as int;
            let w = region.width as int;
            let nat_factor = info.width as nat / region.width;
            vstd::arithmetic::div_mod::lemma_fundamental_div_mod(info.width as int, w);
            assert(nat_factor <= info.width) by (nonlinear_arith)
                requires
                    nat_factor == info.width as nat / region.width,
                    region.width >= 1,
            ;
            assert(f == nat_factor);
            assert(info.width == w * f);
            vstd::arithmetic::div_mod::lemma_fundamental_div_mod(r, f);
            assert(r / f < info.height) by (nonlinear_arith)
                requires
                    r == f * (r / f) + r % f,
                    0 <= r % f,
                    r < info.height * f,
                    f > 0,
            ;
            vstd::arithmetic::div_mod::lemma_div_pos_is_pos(r, f);
            assert((r % f) * w + c < w * f && 0 <= (r % f) * w) by (nonlinear_arith)
                requires
                    0 <= r % f < f,
                    0 <= c < w,
            ;
        },
        _ => {},
    }
}

/// A picture is made up of its outcome and the bytes of its plane.
proof fn lemma_outcome(picture: PictureInfo, precision: u8)
    requires
        precision == 12 ==> picture.has_twelve_bits(),
    ensures
        exists|bytes: Seq<u8>| #[trigger] picture.outcome().with_bytes(precision, bytes) == picture,
{
    let bytes = match picture {
        PictureInfo::Planes(_, Some((_, data))) => data,
        _ => seq![],
    };
    if let PictureInfo::Planes(_, Some((stride, data))) = picture {
        assert(Seq::new(data.len(), |i: int| plane_byte(precision, stride as int, i, bytes[i]))
            =~= data);
    }
    assert(picture.outcome().with_bytes(precision, bytes) == picture);
}

/// Counts the places where a file holds the two bytes that open a scan header, and tells whether
/// they are few enough.
fn few_scans(src: &[u8], frame: &JpegFrame) -> (few: bool)
    ensures
        few == scans_add_up(src@, frame@),
{
    let arithmetic: bool = frame.kind == "ExtendedSequentialArith".to_string() || frame.kind
        == "ProgressiveArith".to_string();
    if !arithmetic {
        return true;
    }
    let mut count: usize = 0;
    let mut i: usize = 0;
    assert(src@.take(0) =~= seq![]);
    while i < src.len()
        invariant
            i <= src@.len(),
            count <= i,
            count == scan_headers(src@.take(i as int)),
        decreases src@.len() - i,
    {
        assert(src@.take(i + 1).drop_last() =~= src@.take(i as int));
        if i >= 1 && src[i - 1] == 0xff && src[i] == 0xda {
            count = count + 1;
        }
        i = i + 1;
    }
    assert(src@.take(i as int) =~= src@);
    count <= 229376
}

/// Decodes a DCT-compressed JPEG tile, such as the 12-bit grayscale form of extended-sequential
/// JPEG that lossy DNG uses. A row of the JPEG frame can hold several rows of the destination, one
/// behind the other, as in lossless DNG.
pub fn decode_dct_jpeg(
    src: &[u8],
    out: &mut [u16],
    x: usize,
    stripwidth: usize,
    width: usize,
    height: usize,
    target_white: u32,
    dummy: bool,
) -> (res: Result<(), String>)
    requires
        !dummy && width > 0 && height > 0 ==> dct_decodable(
            src@,
            (Region {
                x: x as nat,
                stripwidth: stripwidth as nat,
                width: width as nat,
                height: height as nat,
            }),
            old(out)@.len(),
        ),
    ensures
        dummy || width == 0 || height == 0 ==> res is Ok && final(out)@ == old(out)@,
        !dummy && width > 0 && height > 0 ==> {
            let region = Region {
                x: x as nat,
                stripwidth: stripwidth as nat,
                width: width as nat,
                height: height as nat,
            };
            &&& exists|bytes: Seq<u8>|
                same_decode(
                    final(out)@,
                    res,
                    #[trigger] dct_file_result(src@, old(out)@, region, target_white, bytes),
                )
            &&& res is Ok ==> below_white(final(out)@, region, target_white)
        },
{
    if dummy || width == 0 || height == 0 {
        return Ok(());
    }
    let ghost region = Region {
        x: x as nat,
        stripwidth: stripwidth as nat,
        width: width as nat,
        height: height as nat,
    };
    let ghost out0 = out@;
    // The result where nothing comes out of the decoder.
    let ghost unread = dct_file_result(src@, out0, region, target_white, seq![]);
    let frame: JpegFrame = match inspect(src) {
        Ok(frame) => frame,
        Err(text) => return Err(text_after("JPEG inspection failed: ", &text)),
    };
    let layout: Layout = match plan_dct(&frame, out.len(), x, stripwidth, width, height) {
        Ok(layout) => layout,
        Err(text) => return Err(text),
    };
    let picture: Picture = run_decoder("mjpeg", src, frame.width as u32, frame.height as u32);
    proof {
        lemma_outcome(picture@, frame@.precision);
        let bytes = choose|bytes: Seq<u8>|
            #[trigger] picture@.outcome().with_bytes(frame@.precision, bytes) == picture@;
        assert(picture_of(src@, frame@, bytes) == picture@);
        assert(dct_file_result(src@, out0, region, target_white, bytes) == dct_result(
            Ok(frame@),
            picture@,
            out0,
            region,
            target_white,
        ));
        if plane_of(frame@, picture@) is Ok {
            dct_samples_stay_below_white(src@, frame@, bytes, out0, region, target_white);
        }
    }
    place_picture(&frame, picture, layout, out, x, stripwidth, width, height, target_white)
}

/// Tells whether a file can be decoded into a rectangle of an image of `len` samples, or there is a
/// message that says why not.
pub fn can_decode_dct(
    src: &[u8],
    len: usize,
    x: usize,
    stripwidth: usize,
    width: usize,
    height: usize,
) -> (decodable: bool)
    requires
        width > 0,
        height > 0,
    ensures
        decodable == dct_decodable(
            src@,
            (Region {
                x: x as nat,
                stripwidth: stripwidth as nat,
                width: width as nat,
                height: height as nat,
            }),
            len as nat,
        ),
{
    match inspect(src) {
        Ok(frame) => plan_dct(&frame, len, x, stripwidth, width, height).is_err() || few_scans(
            src,
            &frame,
        ),
        Err(_) => true,
    }
}

/// [`decode_dct_jpeg`], where the scans of the file add up; `None` where they do not.
pub fn try_decode_dct_jpeg(
    src: &[u8],
    out: &mut [u16],
    x: usize,
    stripwidth: usize,
    width: usize,
    height: usize,
    target_white: u32,
    dummy: bool,
) -> (res: Option<Result<(), String>>)
    ensures
        dummy || width == 0 || height == 0 ==> res == Some(Ok::<(), String>(())) && final(out)@ == old(
            out,
        )@,
        !dummy && width > 0 && height > 0 ==> {
            let region = Region {
                x: x as nat,
                stripwidth: stripwidth as nat,
                width: width as nat,
                height: height as nat,
            };
            match res {
                Some(done) => {
                    &&& dct_decodable(src@, region, old(out)@.len())
                    &&& exists|bytes: Seq<u8>|
                        same_decode(
                            final(out)@,
                            done,
                            #[trigger] dct_file_result(
                                src@,
                                old(out)@,
                                region,
                                target_white,
                                bytes,
                            ),
                        )
                    &&& done is Ok ==> below_white(final(out)@, region, target_white)
                },
                None => !dct_decodable(src@, region, old(out)@.len()) && final(out)@ == old(out)@,
            }
        },
{
    if dummy || width == 0 || height == 0 {
        return Some(Ok(()));
    }
    if !can_decode_dct(src, out.len(), x, stripwidth, width, height) {
        return None;
    }
    Some(decode_dct_jpeg(src, out, x, stripwidth, width, height, target_white, dummy))
}

/// Scaling takes black to black and the one white level to the other.
pub proof fn scaling_keeps_black_and_white(from_white: int, to_white: int)
    requires
        1 <= from_white <= 65535,
        1 <= to_white <= 65535,
    ensures
        scaled(0, from_white, to_white) == 0,
        scaled(from_white, from_white, to_white) == to_white,
{
    vstd::arithmetic::div_mod::lemma_fundamental_div_mod_converse(
        0 * to_white + from_white / 2,
        from_white,
        0,
        from_white / 2,
    );
    assert(from_white * to_white == to_white * from_white) by (nonlinear_arith);
    vstd::arithmetic::div_mod::lemma_fundamental_div_mod_converse(
        from_white * to_white + from_white / 2,
        from_white,
        to_white,
        from_white / 2,
    );
}

/// Scaling keeps the order of samples.
pub proof fn scaling_keeps_order(a: int, b: int, from_white: int, to_white: int)
    requires
        0 <= a <= b,
        1 <= from_white,
        1 <= to_white,
    ensures
        scaled(a, from_white, to_white) <= scaled(b, from_white, to_white),
{
    assert(0 <= a * to_white <= b * to_white) by (nonlinear_arith)
        requires
            0 <= a <= b,
            1 <= to_white,
    ;
    vstd::arithmetic::div_mod::lemma_div_is_ordered(
        a * to_white + from_white / 2,
        b * to_white + from_white / 2,
        from_white,
    );
    vstd::arithmetic::div_mod::lemma_div_pos_is_pos(a * to_white + from_white / 2, from_white);
}

/// Scaling from a white level to the same one changes nothing.
pub proof fn scaling_to_the_same_white(sample: int, white: int)
    requires
        0 <= sample <= 65535,
        1 <= white <= 65535,
    ensures
        scaled(sample, white, white) == sample,
{
    vstd::arithmetic::div_mod::lemma_fundamental_div_mod_converse(
        sample * white + white / 2,
        white,
        sample,
        white / 2,
    );
}

/// A sample of a plane that the decoder gives does not exceed the largest one of its precision.
proof fn lemma_sample_fits(src: Seq<u8>, info: FrameInfo, bytes: Seq<u8>, row: int, column: int)
    requires
        info.precision == 8 || info.precision == 12,
        plane_of(info, picture_of(src, info, bytes)) is Ok,
        0 <= row < info.height,
        0 <= column < info.width,
    ensures
        ({
            let (stride, data) = plane_of(info, picture_of(src, info, bytes))->Ok_0;
            0 <= plane_sample(data, stride as int, info.precision, row, column) <= encoded_white(
                info.precision,
            )
        }),
{
    let (stride, data) = plane_of(info, picture_of(src, info, bytes))->Ok_0;
    vstd::arithmetic::power2::lemma2_to64();
    if info.precision == 12 {
        let at = row * stride + 2 * column;
        assert(0 <= at && at + 1 < stride * info.height) by (nonlinear_arith)
            requires
                at == row * stride + 2 * column,
                0 <= row,
                row + 1 <= info.height,
                0 <= column,
                2 * column + 1 < stride,
        ;
        vstd::arithmetic::div_mod::lemma_fundamental_div_mod_converse(
            at + 1,
            stride as int,
            row,
            2 * column + 1,
        );
        assert(data[at + 1] <= 15);
    }
}

/// Where samples of 8 or 12 bits are decoded, none of the rectangle exceeds the white level.
pub proof fn dct_samples_stay_below_white(
    src: Seq<u8>,
    info: FrameInfo,
    bytes: Seq<u8>,
    out: Seq<u16>,
    region: Region,
    target_white: u32,
)
    requires
        info.precision == 8 || info.precision == 12,
        region.width > 0,
        dct_result(Ok(info), picture_of(src, info, bytes), out, region, target_white).1 is Ok,
    ensures
        below_white(
            dct_result(Ok(info), picture_of(src, info, bytes), out, region, target_white).0,
            region,
            target_white,
        ),
{
    let layout = dct_layout(info, region, out.len())->Ok_0;
    let (stride, data) = plane_of(info, picture_of(src, info, bytes))->Ok_0;
    let samples = dct_result(
        Ok(info),
        picture_of(src, info, bytes),
        out,
        region,
        target_white,
    ).0;
    let white = encoded_white(info.precision);
    vstd::arithmetic::power2::lemma2_to64();
    scaling_keeps_black_and_white(white, white_level(target_white));
    assert forall|i: int| 0 <= i < samples.len() && region.holds(i) implies #[trigger] samples[i]
        <= white_level(target_white) by {
        crate::region::lemma_region_holds(region, i);
        lemma_dct_source(info, region, out.len(), layout, region.row(i), region.col(i));
        let (row, column) = dct_source(layout, region.width, region.row(i), region.col(i));
        lemma_sample_fits(src, info, bytes, row, column);
        scaling_keeps_order(
            plane_sample(data, stride as int, info.precision, row, column),
            white,
            white,
            white_level(target_white),
        );
    }
}

/// A decode that succeeds gives every place of the rectangle the scaled sample of the frame that
/// belongs there, and changes nothing else.
pub proof fn dct_decode_fills_the_destination(
    info: FrameInfo,
    picture: PictureInfo,
    out: Seq<u16>,
    region: Region,
    target_white: u32,
    r: int,
    c: int,
)
    requires
        dct_result(Ok(info), picture, out, region, target_white).1 is Ok,
        0 <= r < region.height,
        0 <= c < region.width,
    ensures
        ({
            let layout = dct_layout(info, region, out.len())->Ok_0;
            let (stride, data) = plane_of(info, picture)->Ok_0;
            let (row, column) = dct_source(layout, region.width, r, c);
            &&& 0 <= row < info.height
            &&& 0 <= column < info.width
            &&& dct_result(Ok(info), picture, out, region, target_white).0[region.at(r, c)]
                == scaled(
                plane_sample(data, stride as int, info.precision, row, column),
                encoded_white(info.precision),
                white_level(target_white),
            )
        }),
        forall|i: int|
            0 <= i < out.len() && !region.holds(i) ==> #[trigger] dct_result(
                Ok(info),
                picture,
                out,
                region,
                target_white,
            ).0[i] == out[i],
{
    let layout = dct_layout(info, region, out.len())->Ok_0;
    lemma_dct_source(info, region, out.len(), layout, r, c);
    crate::region::lemma_region_at(region, r, c);
}

/// DCT-compressed and lossless frames of one size and one component are laid out alike: where a
/// rectangle can be filled from the one, it can be filled from the other, from the same samples.
pub proof fn dct_layouts_are_those_of_lossless_frames(
    info: FrameInfo,
    frame: LosslessFrame,
    region: Region,
    len: nat,
    r: int,
    c: int,
)
    requires
        dct_layout(info, region, len) is Ok,
        frame.cps == 1,
        frame.width == info.width,
        frame.height == info.height,
        0 <= r < region.height,
        0 <= c < region.width,
    ensures
        ({
            let layout = dct_layout(info, region, len)->Ok_0;
            let (row, column) = dct_source(layout, region.width, r, c);
            &&& frame.layout(region.width, region.height) == Some(layout)
            &&& frame.source(layout, region.width, r, c) == row * info.width + column
        }),
{
    let layout = dct_layout(info, region, len)->Ok_0;
    assert(frame.row_len() == info.width);
    let factor = info.width as nat / region.width;
    assert(info.height * factor <= 65535 * 65535) by (nonlinear_arith)
        requires
            factor == info.width as nat / region.width,
            region.width >= 1,
            info.width <= 65535,
            info.height <= 65535,
    ;
}

} // verus!
