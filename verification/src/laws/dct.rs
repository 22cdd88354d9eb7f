//! What placing a decoded picture in an image gives back of its samples.
use vstd::prelude::*;
use crate::dct::{dct_decodable, dct_decode_fills_the_destination, dct_layout, dct_result, dct_source,
    encoded_white, inspected, plane_of, plane_sample, scaled, scan_headers, white_level, FrameInfo,
    PictureInfo};
use crate::ljpeg::scan::Layout;
use crate::region::Region;

verus! {

/// A plane was built row by row from samples of 8 or 12 bits: its rows lie `stride` bytes apart,
/// and a sample of a row takes one byte, or two, the low one first.
pub open spec fn plane_holds(
    data: Seq<u8>,
    stride: int,
    info: FrameInfo,
    samples: spec_fn(int, int) -> int,
) -> bool {
    &&& data.len() >= stride * info.height
    &&& info.precision == 8 ==> stride >= info.width && forall|r: int, c: int|
        0 <= r < info.height && 0 <= c < info.width ==> 0 <= #[trigger] samples(r, c) <= 255
            && data[r * stride + c] == samples(r, c)
    &&& info.precision == 12 ==> stride >= 2 * info.width && forall|r: int, c: int|
        0 <= r < info.height && 0 <= c < info.width ==> 0 <= #[trigger] samples(r, c) <= 4095
            && data[r * stride + 2 * c] == samples(r, c) % 256 && data[r * stride + 2 * c + 1]
            == samples(r, c) / 256
}

/// A value is the nearest one to a sample that is scaled from one white level to another.
pub open spec fn is_nearest(value: int, sample: int, from_white: int, to_white: int) -> bool {
    -from_white <= 2 * (value * from_white - sample * to_white) <= from_white
}

/// The sample of a plane in a row and a column is the one that it was built from there.
pub proof fn planes_give_back_their_samples(
    data: Seq<u8>,
    stride: int,
    info: FrameInfo,
    samples: spec_fn(int, int) -> int,
    r: int,
    c: int,
)
    requires
        info.precision == 8 || info.precision == 12,
        plane_holds(data, stride, info, samples),
        0 <= r < info.height,
        0 <= c < info.width,
    ensures
        plane_sample(data, stride, info.precision, r, c) == samples(r, c),
{
    let sample = samples(r, c);
    if info.precision == 12 {
        assert(c * 2 == 2 * c);
        assert(data[r * stride + 2 * c] == sample % 256);
        assert(data[r * stride + 2 * c + 1] == sample / 256);
    } else {
        assert(c * 1 == c);
        assert(data[r * stride + c] == sample);
    }
}

/// A sample is scaled to the nearest value.
pub proof fn scaling_rounds_to_nearest(sample: int, from_white: int, to_white: int)
    requires
        0 <= sample <= from_white <= 65535,
        1 <= from_white,
        1 <= to_white <= 65535,
    ensures
        is_nearest(scaled(sample, from_white, to_white) as int, sample, from_white, to_white),
{
    let n = sample * to_white + from_white / 2;
    let q = n / from_white;
    vstd::arithmetic::div_mod::lemma_fundamental_div_mod(n, from_white);
    assert(0 <= sample * to_white <= from_white * to_white) by (nonlinear_arith)
        requires
            0 <= sample <= from_white,
            1 <= to_white,
    ;
    vstd::arithmetic::div_mod::lemma_div_pos_is_pos(n, from_white);
    assert(q <= to_white) by (nonlinear_arith)
        requires
            from_white * q <= n,
            n <= from_white * to_white + from_white / 2,
            from_white / 2 < from_white,
            1 <= from_white,
    ;
    assert(q * from_white == from_white * q) by (nonlinear_arith);
}

/// A decoded picture of 8 or 12 bits is placed in a rectangle that its frame can fill: the sample in
/// row `r` and column `c` of the rectangle is that of the frame's row `r` and column `c`, scaled
/// from the largest sample to the white level, where the frame is as wide and as high as the
/// rectangle. Where the frame is lower, but several times as wide, its rows hold that many rows of
/// the rectangle each, one behind the other. All else of the image stays as it was, and a picture
/// that can fill the rectangle in neither way is refused.
pub proof fn pictures_are_placed_by_rows(
    info: FrameInfo,
    stride: usize,
    data: Seq<u8>,
    samples: spec_fn(int, int) -> int,
    out: Seq<u16>,
    region: Region,
    target_white: u32,
)
    requires
        info.is_dct,
        info.components == 1,
        info.width > 0,
        info.height > 0,
        info.precision == 8 || info.precision == 12,
        plane_holds(data, stride as int, info, samples),
        region.width > 0,
        region.height > 0,
        region.x + region.width <= region.stripwidth <= usize::MAX,
        (region.height - 1) * region.stripwidth + region.x + region.width <= out.len() <= usize::MAX,
    ensures
        ({
            let picture = PictureInfo::Planes(1, Some((stride, data)));
            let (image, res) = dct_result(Ok(info), picture, out, region, target_white);
            let largest = if info.precision == 8 {
                255
            } else {
                4095int
            };
            let white = if target_white == 0 {
                1
            } else if target_white > 65535 {
                65535
            } else {
                target_white as int
            };
            let factor = info.width as int / region.width as int;
            let alike = info.width >= region.width && info.height >= region.height;
            let stacked = !alike && factor > 1 && info.width == factor * region.width
                && region.height <= info.height * factor;
            &&& image.len() == out.len()
            &&& res is Ok <==> alike || stacked
            &&& alike ==> forall|r: int, c: int|
                0 <= r < region.height && 0 <= c < region.width ==> is_nearest(
                    #[trigger] image[region.x + r * region.stripwidth + c] as int,
                    samples(r, c),
                    largest,
                    white,
                )
            &&& stacked ==> forall|r: int, c: int|
                0 <= r < region.height && 0 <= c < region.width ==> is_nearest(
                    #[trigger] image[region.x + r * region.stripwidth + c] as int,
                    samples(r / factor, (r % factor) * region.width + c),
                    largest,
                    white,
                )
            &&& forall|i: int|
                0 <= i < out.len() && !(i / (region.stripwidth as int) < region.height && region.x
                    <= i % (region.stripwidth as int) < region.x + region.width)
                    ==> #[trigger] image[i] == out[i]
        }),
{
    let picture = PictureInfo::Planes(1, Some((stride, data)));
    let (image, res) = dct_result(Ok(info), picture, out, region, target_white);
    let w = region.width as int;
    let factor = info.width as int / w;
    let alike = info.width >= region.width && info.height >= region.height;
    let stacked = !alike && factor > 1 && info.width == factor * w && region.height <= info.height
        * factor;
    vstd::arithmetic::power2::lemma2_to64();
    vstd::arithmetic::div_mod::lemma_fundamental_div_mod(info.width as int, w);
    assert(factor * w == w * factor) by (nonlinear_arith);
    assert(factor <= info.width) by (nonlinear_arith)
        requires
            w * factor <= info.width,
            1 <= w,
            0 <= info.width,
            factor * w == w * factor,
    ;
    assert(region.extent() == (region.height - 1) * region.stripwidth + region.x + region.width);
    let layout = dct_layout(info, region, out.len());
    assert(info.width * crate::dct::sample_bytes(info.precision) <= stride);
    assert(plane_of(info, picture) == Ok::<(usize, Seq<u8>), Seq<char>>((stride, data)));
    assert(alike ==> layout == Ok::<Layout, Seq<char>>(Layout::Rows));
    assert(stacked ==> layout == Ok::<Layout, Seq<char>>(Layout::Stacked(factor as usize)));
    assert(!alike && !stacked ==> layout is Err);
    if alike || stacked {
        assert forall|r: int, c: int| 0 <= r < region.height && 0 <= c < region.width implies {
            let (row, column) = dct_source(layout->Ok_0, region.width, r, c);
            &&& is_nearest(
                #[trigger] image[region.x + r * region.stripwidth + c] as int,
                samples(row, column),
                encoded_white(info.precision),
                white_level(target_white),
            )
        } by {
            dct_decode_fills_the_destination(info, picture, out, region, target_white, r, c);
            let (row, column) = dct_source(layout->Ok_0, region.width, r, c);
            planes_give_back_their_samples(data, stride as int, info, samples, row, column);
            scaling_rounds_to_nearest(
                samples(row, column),
                encoded_white(info.precision),
                white_level(target_white),
            );
            assert(region.at(r, c) == region.x + r * region.stripwidth + c);
        }
    }
}

/// Nothing is placed but one plane of a DCT-compressed frame of one component, that holds a sample
/// for each of its places, and only in a rectangle that the image holds.
pub proof fn pictures_are_placed_only_where_they_fit(
    found: Result<FrameInfo, Seq<char>>,
    picture: PictureInfo,
    out: Seq<u16>,
    region: Region,
    target_white: u32,
)
    requires
        dct_result(found, picture, out, region, target_white).1 is Ok,
        region.height > 0,
    ensures
        found matches Ok(info) && info.is_dct && info.components == 1 && info.width > 0 && info.height > 0
            && (picture matches PictureInfo::Planes(1, Some((stride, data))) && data.len() >= stride
            * info.height && stride >= info.width && (info.precision > 8 ==> stride >= 2 * info.width)),
        region.x + region.width <= region.stripwidth,
        (region.height - 1) * region.stripwidth + region.x + region.width <= out.len(),
{
}

proof fn lemma_scan_headers_have_two_bytes(src: Seq<u8>)
    ensures
        2 * scan_headers(src) <= src.len(),
    decreases src.len(),
{
    if src.len() >= 2 {
        let before = src.drop_last();
        lemma_scan_headers_have_two_bytes(before);
        if src[src.len() - 2] == 0xff && src.last() == 0xda {
            assert(before.last() == 0xff);
            if before.len() >= 2 {
                lemma_scan_headers_have_two_bytes(before.drop_last());
            }
        }
    }
}

/// Whatever a file holds, it is decoded or refused with a message if it is not written by an
/// arithmetic coder, or if it is too short for scans that could overflow: 2^28 and 2^13 for each of
/// them make up at most 2^31, and a scan header has at least two bytes.
pub proof fn most_files_are_decoded_or_refused(src: Seq<u8>, region: Region, len: nat)
    requires
        src.len() <= 2 * 229376 || !(inspected(src) matches Ok(info) && (info.kind
            == "ExtendedSequentialArith"@ || info.kind == "ProgressiveArith"@)),
    ensures
        dct_decodable(src, region, len),
{
    lemma_scan_headers_have_two_bytes(src);
}

} // verus!
