//! What decoding a lossless scan gives back of the samples that were written.
use vstd::prelude::*;
use vstd::arithmetic::power2::pow2;
use crate::bits::{unstuffed, BitStream};
use crate::ljpeg::frame::Frame;
use crate::ljpeg::huffman::HuffCode;
use crate::ljpeg::scan::{low16, standard_decode_fills_the_destination, standard_result, Layout};
use crate::region::Region;

verus! {

/// The prediction of a sample by one of the seven predictors of JPEG: from the sample to its left,
/// the one above it, and the one above that to its left.
pub open spec fn jpeg_prediction(predictor: usize, left: int, above: int, upper_left: int) -> int {
    if predictor == 1 {
        left
    } else if predictor == 2 {
        above
    } else if predictor == 3 {
        upper_left
    } else if predictor == 4 {
        left + above - upper_left
    } else if predictor == 5 {
        left + (above - upper_left) / 2
    } else if predictor == 6 {
        above + (left - upper_left) / 2
    } else {
        (left + above) / 2
    }
}

/// What the sample of a component in a row and a column of pixels is predicted to be: the middle of
/// the range at the start, the pixel to the left in the first row, the pixel above in the first
/// column, and by the predictor elsewhere; always from samples of the same component.
pub open spec fn sample_prediction(
    frame: Frame,
    samples: spec_fn(int, int, int) -> int,
    row: int,
    col: int,
    component: int,
) -> int {
    if row == 0 && col == 0 {
        pow2((frame.precision - frame.point_transform - 1) as nat) as int
    } else if row == 0 {
        samples(0, col - 1, component)
    } else if col == 0 {
        samples(row - 1, 0, component)
    } else {
        jpeg_prediction(
            frame.predictor,
            samples(row, col - 1, component),
            samples(row - 1, col, component),
            samples(row - 1, col - 1, component),
        )
    }
}

/// The scan of a frame holds the sample of a component in a row and a column of pixels: the
/// difference from its prediction, in the code that the component selects. The samples come row by
/// row, pixel by pixel and component by component, and number `k` starts at bit `starts(k)`.
pub open spec fn scan_holds(
    frame: Frame,
    samples: spec_fn(int, int, int) -> int,
    starts: spec_fn(int) -> nat,
    row: int,
    col: int,
    component: int,
) -> bool {
    let k = (row * frame.width + col) * frame.cps + component;
    let bytes = unstuffed(frame.buffer);
    let code = frame.dhts[frame.components[component].dc_tbl_num as int];
    &&& 0 <= samples(row, col, component) <= 65535
    &&& code.decode(BitStream { bytes, pos: starts(k) }) == Some(
        (
            samples(row, col, component) - sample_prediction(frame, samples, row, col, component),
            BitStream { bytes, pos: starts(k + 1) },
        ),
    )
}

/// A frame whose scan was written from samples, by the seven predictors.
pub open spec fn is_written(
    frame: Frame,
    samples: spec_fn(int, int, int) -> int,
    starts: spec_fn(int) -> nat,
    rows: int,
) -> bool {
    &&& frame.wf()
    &&& 1 <= frame.cps
    &&& 1 <= frame.width
    &&& 1 <= frame.predictor <= 7
    &&& starts(0) == 0
    &&& forall|row: int, col: int, component: int|
        0 <= row < rows && 0 <= col < frame.width && 0 <= component < frame.cps
            ==> #[trigger] scan_holds(frame, samples, starts, row, col, component)
}

/// The number of a sample, and its place.
proof fn lemma_number(width: int, cps: int, row: int, col: int, component: int)
    requires
        1 <= width,
        1 <= cps,
        0 <= row,
        0 <= col < width,
        0 <= component < cps,
    ensures
        ({
            let k = (row * width + col) * cps + component;
            &&& 0 <= k
            &&& k / (width * cps) == row
            &&& k % (width * cps) == col * cps + component
            &&& (k % (width * cps)) / cps == col
            &&& (k % (width * cps)) % cps == component
            &&& k == row * (width * cps) + col * cps + component
            &&& k / cps == row * width + col
            &&& k % cps == component
            &&& (k / cps) / width == row
            &&& (k / cps) % width == col
        }),
{
    let k = (row * width + col) * cps + component;
    let inner = col * cps + component;
    assert(k == row * (width * cps) + inner) by (nonlinear_arith)
        requires
            k == (row * width + col) * cps + component,
            inner == col * cps + component,
    ;
    assert(0 <= inner < width * cps) by (nonlinear_arith)
        requires
            inner == col * cps + component,
            0 <= col,
            col + 1 <= width,
            0 <= component < cps,
    ;
    assert(0 <= row * (width * cps)) by (nonlinear_arith)
        requires
            0 <= row,
            1 <= width,
            1 <= cps,
    ;
    vstd::arithmetic::div_mod::lemma_fundamental_div_mod_converse(k, width * cps, row, inner);
    vstd::arithmetic::div_mod::lemma_fundamental_div_mod_converse(inner, cps, col, component);
    vstd::arithmetic::div_mod::lemma_fundamental_div_mod_converse(
        k,
        cps,
        row * width + col,
        component,
    );
    vstd::arithmetic::div_mod::lemma_fundamental_div_mod_converse(
        row * width + col,
        width,
        row,
        col,
    );
}

/// The place of a sample by its number.
proof fn lemma_place_of(width: int, cps: int, rows: int, k: int)
    requires
        1 <= width,
        1 <= cps,
        0 <= k < rows * (width * cps),
    ensures
        ({
            let row = (k / cps) / width;
            let col = (k / cps) % width;
            let component = k % cps;
            &&& 0 <= row < rows
            &&& 0 <= col < width
            &&& 0 <= component < cps
            &&& k == (row * width + col) * cps + component
        }),
{
    let q = k / cps;
    vstd::arithmetic::div_mod::lemma_fundamental_div_mod(k, cps);
    vstd::arithmetic::div_mod::lemma_div_pos_is_pos(k, cps);
    vstd::arithmetic::div_mod::lemma_fundamental_div_mod(q, width);
    vstd::arithmetic::div_mod::lemma_div_pos_is_pos(q, width);
    let row = q / width;
    assert(cps * q == q * cps && width * row == row * width) by (nonlinear_arith);
    assert(row < rows) by (nonlinear_arith)
        requires
            q * cps <= k,
            k < rows * (width * cps),
            row * width <= q,
            1 <= width,
            1 <= cps,
    ;
}

/// The middle of the range of samples.
proof fn lemma_base(frame: Frame)
    requires
        frame.wf(),
    ensures
        frame.base() == pow2((frame.precision - frame.point_transform - 1) as nat),
        0 < frame.base() <= 32768,
{
    let bits = (frame.precision - frame.point_transform - 1) as nat;
    vstd::arithmetic::power2::lemma2_to64();
    vstd::arithmetic::power2::lemma_pow2_pos(bits);
    if bits < 15 {
        vstd::arithmetic::power2::lemma_pow2_strictly_increases(bits, 15);
    }
}

/// The samples before number `n` of a scan have come out.
spec fn came_out(
    frame: Frame,
    samples: spec_fn(int, int, int) -> int,
    starts: spec_fn(int) -> nat,
    n: nat,
) -> bool {
    let scan = frame.scanned(n);
    let width = frame.width as int;
    let cps = frame.cps as int;
    &&& scan.failure is None
    &&& scan.values.len() == n
    &&& scan.stream == (BitStream { bytes: unstuffed(frame.buffer), pos: starts(n as int) })
    &&& forall|k: int|
        0 <= k < n ==> #[trigger] scan.values[k] == samples(
            (k / cps) / width,
            (k / cps) % width,
            k % cps,
        )
}

/// The prediction of the next sample.
proof fn lemma_next_prediction(
    frame: Frame,
    samples: spec_fn(int, int, int) -> int,
    starts: spec_fn(int) -> nat,
    rows: int,
    n: nat,
)
    requires
        is_written(frame, samples, starts, rows),
        n < rows * (frame.width * frame.cps),
        came_out(frame, samples, starts, n),
    ensures
        ({
            let width = frame.width as int;
            let cps = frame.cps as int;
            let row = (n as int / cps) / width;
            let col = (n as int / cps) % width;
            let component = n as int % cps;
            let expected = sample_prediction(frame, samples, row, col, component);
            &&& -65536 <= expected <= 131072
            &&& frame.prediction(frame.scanned(n).values) == Ok::<i32, Seq<char>>(expected as i32)
        }),
{
    let width = frame.width as int;
    let cps = frame.cps as int;
    let row_len = width * cps;
    let row = (n as int / cps) / width;
    let col = (n as int / cps) % width;
    let component = n as int % cps;
    let values = frame.scanned(n).values;
    lemma_place_of(width, cps, rows, n as int);
    lemma_number(width, cps, row, col, component);
    lemma_base(frame);
    assert(frame.row_len() == row_len);
    assert(scan_holds(frame, samples, starts, row, col, component));
    if row == 0 && col == 0 {
    } else if row == 0 {
        lemma_number(width, cps, 0, col - 1, component);
        assert((row * width + col) * cps == (row * width + (col - 1)) * cps + cps)
            by (nonlinear_arith);
        assert(scan_holds(frame, samples, starts, 0, col - 1, component));
        assert(values[n - cps] == samples(0, col - 1, component));
    } else if col == 0 {
        lemma_number(width, cps, row - 1, 0, component);
        assert((row * width + col) * cps == ((row - 1) * width + col) * cps + width * cps)
            by (nonlinear_arith);
        assert(scan_holds(frame, samples, starts, row - 1, 0, component));
        assert(values[n - row_len] == samples(row - 1, 0, component));
    } else {
        lemma_number(width, cps, row, col - 1, component);
        lemma_number(width, cps, row - 1, col, component);
        lemma_number(width, cps, row - 1, col - 1, component);
        assert((row * width + col) * cps == (row * width + (col - 1)) * cps + cps)
            by (nonlinear_arith);
        assert((row * width + col) * cps == ((row - 1) * width + col) * cps + width * cps)
            by (nonlinear_arith);
        assert((row * width + col) * cps == ((row - 1) * width + (col - 1)) * cps + width * cps + cps)
            by (nonlinear_arith);
        assert(scan_holds(frame, samples, starts, row, col - 1, component));
        assert(scan_holds(frame, samples, starts, row - 1, col, component));
        assert(scan_holds(frame, samples, starts, row - 1, col - 1, component));
        assert(values[n - cps] == samples(row, col - 1, component));
        assert(values[n - row_len] == samples(row - 1, col, component));
        assert(values[n - row_len - cps] == samples(row - 1, col - 1, component));
    }
}

proof fn lemma_came_out(
    frame: Frame,
    samples: spec_fn(int, int, int) -> int,
    starts: spec_fn(int) -> nat,
    rows: int,
    n: nat,
)
    requires
        is_written(frame, samples, starts, rows),
        n <= rows * (frame.width * frame.cps),
    ensures
        came_out(frame, samples, starts, n),
    decreases n,
{
    if n > 0 {
        let m = (n - 1) as nat;
        let width = frame.width as int;
        let cps = frame.cps as int;
        lemma_came_out(frame, samples, starts, rows, m);
        lemma_next_prediction(frame, samples, starts, rows, m);
        lemma_place_of(width, cps, rows, m as int);
        let row = (m as int / cps) / width;
        let col = (m as int / cps) % width;
        let component = m as int % cps;
        lemma_number(width, cps, row, col, component);
        assert(scan_holds(frame, samples, starts, row, col, component));
        assert(frame.component_of(m as int) == component);
        let before = frame.scanned(m);
        let scan = frame.scanned(n);
        let sample = samples(row, col, component);
        assert(scan.values =~= before.values.push(sample as i32));
        assert forall|k: int| 0 <= k < n implies #[trigger] scan.values[k] == samples(
            (k / cps) / width,
            (k / cps) % width,
            k % cps,
        ) by {
            if k < m {
                assert(before.values[k] == scan.values[k]);
            }
        }
    }
}

/// A scan that was written from samples, each component in its own code, decodes to those samples:
/// that of a component in a row and a column of pixels stands where the scan order has it.
pub proof fn scans_give_back_their_samples(
    frame: Frame,
    samples: spec_fn(int, int, int) -> int,
    starts: spec_fn(int) -> nat,
    rows: nat,
)
    requires
        is_written(frame, samples, starts, rows as int),
    ensures
        ({
            let scan = frame.scanned((rows * (frame.width * frame.cps)) as nat);
            &&& scan.failure is None
            &&& scan.values.len() == rows * (frame.width * frame.cps)
            &&& forall|row: int, col: int, component: int|
                0 <= row < rows && 0 <= col < frame.width && 0 <= component < frame.cps
                    ==> scan.values[(row * frame.width + col) * frame.cps + component]
                    == #[trigger] samples(row, col, component)
        }),
{
    let width = frame.width as int;
    let cps = frame.cps as int;
    let total = rows * (frame.width * frame.cps);
    assert(0 <= total) by (nonlinear_arith)
        requires
            total == rows * (frame.width * frame.cps),
    ;
    lemma_came_out(frame, samples, starts, rows as int, total as nat);
    let scan = frame.scanned(total as nat);
    assert forall|row: int, col: int, component: int|
        0 <= row < rows && 0 <= col < frame.width && 0 <= component
            < frame.cps implies scan.values[(row * frame.width + col) * frame.cps + component]
        == #[trigger] samples(row, col, component) by {
        lemma_number(width, cps, row, col, component);
        let k = (row * width + col) * cps + component;
        assert(k < rows * (width * cps)) by (nonlinear_arith)
            requires
                k == (row * width + col) * cps + component,
                component + 1 <= cps,
                col + 1 <= width,
                row + 1 <= rows,
                0 <= row,
                0 <= col,
                1 <= cps,
        ;
    }
}

/// The samples that one row of a frame holds, of all components.
proof fn lemma_row_len(frame: Frame)
    requires
        frame.wf(),
        frame.row_len() <= usize::MAX,
    ensures
        frame.row_len() == frame.width * frame.cps,
{
}

/// A lossless JPEG file of one to four components whose scan was written from samples is decoded
/// into a rectangle that it can fill. Where the rows of the frame, with all their components, are as
/// long as those of the rectangle, and as many, column `c` of a row holds component `c % cps` of
/// pixel `c / cps`. Where they are fewer, but several times as long, and of one component, a row of
/// the frame holds several rows of the rectangle, one behind the other. Else every component of a row
/// of the frame is a row of the rectangle. All else of the image stays as it was.
pub proof fn decoding_gives_back_the_samples(
    frame: Frame,
    samples: spec_fn(int, int, int) -> int,
    starts: spec_fn(int) -> nat,
    out: Seq<u16>,
    region: Region,
)
    requires
        is_written(frame, samples, starts, frame.height as int),
        frame.cps <= 4,
        frame.width * frame.cps <= usize::MAX,
        frame.height * (frame.width * frame.cps) <= usize::MAX,
        region.width > 0,
        region.height > 0,
        region.x + region.width <= region.stripwidth <= usize::MAX,
        (region.height - 1) * region.stripwidth + region.x + region.width <= out.len() <= usize::MAX,
    ensures
        ({
            let (image, res) = standard_result(frame, out, region);
            let cps = frame.cps as int;
            let factor = frame.width as int / region.width as int;
            let rows = frame.width * cps >= region.width && frame.height >= region.height;
            let stacked = !rows && cps == 1 && factor > 1 && frame.width == factor * region.width
                && region.height <= frame.height * factor;
            let apart = !rows && !stacked && frame.width >= region.width && region.height
                <= frame.height * cps;
            &&& image.len() == out.len()
            &&& res is Ok <==> rows || stacked || apart
            &&& rows ==> forall|r: int, c: int|
                0 <= r < region.height && 0 <= c < region.width ==> #[trigger] image[region.x + r
                    * region.stripwidth + c] == samples(r, c / cps, c % cps)
            &&& stacked ==> forall|r: int, c: int|
                0 <= r < region.height && 0 <= c < region.width ==> #[trigger] image[region.x + r
                    * region.stripwidth + c] == samples(
                    r / factor,
                    (r % factor) * region.width + c,
                    0,
                )
            &&& apart ==> forall|r: int, c: int|
                0 <= r < region.height && 0 <= c < region.width ==> #[trigger] image[region.x + r
                    * region.stripwidth + c] == samples(r / cps, c, r % cps)
            &&& forall|i: int|
                0 <= i < out.len() && !(i / (region.stripwidth as int) < region.height && region.x
                    <= i % (region.stripwidth as int) < region.x + region.width)
                    ==> #[trigger] image[i] == out[i]
        }),
{
    let (image, res) = standard_result(frame, out, region);
    let cps = frame.cps as int;
    let width = frame.width as int;
    let w = region.width as int;
    let height = frame.height as int;
    let factor = width / w;
    let rows = width * cps >= w && height >= region.height;
    let stacked = !rows && cps == 1 && factor > 1 && width == factor * w && region.height <= height
        * factor;
    let apart = !rows && !stacked && width >= w && region.height <= height * cps;
    lemma_row_len(frame);
    vstd::arithmetic::div_mod::lemma_fundamental_div_mod(width, w);
    assert(factor * w == w * factor) by (nonlinear_arith);
    assert(factor <= width) by (nonlinear_arith)
        requires
            w * factor <= width,
            1 <= w,
            0 <= width,
    ;
    assert(height * factor <= usize::MAX) by (nonlinear_arith)
        requires
            factor <= width,
            height * (width * cps) <= usize::MAX,
            1 <= cps,
            1 <= width,
            0 <= height,
    ;
    assert(height * cps <= usize::MAX) by (nonlinear_arith)
        requires
            height * (width * cps) <= usize::MAX,
            1 <= cps,
            1 <= width,
            0 <= height,
    ;
    assert(width * 1 == width);
    let layout = frame.layout(region.width, region.height);
    assert(rows ==> layout == Some(Layout::Rows));
    assert(stacked ==> layout == Some(Layout::Stacked(factor as usize)));
    assert(apart ==> layout == Some(Layout::Components));
    assert(!rows && !stacked && !apart ==> layout is None);
    if layout is Some {
        let per = frame.rows_per_scan_row(layout->0) as int;
        let scan_rows = frame.scan_rows(layout->0, region.height);
        let total = scan_rows * frame.row_len();
        assert(scan_rows <= height) by {
            vstd::arithmetic::div_mod::lemma_fundamental_div_mod(region.height - 1, per);
            let q = (region.height - 1) / per;
            assert(q < height) by (nonlinear_arith)
                requires
                    per * q <= region.height - 1,
                    region.height <= height * per,
                    1 <= per,
            ;
        }
        assert(is_written(frame, samples, starts, scan_rows as int));
        scans_give_back_their_samples(frame, samples, starts, scan_rows);
        assert(total == (scan_rows * (frame.width * frame.cps)) as nat);
        assert(res is Ok);
        assert forall|r: int, c: int| 0 <= r < region.height && 0 <= c < region.width implies {
            let at = match layout->0 {
                Layout::Rows => (r, c / cps, c % cps),
                Layout::Stacked(_) => (r / factor, (r % factor) * w + c, 0),
                Layout::Components => (r / cps, c, r % cps),
            };
            #[trigger] image[region.x + r * region.stripwidth + c] == samples(at.0, at.1, at.2)
        } by {
            standard_decode_fills_the_destination(frame, out, region, r, c);
            let k = frame.source(layout->0, region.width, r, c);
            let at = match layout->0 {
                Layout::Rows => (r, c / cps, c % cps),
                Layout::Stacked(_) => (r / factor, (r % factor) * w + c, 0),
                Layout::Components => (r / cps, c, r % cps),
            };
            assert(region.at(r, c) == region.x + r * region.stripwidth + c);
            assert(k == (at.0 * width + at.1) * cps + at.2) by {
                match layout->0 {
                    Layout::Rows => {
                        vstd::arithmetic::div_mod::lemma_fundamental_div_mod(c, cps);
                        assert((r * width + c / cps) * cps + c % cps == r * (width * cps) + c)
                            by (nonlinear_arith)
                            requires
                                c == cps * (c / cps) + c % cps,
                        ;
                    },
                    Layout::Stacked(_) => {
                        assert(((r / factor) * width + ((r % factor) * w + c)) * 1 + 0 == (r / factor)
                            * (width * 1) + (r % factor) * w + c) by (nonlinear_arith);
                    },
                    Layout::Components => {
                        assert(((r / cps) * width + c) * cps + r % cps == (r / cps) * (width * cps) + c
                            * cps + r % cps) by (nonlinear_arith);
                    },
                }
            }
            lemma_place_of(width, cps, scan_rows as int, k);
            let (row, col, component) = ((k / cps) / width, (k / cps) % width, k % cps);
            assert(0 <= at.2 < cps && 0 <= at.1 && 0 <= at.0) by {
                match layout->0 {
                    Layout::Rows => {
                        vstd::arithmetic::div_mod::lemma_div_pos_is_pos(c, cps);
                    },
                    Layout::Stacked(_) => {
                        vstd::arithmetic::div_mod::lemma_div_pos_is_pos(r, factor);
                        assert(0 <= (r % factor) * w) by (nonlinear_arith)
                            requires
                                0 <= r % factor,
                                0 <= w,
                        ;
                    },
                    Layout::Components => {
                        vstd::arithmetic::div_mod::lemma_div_pos_is_pos(r, cps);
                    },
                }
            }
            assert(at.1 < width) by {
                match layout->0 {
                    Layout::Rows => {
                        vstd::arithmetic::div_mod::lemma_fundamental_div_mod(c, cps);
                        assert(c / cps < width) by (nonlinear_arith)
                            requires
                                cps * (c / cps) <= c,
                                c < width * cps,
                                1 <= cps,
                        ;
                    },
                    Layout::Stacked(_) => {
                        let m = r % factor;
                        assert(m * w + c < factor * w) by (nonlinear_arith)
                            requires
                                m + 1 <= factor,
                                c + 1 <= w,
                                0 < w,
                        ;
                    },
                    Layout::Components => {},
                }
            }
            lemma_number(width, cps, at.0, at.1, at.2);
            assert(row == at.0 && col == at.1 && component == at.2);
            assert(scan_holds(frame, samples, starts, at.0, at.1, at.2));
            let sample = samples(at.0, at.1, at.2);
            assert(frame.scanned(total).values[k] == sample);
            assert(0 <= sample <= 65535);
        }
    }
}

/// In a scan that has not failed, every sample is its prediction plus a difference, and the
/// difference is what the code of its component decodes where the sample before it ends. The
/// component is the number of the sample modulo the number of components.
pub proof fn samples_are_coded_by_their_components(frame: Frame, n: nat, k: nat)
    requires
        frame.wf(),
        1 <= frame.cps,
        1 <= frame.width,
        k < n,
        frame.scanned(n).failure is None,
    ensures
        ({
            let component = frame.components[k as int % frame.cps as int];
            let code: HuffCode = frame.dhts[component.dc_tbl_num as int];
            let before = frame.scanned(k);
            let predicted = frame.prediction(frame.scanned(n).values.take(k as int));
            &&& before.failure is None
            &&& predicted is Ok
            &&& code.decode(before.stream) matches Some((difference, rest)) && rest == frame.scanned(
                k + 1,
            ).stream && frame.scanned(n).values[k as int] == (predicted->Ok_0).wrapping_add(
                difference as i32,
            )
        }),
{
    let width = frame.width as int;
    let cps = frame.cps as int;
    frame.lemma_scanned_prefix(k, n);
    frame.lemma_scanned_prefix(k + 1, n);
    frame.lemma_scanned_len(n);
    assert(width * cps >= 1) by (nonlinear_arith)
        requires
            width >= 1,
            cps >= 1,
    ;
    assert(k < (k + 1) * (width * cps)) by (nonlinear_arith)
        requires
            width * cps >= 1,
            k >= 0,
    ;
    lemma_place_of(width, cps, (k + 1) as int, k as int);
    lemma_number(
        width,
        cps,
        (k as int / cps) / width,
        (k as int / cps) % width,
        k as int % cps,
    );
    assert(((k + 1) - 1) as nat == k);
    let after = frame.scanned(k + 1);
    frame.lemma_scanned_len(k);
    assert(after.values[k as int] == frame.scanned(n).values.take((k + 1) as int)[k as int]);
}

/// A frame that is not subsampled, of one of the seven predictors, is decoded by rows.
pub proof fn frames_of_samples_are_decoded_by_rows(frame: Frame, out: Seq<u16>, region: Region)
    requires
        frame.predictor != 8,
        !(frame.components[0].super_h == 2 && 1 <= frame.components[0].super_v <= 2),
    ensures
        frame.decoded(out, region) == standard_result(frame, out, region),
{
}

/// A scan goes on while a code word of the component whose turn it is matches, and the predictor is
/// one of the seven. It stops at the first sample where that is not so, and keeps what came before.
pub proof fn scans_stop_where_no_word_matches(frame: Frame, k: nat, n: nat)
    requires
        frame.wf(),
        1 <= frame.cps,
        1 <= frame.width,
        frame.scanned(k).failure is None,
        k < n,
    ensures
        ({
            let component = frame.components[k as int % frame.cps as int];
            let found = frame.dhts[component.dc_tbl_num as int].decode(frame.scanned(k).stream);
            &&& 1 <= frame.predictor <= 7 && found is Some ==> frame.scanned(k + 1).failure is None
            &&& found is None ==> frame.scanned(n).failure is Some && frame.scanned(n).values
                == frame.scanned(k).values
        }),
{
    let width = frame.width as int;
    let cps = frame.cps as int;
    assert(width * cps >= 1) by (nonlinear_arith)
        requires
            width >= 1,
            cps >= 1,
    ;
    assert(k < (k + 1) * (width * cps)) by (nonlinear_arith)
        requires
            width * cps >= 1,
            k >= 0,
    ;
    lemma_place_of(width, cps, (k + 1) as int, k as int);
    lemma_number(
        width,
        cps,
        (k as int / cps) / width,
        (k as int / cps) % width,
        k as int % cps,
    );
    frame.lemma_scanned_len(k);
    assert(((k + 1) - 1) as nat == k);
    if frame.scanned(k + 1).failure is Some {
        frame.lemma_failed(k + 1, n);
    }
}

/// Nothing is decoded into a rectangle that the image does not hold, nor from a frame without
/// components or with more than four.
pub proof fn samples_are_decoded_only_where_they_fit(frame: Frame, out: Seq<u16>, region: Region)
    requires
        standard_result(frame, out, region).1 is Ok,
    ensures
        1 <= frame.cps <= 4,
        region.x + region.width <= region.stripwidth,
        region.height > 0 ==> (region.height - 1) * region.stripwidth + region.x + region.width
            <= out.len(),
{
}

/// A decode into nothing changes nothing, and a decode that fails keeps the samples that came before,
/// where they belong, and leaves all else as it was. Here the rows of the frame are those of the
/// rectangle.
pub proof fn failed_decodes_keep_what_came_before(
    frame: Frame,
    out: Seq<u16>,
    region: Region,
    r: int,
    c: int,
)
    requires
        0 <= r < region.height,
        0 <= c < region.width,
        region.x + region.width <= region.stripwidth <= usize::MAX,
        (region.height - 1) * region.stripwidth + region.x + region.width <= out.len() <= usize::MAX,
        1 <= frame.cps <= 4,
        frame.width * frame.cps <= usize::MAX,
        region.width <= frame.width * frame.cps,
        region.height <= frame.height,
    ensures
        ({
            let row_len = frame.width * frame.cps;
            let scan = frame.scanned((region.height * row_len) as nat);
            let (image, res) = standard_result(frame, out, region);
            let k = r * row_len + c;
            &&& res is Ok <==> scan.failure is None
            &&& image[region.x + r * region.stripwidth + c] == if k < scan.values.len() {
                (scan.values[k] as int % 65536) as u16
            } else {
                out[region.x + r * region.stripwidth + c]
            }
        }),
{
    crate::region::lemma_region_at(region, r, c);
    assert(region.at(r, c) == region.x + r * region.stripwidth + c);
    assert(frame.scan_rows(Layout::Rows, region.height) == region.height);
}

/// A decode into nothing changes nothing.
pub proof fn empty_rectangles_stay_empty(frame: Frame, out: Seq<u16>, region: Region)
    requires
        region.width == 0 || region.height == 0,
    ensures
        standard_result(frame, out, region).0 == out,
{
}

/// JPEG defines predictors from 1 to 7: a scan that states another one stops where it is asked for, at
/// the second pixel of the second row.
pub proof fn other_predictors_are_refused(frame: Frame, n: nat)
    requires
        frame.predictor == 0 || frame.predictor > 7,
        frame.width >= 2,
        frame.cps >= 1,
        n > frame.width * frame.cps + frame.cps,
    ensures
        frame.scanned(n).failure is Some,
        frame.scanned(n).values.len() <= frame.width * frame.cps + frame.cps,
{
    let row_len = frame.width * frame.cps;
    let k = (row_len + frame.cps) as nat;
    assert(row_len >= 2 * frame.cps) by (nonlinear_arith)
        requires
            row_len == frame.width * frame.cps,
            frame.width >= 2,
            frame.cps >= 1,
    ;
    frame.lemma_scanned_len(k);
    lemma_no_more_than(frame, k);
    let scan = frame.scanned(k);
    if scan.failure is Some {
        frame.lemma_failed(k, n);
    } else {
        assert(row_len * 1 + frame.cps == k);
        vstd::arithmetic::div_mod::lemma_fundamental_div_mod_converse(
            k as int,
            row_len,
            1,
            frame.cps as int,
        );
        vstd::arithmetic::div_mod::lemma_div_by_self(frame.cps as int);
        assert(frame.prediction(scan.values) is Err);
        let next = frame.scanned(k + 1);
        assert(next == frame.scan_next(scan));
        assert(next.failure is Some);
        frame.lemma_failed(k + 1, n);
    }
}

proof fn lemma_no_more_than(frame: Frame, n: nat)
    ensures
        frame.scanned(n).values.len() <= n,
    decreases n,
{
    if n > 0 {
        lemma_no_more_than(frame, (n - 1) as nat);
    }
}

} // verus!
