//! Decoding of lossless JPEG scans.
use vstd::prelude::*;
use crate::bits::{BitPump, BitStream};
use crate::ljpeg::frame::{Frame, LjpegDecompressor};
use crate::ljpeg::scan::{half, low16, predicted, predictor_message, standard_layout, standard_result,
    with_samples, Layout, Scan};
use crate::ljpeg::huffman::{no_code_message, HuffTable};
use crate::ljpeg::pairs::{hasselblad_result, interleaved_pair, strip_fits, strip_holds_neighbours,
    strip_next, strip_pairs_per_row, strip_prediction, strip_result, strip_scanned, strip_total,
    with_row_pairs, with_strip_pairs};
use crate::ljpeg::yuv::{all_fit, differences, end_of, fitted_result, group_total, groups_per_row,
    holds_neighbours, size_message, start_of, subsampled_fits, subsampled_result, unfit_message,
    with_group, with_groups, with_pixel, wrap16, Group, GroupScan, Sampling};
use crate::region::Region;
use crate::text::{push_number, push_with, same_result, with_number};

verus! {

fn halved(n: i32) -> (h: i32)
    ensures
        h == half(n),
{
    assert((n >> 1) == n / 2) by (bit_vector);
    n >> 1
}

fn truncated(n: i32) -> (t: u16)
    ensures
        t == low16(n),
{
    assert((n as u16) as int == (n as int) % 65536) by (bit_vector);
    n as u16
}

/// The standard predictors of lossless JPEG.
pub fn lossless_predictor(
    predictor: usize,
    left: i32,
    above: i32,
    upper_left: i32,
) -> (res: Result<i32, String>)
    ensures
        match predicted(predictor, left, above, upper_left) {
            Some(value) => res == Ok::<i32, String>(value),
            None => res matches Err(text) && text@ == predictor_message(predictor),
        },
{
    match predictor {
        1 => Ok(left),
        2 => Ok(above),
        3 => Ok(upper_left),
        4 => Ok(left.wrapping_add(above).wrapping_sub(upper_left)),
        5 => Ok(left.wrapping_add(halved(above.wrapping_sub(upper_left)))),
        6 => Ok(above.wrapping_add(halved(left.wrapping_sub(upper_left)))),
        7 => Ok(halved(left.wrapping_add(above))),
        p => Err(with_number("ljpeg: predictor ", p, " not supported")),
    }
}

fn plan_standard(
    ljpeg: &LjpegDecompressor,
    len: usize,
    x: usize,
    stripwidth: usize,
    width: usize,
    height: usize,
) -> (res: Result<Layout, String>)
    ensures
        same_result(
            res,
            standard_layout(
                ljpeg@,
                Region {
                    x: x as nat,
                    stripwidth: stripwidth as nat,
                    width: width as nat,
                    height: height as nat,
                },
                len as nat,
            ),
        ),
{
    let ghost region = Region {
        x: x as nat,
        stripwidth: stripwidth as nat,
        width: width as nat,
        height: height as nat,
    };
    let components: usize = ljpeg.sof.cps;
    if components == 0 || components > 4 {
        return Err(with_number("ljpeg: ", components, " component files not supported"));
    }
    let encoded_row_samples: usize = match ljpeg.sof.width.checked_mul(components) {
        Some(samples) => samples,
        None => return Err("ljpeg: encoded row width overflowed".to_string()),
    };
    let mut layout: Option<Layout> = None;
    if encoded_row_samples >= width && ljpeg.sof.height >= height {
        layout = Some(Layout::Rows);
    }
    if layout.is_none() && components == 1 && width > 0 && encoded_row_samples % width == 0 {
        let factor: usize = encoded_row_samples / width;
        if factor > 1 {
            if let Some(encoded_height) = ljpeg.sof.height.checked_mul(factor) {
                if encoded_height >= height {
                    layout = Some(Layout::Stacked(factor));
                }
            }
        }
    }
    if layout.is_none() && ljpeg.sof.width >= width {
        if let Some(encoded_height) = ljpeg.sof.height.checked_mul(components) {
            if encoded_height >= height {
                layout = Some(Layout::Components);
            }
        }
    }
    assert(layout == ljpeg@.layout(width as nat, height as nat));
    let layout: Layout = match layout {
        Some(layout) => layout,
        None => {
            let mut text: String = with_number("ljpeg: trying to decode ", ljpeg.sof.width, "x");
            push_with(&mut text, ljpeg.sof.height, " with ");
            push_with(&mut text, components, " components into ");
            push_with(&mut text, width, "x");
            push_number(&mut text, height);
            return Err(text);
        },
    };
    let row_end: usize = match x.checked_add(width) {
        Some(row_end) => row_end,
        None => return Err("ljpeg: destination row width overflowed".to_string()),
    };
    if row_end > stripwidth {
        let mut text: String = with_number("ljpeg: destination range ", x, "..");
        push_with(&mut text, row_end, " exceeds row width ");
        push_number(&mut text, stripwidth);
        return Err(text);
    }
    let required: usize = if height == 0 {
        0
    } else {
        let before: usize = match (height - 1).checked_mul(stripwidth) {
            Some(before) => before,
            None => {
                assert(region.extent() >= (height - 1) * stripwidth);
                return Err("ljpeg: destination size overflowed".to_string());
            },
        };
        match before.checked_add(row_end) {
            Some(required) => required,
            None => return Err("ljpeg: destination size overflowed".to_string()),
        }
    };
    assert(required == region.extent());
    if required > len {
        let mut text: String = with_number("ljpeg: destination has ", len, " samples, needs ");
        push_number(&mut text, required);
        return Err(text);
    }
    Ok(layout)
}

/// The rows that the next sample is predicted from hold the samples decoded so far.
spec fn rows_hold(
    values: Seq<i32>,
    row_len: int,
    row: int,
    sample: int,
    previous_row: Seq<i32>,
    current_row: Seq<i32>,
) -> bool {
    &&& previous_row.len() == row_len
    &&& current_row.len() == row_len
    &&& values.len() == row * row_len + sample
    &&& row > 0 ==> forall|j: int|
        0 <= j < row_len ==> #[trigger] previous_row[j] == values[(row - 1) * row_len + j]
    &&& forall|j: int| 0 <= j < sample ==> #[trigger] current_row[j] == values[row * row_len + j]
}

fn next_value(
    ljpeg: &LjpegDecompressor,
    pump: &mut BitPump,
    previous_row: &Vec<i32>,
    current_row: &Vec<i32>,
    row: usize,
    pixel: usize,
    component: usize,
    Ghost(scan): Ghost<Scan>,
) -> (res: Result<i32, String>)
    requires
        ljpeg@.wf(),
        1 <= ljpeg@.cps <= 4,
        ljpeg@.row_len() <= usize::MAX,
        pixel < ljpeg@.width,
        component < ljpeg@.cps,
        old(pump).wf(),
        old(pump)@ == scan.stream,
        scan.failure is None,
        rows_hold(
            scan.values,
            ljpeg@.row_len() as int,
            row as int,
            pixel * ljpeg@.cps + component,
            previous_row@,
            current_row@,
        ),
    ensures
        final(pump).wf(),
        ({
            let next = ljpeg@.scan_next(scan);
            match next.failure {
                None => res matches Ok(value) && next.values == scan.values.push(value)
                    && next.stream == final(pump)@,
                Some(message) => res matches Err(text) && text@ == message && next.values
                    == scan.values,
            }
        }),
{
    let components: usize = ljpeg.sof.cps;
    let ghost frame = ljpeg@;
    let ghost row_len = frame.row_len() as int;
    let ghost k = scan.values.len() as int;
    proof {
        assert(pixel * components + component < row_len) by (nonlinear_arith)
            requires
                pixel + 1 <= frame.width,
                component < components,
                row_len == frame.width * components,
        ;
        assert(0 <= pixel * components) by (nonlinear_arith);
        vstd::arithmetic::div_mod::lemma_fundamental_div_mod_converse(
            k,
            row_len,
            row as int,
            pixel * components + component,
        );
        vstd::arithmetic::div_mod::lemma_fundamental_div_mod_converse(
            pixel * components + component,
            components as int,
            pixel as int,
            component as int,
        );
        if pixel > 0 {
            assert(pixel * components >= components) by (nonlinear_arith)
                requires
                    pixel >= 1,
            ;
        }
        assert((row - 1) * row_len == row * row_len - row_len) by (nonlinear_arith);
    }
    let sample: usize = pixel * components + component;
    let prediction: i32 = if row == 0 && pixel == 0 {
        ljpeg.base()
    } else if row == 0 {
        current_row[sample - components]
    } else if pixel == 0 {
        previous_row[sample]
    } else {
        match lossless_predictor(
            ljpeg.predictor,
            current_row[sample - components],
            previous_row[sample],
            previous_row[sample - components],
        ) {
            Ok(prediction) => prediction,
            Err(text) => return Err(text),
        }
    };
    assert(frame.prediction(scan.values) == Ok::<i32, Seq<char>>(prediction));
    let table: &HuffTable = ljpeg.table(component);
    match table.huff_decode(pump) {
        Ok(diff) => Ok(prediction.wrapping_add(diff)),
        Err(text) => Err(text),
    }
}

fn store_sample(
    out: &mut [u16],
    x: usize,
    stripwidth: usize,
    width: usize,
    height: usize,
    layout: Layout,
    components: usize,
    row: usize,
    sample: usize,
    value: i32,
    Ghost(frame): Ghost<Frame>,
    Ghost(out0): Ghost<Seq<u16>>,
    Ghost(values): Ghost<Seq<i32>>,
)
    requires
        ({
            let region = Region {
                x: x as nat,
                stripwidth: stripwidth as nat,
                width: width as nat,
                height: height as nat,
            };
            &&& region.wf()
            &&& region.extent() <= out0.len()
            &&& 0 < width
            &&& 0 < height
            &&& frame.layout(width as nat, height as nat) == Some(layout)
            &&& components == frame.cps
            &&& components >= 1
            &&& frame.row_len() <= usize::MAX
            &&& row < frame.scan_rows(layout, height as nat)
            &&& sample < frame.row_len()
            &&& values.len() == row * frame.row_len() + sample
            &&& old(out)@ == with_samples(out0, region, frame, layout, values)
        }),
    ensures
        ({
            let region = Region {
                x: x as nat,
                stripwidth: stripwidth as nat,
                width: width as nat,
                height: height as nat,
            };
            final(out)@ == with_samples(out0, region, frame, layout, values.push(value))
        }),
{
    let ghost region = Region {
        x: x as nat,
        stripwidth: stripwidth as nat,
        width: width as nat,
        height: height as nat,
    };
    let len: usize = out.len();
    let rows_per: usize = match layout {
        Layout::Rows => 1,
        Layout::Stacked(factor) => factor,
        Layout::Components => components,
    };
    proof {
        crate::ljpeg::scan::lemma_one_more(
            out0,
            region,
            frame,
            layout,
            values,
            value,
            row as int,
            sample as int,
        );
        if layout is Stacked {
            assert(rows_per > 1) by {
                assert(frame.row_len() / width as nat <= frame.row_len()) by (nonlinear_arith)
                    requires
                        width >= 1,
                ;
            }
        }
        // The first destination row of this row of the scan lies in the destination.
        assert(row * rows_per <= height - 1) by (nonlinear_arith)
            requires
                row <= (height - 1) / rows_per as int,
                rows_per >= 1,
                height >= 1,
        ;
    }
    let first_row: usize = row * rows_per;
    let (step, column): (usize, usize) = match layout {
        Layout::Rows => (0, sample),
        Layout::Stacked(_) => (sample / width, sample % width),
        Layout::Components => (sample % components, sample / components),
    };
    if step < height - first_row && column < width {
        let output_row: usize = first_row + step;
        proof {
            crate::region::lemma_region_at(region, output_row as int, column as int);
            assert(0 <= output_row * stripwidth) by (nonlinear_arith);
            assert(region.at(output_row as int, column as int) < len);
        }
        out[output_row * stripwidth + x + column] = truncated(value);
    }
}

/// Decodes the standard lossless-JPEG predictors for one to four interleaved components.
///
/// The JPEG frame can be wider than the destination at a right-edge DNG tile. Decode those
/// padding samples into two rolling rows so the bitstream and predictors stay synchronized, but
/// copy only the requested samples into the destination.
#[verifier::rlimit(60)]
#[verifier::spinoff_prover]
pub fn decode_ljpeg_standard(
    ljpeg: &LjpegDecompressor,
    out: &mut [u16],
    x: usize,
    stripwidth: usize,
    width: usize,
    height: usize,
) -> (res: Result<(), String>)
    requires
        ljpeg@.wf(),
    ensures
        ({
            let region = Region {
                x: x as nat,
                stripwidth: stripwidth as nat,
                width: width as nat,
                height: height as nat,
            };
            let (samples, expected) = standard_result(ljpeg@, old(out)@, region);
            final(out)@ == samples && same_result(res, expected)
        }),
{
    let ghost frame = ljpeg@;
    let ghost region = Region {
        x: x as nat,
        stripwidth: stripwidth as nat,
        width: width as nat,
        height: height as nat,
    };
    let ghost out0 = out@;
    let layout: Layout = match plan_standard(ljpeg, out.len(), x, stripwidth, width, height) {
        Ok(layout) => layout,
        Err(text) => return Err(text),
    };
    if width == 0 || height == 0 {
        return Ok(());
    }
    let components: usize = ljpeg.sof.cps;
    let columns: usize = ljpeg.sof.width;
    let encoded_row_samples: usize = columns * components;
    let ghost row_len = encoded_row_samples as int;
    let rows_per: usize = match layout {
        Layout::Rows => 1,
        Layout::Stacked(factor) => factor,
        Layout::Components => components,
    };
    assert(rows_per == frame.rows_per_scan_row(layout));
    let decode_height: usize = (height - 1) / rows_per + 1;
    let ghost total = (decode_height * row_len) as nat;
    assert(decode_height == frame.scan_rows(layout, height as nat));

    let mut pump: BitPump = BitPump::jpeg(ljpeg.buffer);
    let mut previous_row: Vec<i32> = vec![0i32; encoded_row_samples];
    let mut current_row: Vec<i32> = vec![0i32; encoded_row_samples];
    let mut row: usize = 0;
    let ghost mut scan = frame.scan_start();
    assert(out@ =~= with_samples(out0, region, frame, layout, seq![]));
    assert(0 * row_len == 0);
    while row < decode_height
        invariant
            ljpeg@ == frame,
            frame.wf(),
            1 <= frame.cps <= 4,
            components == frame.cps,
            columns == frame.width,
            row_len == columns * components,
            row_len == frame.row_len(),
            row_len == encoded_row_samples,
            row <= decode_height,
            decode_height == frame.scan_rows(layout, height as nat),
            total == decode_height * row_len,
            region == (Region {
                x: x as nat,
                stripwidth: stripwidth as nat,
                width: width as nat,
                height: height as nat,
            }),
            0 < width,
            0 < height,
            region.wf(),
            region.extent() <= out0.len(),
            frame.layout(width as nat, height as nat) == Some(layout),
            standard_layout(frame, region, out0.len()) == Ok::<Layout, Seq<char>>(layout),
            out0 == old(out)@,
            pump.wf(),
            scan == frame.scanned((row * row_len) as nat),
            scan.failure is None,
            pump@ == scan.stream,
            rows_hold(scan.values, row_len, row as int, 0, previous_row@, current_row@),
            out@ == with_samples(out0, region, frame, layout, scan.values),
        decreases decode_height - row,
    {
        let mut pixel: usize = 0;
        let mut sample: usize = 0;
        while pixel < columns
            invariant
                ljpeg@ == frame,
                frame.wf(),
                1 <= frame.cps <= 4,
                components == frame.cps,
                columns == frame.width,
                row_len == columns * components,
                row_len == frame.row_len(),
                row_len == encoded_row_samples,
                row < decode_height,
                decode_height == frame.scan_rows(layout, height as nat),
                total == decode_height * row_len,
                region == (Region {
                    x: x as nat,
                    stripwidth: stripwidth as nat,
                    width: width as nat,
                    height: height as nat,
                }),
                0 < width,
                0 < height,
                region.wf(),
                region.extent() <= out0.len(),
                frame.layout(width as nat, height as nat) == Some(layout),
                standard_layout(frame, region, out0.len()) == Ok::<Layout, Seq<char>>(layout),
                out0 == old(out)@,
                pump.wf(),
                pixel <= columns,
                sample == pixel * components,
                sample <= row_len,
                scan == frame.scanned((row * row_len + sample) as nat),
                scan.failure is None,
                pump@ == scan.stream,
                rows_hold(
                    scan.values,
                    row_len,
                    row as int,
                    sample as int,
                    previous_row@,
                    current_row@,
                ),
                out@ == with_samples(out0, region, frame, layout, scan.values),
            decreases columns - pixel,
        {
            let mut component: usize = 0;
            assert((pixel + 1) * components == pixel * components + components)
                by (nonlinear_arith);
            assert((pixel + 1) * components <= columns * components) by (nonlinear_arith)
                requires
                    pixel + 1 <= columns,
            ;
            while component < components
                invariant
                    ljpeg@ == frame,
                    frame.wf(),
                    1 <= frame.cps <= 4,
                    components == frame.cps,
                    columns == frame.width,
                    row_len == frame.row_len(),
                    row_len == encoded_row_samples,
                    row < decode_height,
                    decode_height == frame.scan_rows(layout, height as nat),
                    total == decode_height * row_len,
                    region == (Region {
                        x: x as nat,
                        stripwidth: stripwidth as nat,
                        width: width as nat,
                        height: height as nat,
                    }),
                    0 < width,
                    0 < height,
                    region.wf(),
                    region.extent() <= out0.len(),
                    frame.layout(width as nat, height as nat) == Some(layout),
                    standard_layout(frame, region, out0.len()) == Ok::<Layout, Seq<char>>(layout),
                    out0 == old(out)@,
                    pump.wf(),
                    pixel < columns,
                    component <= components,
                    pixel * components + components <= row_len,
                    sample == pixel * components + component,
                    scan == frame.scanned((row * row_len + sample) as nat),
                    scan.failure is None,
                    pump@ == scan.stream,
                    rows_hold(
                        scan.values,
                        row_len,
                        row as int,
                        sample as int,
                        previous_row@,
                        current_row@,
                    ),
                    out@ == with_samples(out0, region, frame, layout, scan.values),
                decreases components - component,
            {
                let ghost next = frame.scan_next(scan);
                let ghost k = (row * row_len + sample) as nat;
                proof {
                    assert(0 <= row * row_len) by (nonlinear_arith)
                        requires
                            0 <= row_len,
                    ;
                    assert(row * row_len + row_len <= total) by (nonlinear_arith)
                        requires
                            row + 1 <= decode_height,
                            0 <= row_len,
                            total == decode_height * row_len,
                    ;
                    assert(next == frame.scanned((k + 1) as nat));
                }
                let value: i32 = match next_value(
                    ljpeg,
                    &mut pump,
                    &previous_row,
                    &current_row,
                    row,
                    pixel,
                    component,
                    Ghost(scan),
                ) {
                    Ok(value) => value,
                    Err(text) => {
                        proof {
                            frame.lemma_failed((k + 1) as nat, total);
                        }
                        return Err(text);
                    },
                };
                current_row[sample] = value;
                store_sample(
                    out,
                    x,
                    stripwidth,
                    width,
                    height,
                    layout,
                    components,
                    row,
                    sample,
                    value,
                    Ghost(frame),
                    Ghost(out0),
                    Ghost(scan.values),
                );
                proof {
                    assert((row - 1) * row_len + row_len == row * row_len) by (nonlinear_arith);
                    scan = next;
                }
                component = component + 1;
                sample = sample + 1;
            }
            pixel = pixel + 1;
        }
        assert((row + 1) * row_len == row * row_len + row_len) by (nonlinear_arith);
        std::mem::swap(&mut previous_row, &mut current_row);
        row = row + 1;
    }
    Ok(())
}

fn set_pixel(out: &mut [u16], at: usize, y: i32, cb: i32, cr: i32)
    requires
        at + 3 <= old(out)@.len(),
    ensures
        final(out)@ == with_pixel(
            old(out)@,
            at as int,
            wrap16(y as int),
            wrap16(cb as int),
            wrap16(cr as int),
        ),
{
    let len: usize = out.len();
    out[at] = truncated(y);
    out[at + 1] = truncated(cb);
    out[at + 2] = truncated(cr);
}

/// The group of four pixels with the given samples.
pub open spec fn square_of(y1: i32, y2: i32, y3: i32, y4: i32, cb: i32, cr: i32) -> Group {
    Group {
        luma: seq![wrap16(y1 as int), wrap16(y2 as int), wrap16(y3 as int), wrap16(y4 as int)],
        cb: wrap16(cb as int),
        cr: wrap16(cr as int),
    }
}

/// The group of two pixels with the given samples.
pub open spec fn pair_of(y1: i32, y2: i32, cb: i32, cr: i32) -> Group {
    Group {
        luma: seq![wrap16(y1 as int), wrap16(y2 as int)],
        cb: wrap16(cb as int),
        cr: wrap16(cr as int),
    }
}

/// Stores two rows of two pixels.
pub fn set_yuv_420(
    out: &mut [u16],
    row: usize,
    col: usize,
    width: usize,
    y1: i32,
    y2: i32,
    y3: i32,
    y4: i32,
    cb: i32,
    cr: i32,
)
    requires
        (row + 1) * width + col + 6 <= old(out)@.len(),
    ensures
        final(out)@ == with_group(
            Sampling::Square,
            old(out)@,
            width as nat,
            row * width + col,
            square_of(y1, y2, y3, y4, cb, cr),
        ),
{
    let len: usize = out.len();
    proof {
        assert(row * width >= 0 && (row + 1) * width == row * width + width) by (nonlinear_arith);
    }
    let pix1: usize = row * width + col;
    let pix2: usize = pix1 + 3;
    let pix3: usize = pix1 + width;
    let pix4: usize = pix3 + 3;
    set_pixel(out, pix1, y1, cb, cr);
    set_pixel(out, pix2, y2, cb, cr);
    set_pixel(out, pix3, y3, cb, cr);
    set_pixel(out, pix4, y4, cb, cr);
}

/// Stores two pixels of a row.
pub fn set_yuv_422(
    out: &mut [u16],
    row: usize,
    col: usize,
    width: usize,
    y1: i32,
    y2: i32,
    cb: i32,
    cr: i32,
)
    requires
        row * width + col + 6 <= old(out)@.len(),
    ensures
        final(out)@ == with_group(
            Sampling::Pair,
            old(out)@,
            width as nat,
            row * width + col,
            pair_of(y1, y2, cb, cr),
        ),
{
    let len: usize = out.len();
    proof {
        assert(row * width >= 0) by (nonlinear_arith);
    }
    let pix1: usize = row * width + col;
    let pix2: usize = pix1 + 3;
    set_pixel(out, pix1, y1, cb, cr);
    set_pixel(out, pix2, y2, cb, cr);
}

/// A number plus the next coded difference.
fn next_number(table: &HuffTable, pump: &mut BitPump, previous: i32) -> (res: Result<i32, String>)
    requires
        table@.wf(),
        old(pump).wf(),
        -0x100000 <= previous <= 0x100000,
    ensures
        final(pump).wf(),
        match table@.decode(old(pump)@) {
            None => res matches Err(text) && text@ == no_code_message(),
            Some((diff, rest)) => res matches Ok(number) && number == previous + diff && -32768
                <= diff <= 32767 && final(pump)@ == rest,
        },
{
    match table.huff_decode(pump) {
        Ok(diff) => Ok(previous + diff),
        Err(text) => Err(text),
    }
}

/// The luma sample behind those in `before`, in a group of `n`.
fn next_luma(
    table: &HuffTable,
    pump: &mut BitPump,
    previous: i32,
    Ghost(start): Ghost<BitStream>,
    Ghost(from): Ghost<int>,
    Ghost(before): Ghost<Seq<int>>,
    Ghost(n): Ghost<nat>,
) -> (res: Result<i32, String>)
    requires
        table@.wf(),
        old(pump).wf(),
        differences(table@, start, from, before.len()) == Some((before, old(pump)@)),
        before.len() < n <= 4,
        previous == if before.len() == 0 {
            from
        } else {
            before.last()
        },
        -0x40000 <= previous <= 0x40000,
    ensures
        final(pump).wf(),
        match res {
            Ok(y) => -32768 <= y - previous <= 32767 && differences(
                table@,
                start,
                from,
                before.len() + 1,
            ) == Some((before.push(y as int), final(pump)@)),
            Err(text) => text@ == no_code_message() && differences(table@, start, from, n) is None,
        },
{
    let ghost k = before.len() + 1;
    assert(differences(table@, start, from, (k - 1) as nat) == Some((before, pump@)));
    match next_number(table, pump, previous) {
        Ok(y) => Ok(y),
        Err(text) => {
            proof {
                crate::ljpeg::yuv::lemma_differences_end(table@, start, from, k, n);
            }
            Err(text)
        },
    }
}

#[verifier::rlimit(30)]
fn next_square(ljpeg: &LjpegDecompressor, pump: &mut BitPump, py: i32, pcb: i32, pcr: i32) -> (res:
    Result<(i32, i32, i32, i32, i32, i32), String>)
    requires
        ljpeg@.wf(),
        ljpeg@.cps >= 3,
        old(pump).wf(),
        0 <= py <= 65535,
        0 <= pcb <= 65535,
        0 <= pcr <= 65535,
    ensures
        final(pump).wf(),
        match ljpeg@.group(Sampling::Square, old(pump)@, (py as int, pcb as int, pcr as int)) {
            None => res matches Err(text) && text@ == no_code_message(),
            Some((group, rest)) => res matches Ok(v) && group == square_of(
                v.0,
                v.1,
                v.2,
                v.3,
                v.4,
                v.5,
            ) && final(pump)@ == rest,
        },
{
    let ghost s = pump@;
    let ghost n = Sampling::Square.pixels();
    let htable1: &HuffTable = ljpeg.table(0);
    let htable2: &HuffTable = ljpeg.table(1);
    let htable3: &HuffTable = ljpeg.table(2);
    let ghost mut ys: Seq<int> = seq![];
    let y1: i32 = match next_luma(htable1, pump, py, Ghost(s), Ghost(py as int), Ghost(ys), Ghost(n)) {
        Ok(y) => y,
        Err(text) => return Err(text),
    };
    proof {
        ys = ys.push(y1 as int);
    }
    let y2: i32 = match next_luma(htable1, pump, y1, Ghost(s), Ghost(py as int), Ghost(ys), Ghost(n)) {
        Ok(y) => y,
        Err(text) => return Err(text),
    };
    proof {
        ys = ys.push(y2 as int);
    }
    let y3: i32 = match next_luma(htable1, pump, y2, Ghost(s), Ghost(py as int), Ghost(ys), Ghost(n)) {
        Ok(y) => y,
        Err(text) => return Err(text),
    };
    proof {
        ys = ys.push(y3 as int);
    }
    let y4: i32 = match next_luma(htable1, pump, y3, Ghost(s), Ghost(py as int), Ghost(ys), Ghost(n)) {
        Ok(y) => y,
        Err(text) => return Err(text),
    };
    proof {
        ys = ys.push(y4 as int);
        assert(ys.len() == n);
        assert(ys.map_values(|y: int| wrap16(y)) =~= square_of(y1, y2, y3, y4, 0, 0).luma);
    }
    let cb: i32 = match next_number(htable2, pump, pcb) {
        Ok(cb) => cb,
        Err(text) => return Err(text),
    };
    let cr: i32 = match next_number(htable3, pump, pcr) {
        Ok(cr) => cr,
        Err(text) => return Err(text),
    };
    Ok((y1, y2, y3, y4, cb, cr))
}

fn next_pair(ljpeg: &LjpegDecompressor, pump: &mut BitPump, py: i32, pcb: i32, pcr: i32) -> (res:
    Result<(i32, i32, i32, i32), String>)
    requires
        ljpeg@.wf(),
        ljpeg@.cps >= 3,
        old(pump).wf(),
        0 <= py <= 65535,
        0 <= pcb <= 65535,
        0 <= pcr <= 65535,
    ensures
        final(pump).wf(),
        match ljpeg@.group(Sampling::Pair, old(pump)@, (py as int, pcb as int, pcr as int)) {
            None => res matches Err(text) && text@ == no_code_message(),
            Some((group, rest)) => res matches Ok(v) && group == pair_of(v.0, v.1, v.2, v.3)
                && final(pump)@ == rest,
        },
{
    let ghost s = pump@;
    let ghost n = Sampling::Pair.pixels();
    let htable1: &HuffTable = ljpeg.table(0);
    let htable2: &HuffTable = ljpeg.table(1);
    let htable3: &HuffTable = ljpeg.table(2);
    let ghost mut ys: Seq<int> = seq![];
    let y1: i32 = match next_luma(htable1, pump, py, Ghost(s), Ghost(py as int), Ghost(ys), Ghost(n)) {
        Ok(y) => y,
        Err(text) => return Err(text),
    };
    proof {
        ys = ys.push(y1 as int);
    }
    let y2: i32 = match next_luma(htable1, pump, y1, Ghost(s), Ghost(py as int), Ghost(ys), Ghost(n)) {
        Ok(y) => y,
        Err(text) => return Err(text),
    };
    proof {
        ys = ys.push(y2 as int);
        assert(ys.len() == n);
        assert(ys.map_values(|y: int| wrap16(y)) =~= pair_of(y1, y2, 0, 0).luma);
    }
    let cb: i32 = match next_number(htable2, pump, pcb) {
        Ok(cb) => cb,
        Err(text) => return Err(text),
    };
    let cr: i32 = match next_number(htable3, pump, pcr) {
        Ok(cr) => cr,
        Err(text) => return Err(text),
    };
    Ok((y1, y2, cb, cr))
}

fn unfit_error() -> (text: String)
    ensures
        text@ == unfit_message(),
{
    "ljpeg: subsampled frame does not fit the destination".to_string()
}

fn size_error(ljpeg: &LjpegDecompressor, width: usize, height: usize) -> (text: String)
    requires
        ljpeg@.width * 3 <= usize::MAX,
    ensures
        text@ == size_message(ljpeg@, width as nat, height as nat),
{
    let mut text: String = with_number("ljpeg: trying to decode ", ljpeg.sof.width * 3, "x");
    push_with(&mut text, ljpeg.sof.height, " into ");
    push_with(&mut text, width, "x");
    push_number(&mut text, height);
    text
}

/// Decodes the group in row `pair` and column `column` of the groups, which is not the first, and
/// stores it if the image holds it.
#[verifier::rlimit(40)]
fn square_at(
    ljpeg: &LjpegDecompressor,
    out: &mut [u16],
    pump: &mut BitPump,
    width: usize,
    pair: usize,
    column: usize,
    Ghost(scan): Ghost<GroupScan>,
    Ghost(out0): Ghost<Seq<u16>>,
) -> (res: Result<bool, String>)
    requires
        ljpeg@.wf(),
        ljpeg@.cps >= 3,
        old(pump).wf(),
        width >= 3,
        pair > 0 || column > 0,
        column < groups_per_row(width as nat),
        column > 0 ==> end_of(Sampling::Square, width as nat, pair as int, column - 1) <= old(
            out,
        )@.len(),
        column == 0 ==> end_of(
            Sampling::Square,
            width as nat,
            pair - 1,
            groups_per_row(width as nat) - 1,
        ) <= old(out)@.len(),
        !scan.failed,
        old(out)@ == with_groups(Sampling::Square, out0, width as nat, scan.groups),
        scan.stream == old(pump)@,
        holds_neighbours(
            Sampling::Square,
            old(out)@,
            width as nat,
            scan.groups,
            pair as int,
            column as int,
        ),
    ensures
        final(pump).wf(),
        final(out)@.len() == old(out)@.len(),
        ({
            let sampling = Sampling::Square;
            let w = width as nat;
            let next = ljpeg@.group_next(sampling, groups_per_row(w) as int, scan);
            match res {
                Ok(false) => {
                    &&& !next.failed
                    &&& end_of(sampling, w, pair as int, column as int) > old(out)@.len()
                    &&& final(out)@ == old(out)@
                },
                Ok(true) => {
                    &&& end_of(sampling, w, pair as int, column as int) <= old(out)@.len()
                    &&& !next.failed
                    &&& next.stream == final(pump)@
                    &&& final(out)@ == with_groups(sampling, out0, w, next.groups)
                    &&& holds_neighbours(
                        sampling,
                        final(out)@,
                        w,
                        next.groups,
                        pair as int,
                        column + 1,
                    )
                },
                Err(text) => {
                    &&& text@ == no_code_message()
                    &&& next.failed
                    &&& final(out)@ == old(out)@
                },
            }
        }),
{
    let ghost w = width as nat;
    let ghost per = groups_per_row(w) as int;
    let len: usize = out.len();
    proof {
        assert(0 <= pair * per && 0 <= pair * 2 * width && pair * 2 <= pair * 2 * width)
            by (nonlinear_arith)
            requires
                0 <= per,
                width >= 1,
        ;
        if column == 0 {
            assert((pair - 1) * 2 * width + 2 * width == pair * 2 * width && (pair - 1) * 2 * width
                >= 0) by (nonlinear_arith)
                requires
                    pair >= 1,
            ;
        }
        assert(pair * 2 * width + 6 * column <= len);
        assert(pair * 2 * w + width == (2 * pair + 1) * width) by (nonlinear_arith)
            requires
                w == width,
        ;
        assert(pair * 2 * width == (2 * pair) * width) by (nonlinear_arith);
        crate::ljpeg::yuv::lemma_group_at(Sampling::Square, w, pair as int, column as int);
        assert((2 - 1) * w == w);
    }
    let row: usize = 2 * pair;
    let col: usize = 6 * column;
    proof {
        if column == 0 {
            assert((row - 2) * width == (pair - 1) * 2 * w) by (nonlinear_arith)
                requires
                    row == 2 * pair,
                    w == width,
            ;
            assert((row - 2) * width + 2 * width == row * width) by (nonlinear_arith);
            assert((row - 2) * width >= 0) by (nonlinear_arith)
                requires
                    row >= 2,
            ;
            assert((pair - 1) * per == pair * per - per) by (nonlinear_arith);
        }
    }
    let pos: usize = if col == 0 {
        // At the start of a line the prediction is the first pixel of the line above.
        (row - 2) * width
    } else {
        // All other cases use the last pixel in the same two lines.
        (row + 1) * width + col - 3
    };
    let (py, pcb, pcr): (u16, u16, u16) = (out[pos], out[pos + 1], out[pos + 2]);
    assert(ljpeg@.group_prediction(scan.groups, per) == (py as int, pcb as int, pcr as int));
    let (y1, y2, y3, y4, cb, cr): (i32, i32, i32, i32, i32, i32) = match next_square(
        ljpeg,
        pump,
        py as i32,
        pcb as i32,
        pcr as i32,
    ) {
        Ok(group) => group,
        Err(text) => return Err(text),
    };
    let ghost group = square_of(y1, y2, y3, y4, cb, cr);
    let room: usize = len - (row * width + col);
    if room < 6 || room - 6 < width {
        return Ok(false);
    }
    proof {
        crate::ljpeg::yuv::lemma_neighbours_kept(
            Sampling::Square,
            out@,
            w,
            scan.groups,
            pair as int,
            column as int,
            group,
        );
        assert(scan.groups.push(group).drop_last() =~= scan.groups);
    }
    set_yuv_420(out, row, col, width, y1, y2, y3, y4, cb, cr);
    Ok(true)
}

/// Decodes a frame whose groups are two rows of two pixels, up to the first group that the image
/// does not hold.
#[verifier::rlimit(40)]
#[verifier::spinoff_prover]
pub(crate) fn decode_squares(
    ljpeg: &LjpegDecompressor,
    out: &mut [u16],
    width: usize,
    height: usize,
) -> (res: Result<(), String>)
    requires
        ljpeg@.wf(),
    ensures
        ({
            let (samples, expected) = fitted_result(
                Sampling::Square,
                ljpeg@,
                old(out)@,
                width as nat,
                height as nat,
            );
            final(out)@ == samples && same_result(res, expected)
        }),
{
    let ghost frame = ljpeg@;
    let ghost out0 = out@;
    let ghost w = width as nat;
    let ghost h = height as nat;
    let ghost sampling = Sampling::Square;
    let len: usize = out.len();
    proof {
        crate::ljpeg::yuv::lemma_stops_at_once(sampling, frame, out0, w, h);
    }
    match ljpeg.sof.width.checked_mul(3) {
        Some(full) => if full != width || ljpeg.sof.height != height {
            return Err(size_error(ljpeg, width, height));
        },
        None => return Err(unfit_error()),
    }
    if ljpeg.sof.cps < 3 {
        return Err(unfit_error());
    }
    let per_row: usize = width / 6 + if width % 6 != 0 {
        1
    } else {
        0
    };
    let pairs: usize = height / 2 + height % 2;
    let ghost per = per_row as int;
    let ghost total = group_total(sampling, w, h);
    let ghost mut scan = frame.groups_scanned(sampling, per, 0);
    let mut pump: BitPump = BitPump::jpeg(ljpeg.buffer);
    let base: i32 = ljpeg.base();
    proof {
        if pairs == 0 || per_row == 0 {
            assert(pairs * per_row == 0) by (nonlinear_arith)
                requires
                    pairs == 0 || per_row == 0,
            ;
        } else {
            assert(pairs * per_row >= 1) by (nonlinear_arith)
                requires
                    pairs >= 1,
                    per_row >= 1,
            ;
        }
        assert((2 - 1) * width == width);
        assert((0 + 1) * width == width);
        assert(0 * width == 0);
    }
    let (y1, y2, y3, y4, cb, cr): (i32, i32, i32, i32, i32, i32) = match next_square(
        ljpeg,
        &mut pump,
        base,
        base,
        base,
    ) {
        Ok(group) => group,
        Err(text) => {
            proof {
                assert(frame.groups_scanned(sampling, per, 1) == frame.group_next(
                    sampling,
                    per,
                    scan,
                ));
                crate::ljpeg::yuv::lemma_all_fit(sampling, w, len as nat, 0);
                crate::ljpeg::yuv::lemma_stops_failed(sampling, frame, out0, w, h, 0);
            }
            return Err(text);
        },
    };
    if len < 6 || len - 6 < width {
        proof {
            let next = frame.groups_scanned(sampling, per, 1);
            assert(next == frame.group_next(sampling, per, scan));
            crate::ljpeg::yuv::lemma_all_fit(sampling, w, len as nat, 0);
            crate::ljpeg::yuv::lemma_stops_outside(sampling, frame, out0, w, h, 0);
        }
        return Err(unfit_error());
    }
    set_yuv_420(out, 0, 0, width, y1, y2, y3, y4, cb, cr);
    proof {
        let group = square_of(y1, y2, y3, y4, cb, cr);
        let next = frame.groups_scanned(sampling, per, 1);
        assert(next == frame.group_next(sampling, per, scan));
        assert(next.groups.drop_last() =~= scan.groups);
        assert(with_groups(sampling, out0, w, scan.groups) == out0);
        crate::ljpeg::yuv::lemma_all_fit(sampling, w, len as nat, 0);
        if pairs > 0 && per_row > 0 {
            assert(0 * per == 0) by (nonlinear_arith);
            assert(0 * sampling.rows() * width == 0) by (nonlinear_arith);
            crate::ljpeg::yuv::lemma_neighbours_kept(sampling, out0, w, scan.groups, 0, 0, group);
        }
        scan = next;
    }
    if pairs == 0 || per_row == 0 {
        proof {
            crate::ljpeg::yuv::lemma_ends(sampling, frame, out0, w, h);
        }
        return Ok(());
    }
    assert(sampling.group_rows(h) == (h + 1) / 2);
    let mut pair: usize = 0;
    let mut column: usize = 1;
    while pair < pairs
        invariant
            ljpeg@ == frame,
            frame.wf(),
            frame.cps >= 3,
            frame.width * 3 <= usize::MAX,
            frame.fills(w, h),
            sampling == Sampling::Square,
            w == width,
            h == height,
            per == per_row,
            per == groups_per_row(w),
            pairs == sampling.group_rows(h),
            per >= 1,
            w >= 3,
            total == group_total(sampling, w, h),
            total == pairs * per,
            len == out@.len(),
            len == out0.len(),
            out0 == old(out)@,
            pump.wf(),
            pair <= pairs,
            column == if pair == 0 {
                1int
            } else {
                0
            },
            scan == frame.groups_scanned(sampling, per, (pair * per + column) as nat),
            all_fit(sampling, w, len as nat, pair * per + column),
            !scan.failed,
            scan.stream == pump@,
            holds_neighbours(sampling, out@, w, scan.groups, pair as int, column as int),
            out@ == with_groups(sampling, out0, w, scan.groups),
        decreases pairs - pair,
    {
        while column < per_row
            invariant
                ljpeg@ == frame,
                frame.wf(),
                frame.cps >= 3,
                frame.width * 3 <= usize::MAX,
                frame.fills(w, h),
                sampling == Sampling::Square,
                w == width,
                h == height,
                per == per_row,
                per == groups_per_row(w),
                pairs == sampling.group_rows(h),
                per >= 1,
                w >= 3,
                total == group_total(sampling, w, h),
                total == pairs * per,
                len == out@.len(),
                len == out0.len(),
                out0 == old(out)@,
                pump.wf(),
                pair < pairs,
                column <= per_row,
                pair == 0 ==> column >= 1,
                scan == frame.groups_scanned(sampling, per, (pair * per + column) as nat),
                all_fit(sampling, w, len as nat, pair * per + column),
                !scan.failed,
                scan.stream == pump@,
                holds_neighbours(sampling, out@, w, scan.groups, pair as int, column as int),
                out@ == with_groups(sampling, out0, w, scan.groups),
            decreases per_row - column,
        {
            let ghost k = (pair * per + column) as nat;
            proof {
                assert(0 <= pair * per) by (nonlinear_arith)
                    requires
                        0 <= per,
                ;
                crate::ljpeg::yuv::lemma_next_group(
                    sampling,
                    w,
                    len as nat,
                    pairs as int,
                    pair as int,
                    column as int,
                );
            }
            let ghost next = frame.groups_scanned(sampling, per, (k + 1) as nat);
            assert(next == frame.group_next(sampling, per, scan));
            match square_at(
                ljpeg,
                out,
                &mut pump,
                width,
                pair,
                column,
                Ghost(scan),
                Ghost(out0),
            ) {
                Ok(stored) => {
                    if !stored {
                        proof {
                            crate::ljpeg::yuv::lemma_stops_outside(
                                sampling,
                                frame,
                                out0,
                                w,
                                h,
                                k,
                            );
                        }
                        return Err(unfit_error());
                    }
                },
                Err(text) => {
                    proof {
                        crate::ljpeg::yuv::lemma_stops_failed(sampling, frame, out0, w, h, k);
                    }
                    return Err(text);
                },
            }
            proof {
                scan = next;
            }
            column = column + 1;
        }
        assert((pair + 1) * per == pair * per + per) by (nonlinear_arith);
        pair = pair + 1;
        column = 0;
    }
    proof {
        crate::ljpeg::yuv::lemma_ends(sampling, frame, out0, w, h);
    }
    Ok(())
}

/// Decodes a frame whose groups are two rows of two pixels.
pub fn decode_ljpeg_420(
    ljpeg: &LjpegDecompressor,
    out: &mut [u16],
    width: usize,
    height: usize,
) -> (res: Result<(), String>)
    requires
        ljpeg@.wf(),
        subsampled_fits(
            Sampling::Square,
            ljpeg@,
            old(out)@.len(),
            width as nat,
            height as nat,
        ),
    ensures
        ({
            let (samples, expected) = subsampled_result(
                Sampling::Square,
                ljpeg@,
                old(out)@,
                width as nat,
                height as nat,
            );
            final(out)@ == samples && same_result(res, expected)
        }),
{
    proof {
        crate::ljpeg::yuv::a_frame_that_fits_is_decoded(
            Sampling::Square,
            ljpeg@,
            out@,
            width as nat,
            height as nat,
        );
    }
    decode_squares(ljpeg, out, width, height)
}

/// Decodes the pair in row `row` and column `column` of the pairs, which is not the first, and
/// stores it if the image holds it.
fn pair_at(
    ljpeg: &LjpegDecompressor,
    out: &mut [u16],
    pump: &mut BitPump,
    width: usize,
    row: usize,
    column: usize,
    Ghost(scan): Ghost<GroupScan>,
    Ghost(out0): Ghost<Seq<u16>>,
) -> (res: Result<bool, String>)
    requires
        ljpeg@.wf(),
        ljpeg@.cps >= 3,
        old(pump).wf(),
        width >= 3,
        row > 0 || column > 0,
        column < groups_per_row(width as nat),
        column > 0 ==> end_of(Sampling::Pair, width as nat, row as int, column - 1) <= old(
            out,
        )@.len(),
        column == 0 ==> end_of(
            Sampling::Pair,
            width as nat,
            row - 1,
            groups_per_row(width as nat) - 1,
        ) <= old(out)@.len(),
        !scan.failed,
        old(out)@ == with_groups(Sampling::Pair, out0, width as nat, scan.groups),
        scan.stream == old(pump)@,
        holds_neighbours(
            Sampling::Pair,
            old(out)@,
            width as nat,
            scan.groups,
            row as int,
            column as int,
        ),
    ensures
        final(pump).wf(),
        final(out)@.len() == old(out)@.len(),
        ({
            let sampling = Sampling::Pair;
            let w = width as nat;
            let next = ljpeg@.group_next(sampling, groups_per_row(w) as int, scan);
            match res {
                Ok(false) => {
                    &&& !next.failed
                    &&& end_of(sampling, w, row as int, column as int) > old(out)@.len()
                    &&& final(out)@ == old(out)@
                },
                Ok(true) => {
                    &&& end_of(sampling, w, row as int, column as int) <= old(out)@.len()
                    &&& !next.failed
                    &&& next.stream == final(pump)@
                    &&& final(out)@ == with_groups(sampling, out0, w, next.groups)
                    &&& holds_neighbours(
                        sampling,
                        final(out)@,
                        w,
                        next.groups,
                        row as int,
                        column + 1,
                    )
                },
                Err(text) => {
                    &&& text@ == no_code_message()
                    &&& next.failed
                    &&& final(out)@ == old(out)@
                },
            }
        }),
{
    let ghost w = width as nat;
    let ghost per = groups_per_row(w) as int;
    let len: usize = out.len();
    let col: usize = 6 * column;
    proof {
        assert(0 <= row * per && 0 <= row * width) by (nonlinear_arith)
            requires
                0 <= per,
        ;
        assert(row * 1 * w == row * width) by (nonlinear_arith)
            requires
                w == width,
        ;
        crate::ljpeg::yuv::lemma_group_at(Sampling::Pair, w, row as int, column as int);
        assert((1 - 1) * w == 0) by (nonlinear_arith);
        if column == 0 {
            assert((row - 1) * width == (row - 1) * 1 * w) by (nonlinear_arith)
                requires
                    w == width,
            ;
            assert((row - 1) * width + width == row * width) by (nonlinear_arith);
            assert((row - 1) * width >= 0) by (nonlinear_arith)
                requires
                    row >= 1,
            ;
            assert((row - 1) * per == row * per - per) by (nonlinear_arith);
        }
    }
    let pos: usize = if col == 0 {
        // At the start of a line the prediction is the first pixel of the line above.
        (row - 1) * width
    } else {
        // All other cases use the last pixel in the same line.
        row * width + col - 3
    };
    let (py, pcb, pcr): (u16, u16, u16) = (out[pos], out[pos + 1], out[pos + 2]);
    assert(ljpeg@.group_prediction(scan.groups, per) == (py as int, pcb as int, pcr as int));
    let (y1, y2, cb, cr): (i32, i32, i32, i32) = match next_pair(
        ljpeg,
        pump,
        py as i32,
        pcb as i32,
        pcr as i32,
    ) {
        Ok(group) => group,
        Err(text) => return Err(text),
    };
    let ghost group = pair_of(y1, y2, cb, cr);
    if len - (row * width + col) < 6 {
        return Ok(false);
    }
    proof {
        crate::ljpeg::yuv::lemma_neighbours_kept(
            Sampling::Pair,
            out@,
            w,
            scan.groups,
            row as int,
            column as int,
            group,
        );
        assert(scan.groups.push(group).drop_last() =~= scan.groups);
    }
    set_yuv_422(out, row, col, width, y1, y2, cb, cr);
    Ok(true)
}

/// Decodes a frame whose groups are two pixels of a row, up to the first group that the image does
/// not hold.
#[verifier::rlimit(40)]
#[verifier::spinoff_prover]
pub(crate) fn decode_pairs(
    ljpeg: &LjpegDecompressor,
    out: &mut [u16],
    width: usize,
    height: usize,
) -> (res: Result<(), String>)
    requires
        ljpeg@.wf(),
    ensures
        ({
            let (samples, expected) = fitted_result(
                Sampling::Pair,
                ljpeg@,
                old(out)@,
                width as nat,
                height as nat,
            );
            final(out)@ == samples && same_result(res, expected)
        }),
{
    let ghost frame = ljpeg@;
    let ghost out0 = out@;
    let ghost w = width as nat;
    let ghost h = height as nat;
    let ghost sampling = Sampling::Pair;
    let len: usize = out.len();
    proof {
        crate::ljpeg::yuv::lemma_stops_at_once(sampling, frame, out0, w, h);
    }
    match ljpeg.sof.width.checked_mul(3) {
        Some(full) => if full != width || ljpeg.sof.height != height {
            return Err(size_error(ljpeg, width, height));
        },
        None => return Err(unfit_error()),
    }
    if ljpeg.sof.cps < 3 {
        return Err(unfit_error());
    }
    let per_row: usize = width / 6 + if width % 6 != 0 {
        1
    } else {
        0
    };
    let ghost per = per_row as int;
    let ghost total = group_total(sampling, w, h);
    let ghost mut scan = frame.groups_scanned(sampling, per, 0);
    let mut pump: BitPump = BitPump::jpeg(ljpeg.buffer);
    let base: i32 = ljpeg.base();
    proof {
        if height == 0 || per_row == 0 {
            assert(height * per_row == 0) by (nonlinear_arith)
                requires
                    height == 0 || per_row == 0,
            ;
        } else {
            assert(height * per_row >= 1) by (nonlinear_arith)
                requires
                    height >= 1,
                    per_row >= 1,
            ;
        }
        assert((1 - 1) * width == 0) by (nonlinear_arith);
        assert(0 * width == 0);
    }
    let (y1, y2, cb, cr): (i32, i32, i32, i32) = match next_pair(
        ljpeg,
        &mut pump,
        base,
        base,
        base,
    ) {
        Ok(group) => group,
        Err(text) => {
            proof {
                assert(frame.groups_scanned(sampling, per, 1) == frame.group_next(
                    sampling,
                    per,
                    scan,
                ));
                crate::ljpeg::yuv::lemma_all_fit(sampling, w, len as nat, 0);
                crate::ljpeg::yuv::lemma_stops_failed(sampling, frame, out0, w, h, 0);
            }
            return Err(text);
        },
    };
    if len < 6 {
        proof {
            let next = frame.groups_scanned(sampling, per, 1);
            assert(next == frame.group_next(sampling, per, scan));
            crate::ljpeg::yuv::lemma_all_fit(sampling, w, len as nat, 0);
            crate::ljpeg::yuv::lemma_stops_outside(sampling, frame, out0, w, h, 0);
        }
        return Err(unfit_error());
    }
    set_yuv_422(out, 0, 0, width, y1, y2, cb, cr);
    proof {
        let group = pair_of(y1, y2, cb, cr);
        let next = frame.groups_scanned(sampling, per, 1);
        assert(next == frame.group_next(sampling, per, scan));
        assert(next.groups.drop_last() =~= scan.groups);
        assert(with_groups(sampling, out0, w, scan.groups) == out0);
        crate::ljpeg::yuv::lemma_all_fit(sampling, w, len as nat, 0);
        if height > 0 && per_row > 0 {
            assert(0 * per == 0) by (nonlinear_arith);
            assert(0 * sampling.rows() * width == 0) by (nonlinear_arith);
            crate::ljpeg::yuv::lemma_neighbours_kept(sampling, out0, w, scan.groups, 0, 0, group);
        }
        scan = next;
    }
    if height == 0 || per_row == 0 {
        proof {
            crate::ljpeg::yuv::lemma_ends(sampling, frame, out0, w, h);
        }
        return Ok(());
    }
    let mut row: usize = 0;
    let mut column: usize = 1;
    while row < height
        invariant
            ljpeg@ == frame,
            frame.wf(),
            frame.cps >= 3,
            frame.width * 3 <= usize::MAX,
            frame.fills(w, h),
            sampling == Sampling::Pair,
            w == width,
            h == height,
            per == per_row,
            per == groups_per_row(w),
            height == sampling.group_rows(h),
            per >= 1,
            w >= 3,
            total == group_total(sampling, w, h),
            total == height * per,
            len == out@.len(),
            len == out0.len(),
            out0 == old(out)@,
            pump.wf(),
            row <= height,
            column == if row == 0 {
                1int
            } else {
                0
            },
            scan == frame.groups_scanned(sampling, per, (row * per + column) as nat),
            all_fit(sampling, w, len as nat, row * per + column),
            !scan.failed,
            scan.stream == pump@,
            holds_neighbours(sampling, out@, w, scan.groups, row as int, column as int),
            out@ == with_groups(sampling, out0, w, scan.groups),
        decreases height - row,
    {
        while column < per_row
            invariant
                ljpeg@ == frame,
                frame.wf(),
                frame.cps >= 3,
                frame.width * 3 <= usize::MAX,
                frame.fills(w, h),
                sampling == Sampling::Pair,
                w == width,
                h == height,
                per == per_row,
                per == groups_per_row(w),
                height == sampling.group_rows(h),
                per >= 1,
                w >= 3,
                total == group_total(sampling, w, h),
                total == height * per,
                len == out@.len(),
                len == out0.len(),
                out0 == old(out)@,
                pump.wf(),
                row < height,
                column <= per_row,
                row == 0 ==> column >= 1,
                scan == frame.groups_scanned(sampling, per, (row * per + column) as nat),
                all_fit(sampling, w, len as nat, row * per + column),
                !scan.failed,
                scan.stream == pump@,
                holds_neighbours(sampling, out@, w, scan.groups, row as int, column as int),
                out@ == with_groups(sampling, out0, w, scan.groups),
            decreases per_row - column,
        {
            let ghost k = (row * per + column) as nat;
            proof {
                assert(0 <= row * per) by (nonlinear_arith)
                    requires
                        0 <= per,
                ;
                crate::ljpeg::yuv::lemma_next_group(
                    sampling,
                    w,
                    len as nat,
                    height as int,
                    row as int,
                    column as int,
                );
            }
            let ghost next = frame.groups_scanned(sampling, per, (k + 1) as nat);
            assert(next == frame.group_next(sampling, per, scan));
            match pair_at(
                ljpeg,
                out,
                &mut pump,
                width,
                row,
                column,
                Ghost(scan),
                Ghost(out0),
            ) {
                Ok(stored) => {
                    if !stored {
                        proof {
                            crate::ljpeg::yuv::lemma_stops_outside(
                                sampling,
                                frame,
                                out0,
                                w,
                                h,
                                k,
                            );
                        }
                        return Err(unfit_error());
                    }
                },
                Err(text) => {
                    proof {
                        crate::ljpeg::yuv::lemma_stops_failed(sampling, frame, out0, w, h, k);
                    }
                    return Err(text);
                },
            }
            proof {
                scan = next;
            }
            column = column + 1;
        }
        assert((row + 1) * per == row * per + per) by (nonlinear_arith);
        row = row + 1;
        column = 0;
    }
    proof {
        crate::ljpeg::yuv::lemma_ends(sampling, frame, out0, w, h);
    }
    Ok(())
}

/// Decodes a frame whose groups are two pixels of a row.
pub fn decode_ljpeg_422(
    ljpeg: &LjpegDecompressor,
    out: &mut [u16],
    width: usize,
    height: usize,
) -> (res: Result<(), String>)
    requires
        ljpeg@.wf(),
        subsampled_fits(
            Sampling::Pair,
            ljpeg@,
            old(out)@.len(),
            width as nat,
            height as nat,
        ),
    ensures
        ({
            let (samples, expected) = subsampled_result(
                Sampling::Pair,
                ljpeg@,
                old(out)@,
                width as nat,
                height as nat,
            );
            final(out)@ == samples && same_result(res, expected)
        }),
{
    proof {
        crate::ljpeg::yuv::a_frame_that_fits_is_decoded(
            Sampling::Pair,
            ljpeg@,
            out@,
            width as nat,
            height as nat,
        );
    }
    decode_pairs(ljpeg, out, width, height)
}

/// Decodes interleaved pairs, which are packed two at a time, not like the scans of JPEG: the code
/// words of both samples, the difference of the first, the difference of the second.
#[verifier::rlimit(30)]
pub fn decode_hasselblad(ljpeg: &LjpegDecompressor, out: &mut [u16], width: usize) -> (res: Result<
    (),
    String,
>)
    requires
        ljpeg@.wf(),
        ljpeg@.cps >= 1,
        width > 0,
    ensures
        res is Ok,
        final(out)@ == hasselblad_result(ljpeg@, old(out)@, width as nat),
{
    let ghost frame = ljpeg@;
    let ghost out0 = out@;
    let ghost w = width as nat;
    let len: usize = out.len();
    let rows: usize = len / width;
    let per_row: usize = width / 2;
    let ghost per = per_row as int;
    let mut pump: BitPump = BitPump::msb32(ljpeg.buffer);
    let htable: &HuffTable = ljpeg.table(0);
    let ghost mut scan = frame.hasselblad_scanned(per, 0);
    let mut row: usize = 0;
    assert(out@ =~= with_row_pairs(out0, w, scan.pairs));
    assert(0 * per == 0);
    while row < rows
        invariant
            frame.wf(),
            htable@ == frame.table(0),
            htable@.wf(),
            w == width,
            width > 0,
            per == per_row,
            per_row == width / 2,
            rows == len / width,
            len == out0.len(),
            len == out@.len(),
            row <= rows,
            pump.wf(),
            scan == frame.hasselblad_scanned(per, (row * per) as nat),
            scan.pairs.len() == row * per,
            pump@ == scan.stream,
            out@ == with_row_pairs(out0, w, scan.pairs),
        decreases rows - row,
    {
        let mut p1: i32 = 0x8000;
        let mut p2: i32 = 0x8000;
        let mut column: usize = 0;
        while column < per_row
            invariant
                frame.wf(),
                htable@ == frame.table(0),
                htable@.wf(),
                w == width,
                width > 0,
                per == per_row,
                per_row == width / 2,
                rows == len / width,
                len == out0.len(),
                len == out@.len(),
                row < rows,
                column <= per_row,
                pump.wf(),
                scan == frame.hasselblad_scanned(per, (row * per + column) as nat),
                scan.pairs.len() == row * per + column,
                pump@ == scan.stream,
                0 <= p1 <= 65535,
                0 <= p2 <= 65535,
                column == 0 ==> p1 == 0x8000 && p2 == 0x8000,
                column > 0 ==> (p1 as u16, p2 as u16) == scan.pairs.last(),
                out@ == with_row_pairs(out0, w, scan.pairs),
            decreases per_row - column,
        {
            let ghost k = (row * per + column) as nat;
            let ghost next = frame.hasselblad_scanned(per, (k + 1) as nat);
            let ghost from = (p1 as u16, p2 as u16);
            proof {
                assert(0 <= row * per) by (nonlinear_arith)
                    requires
                        0 <= per,
                ;
                vstd::arithmetic::div_mod::lemma_fundamental_div_mod_converse(
                    k as int,
                    per,
                    row as int,
                    column as int,
                );
                assert(scan.pairs == frame.hasselblad_scanned(per, ((k + 1) - 1) as nat).pairs);
            }
            let len1: (u8, u8) = htable.huff_len(&mut pump);
            let len2: (u8, u8) = htable.huff_len(&mut pump);
            let diff1: i32 = htable.huff_diff(&mut pump, len1);
            let diff2: i32 = htable.huff_diff(&mut pump, len2);
            let o1: u16 = truncated(p1 + diff1);
            let o2: u16 = truncated(p2 + diff2);
            proof {
                assert(interleaved_pair(htable@, scan.stream, from) == ((o1, o2), pump@));
                crate::ljpeg::pairs::lemma_one_more_pair(
                    out0,
                    w,
                    scan.pairs,
                    (o1, o2),
                    row as int,
                    column as int,
                );
                assert(0 <= row * width) by (nonlinear_arith);
            }
            let at: usize = row * width + 2 * column;
            out[at] = o1;
            out[at + 1] = o2;
            p1 = o1 as i32;
            p2 = o2 as i32;
            proof {
                assert(next.pairs == scan.pairs.push((o1, o2)));
                scan = next;
            }
            column = column + 1;
        }
        assert((row + 1) * per == row * per + per) by (nonlinear_arith);
        row = row + 1;
    }
    proof {
        assert(frame.hasselblad_scanned(per, (rows * per) as nat) == scan);
        assert(per == width as int / 2);
        assert(rows * per == (out0.len() / w) * (w / 2));
    }
    Ok(())
}

/// A prediction plus the next coded difference, reduced to 16 bits.
fn next_sample(table: &HuffTable, pump: &mut BitPump, prediction: i32) -> (res: Result<u16, String>)
    requires
        table@.wf(),
        old(pump).wf(),
    ensures
        final(pump).wf(),
        match table@.decode(old(pump)@) {
            None => res matches Err(text) && text@ == no_code_message(),
            Some((diff, rest)) => res matches Ok(sample) && sample == wrap16(prediction + diff)
                && final(pump)@ == rest,
        },
{
    match table.huff_decode(pump) {
        Ok(diff) => {
            assert(prediction.wrapping_add(diff) as int % 65536 == (prediction + diff) % 65536);
            Ok(truncated(prediction.wrapping_add(diff)))
        },
        Err(text) => Err(text),
    }
}

/// Decodes a strip of samples that come in pairs, each with its own Huffman table.
#[verifier::rlimit(30)]
#[verifier::spinoff_prover]
pub fn decode_leaf_strip(
    src: &[u8],
    out: &mut [u16],
    width: usize,
    height: usize,
    htable1: &HuffTable,
    htable2: &HuffTable,
    bpred: i32,
) -> (res: Result<(), String>)
    requires
        htable1@.wf(),
        htable2@.wf(),
        strip_fits(old(out)@.len(), width as nat, height as nat),
    ensures
        ({
            let (samples, expected) = strip_result(
                src@,
                old(out)@,
                width as nat,
                height as nat,
                htable1@,
                htable2@,
                bpred as int,
            );
            final(out)@ == samples && same_result(res, expected)
        }),
{
    let ghost out0 = out@;
    let ghost w = width as nat;
    let ghost h = height as nat;
    let ghost code1 = htable1@;
    let ghost code2 = htable2@;
    let ghost b = bpred as int;
    let len: usize = out.len();
    let per_row: usize = width / 2 + width % 2;
    let ghost per = per_row as int;
    let ghost total = strip_total(w, h);
    let ghost mut scan = strip_scanned(src@, code1, code2, b, per, 0);
    let mut pump: BitPump = BitPump::jpeg(src);
    proof {
        if height == 0 || per_row == 0 {
            assert(height * per_row == 0) by (nonlinear_arith)
                requires
                    height == 0 || per_row == 0,
            ;
        } else {
            crate::ljpeg::pairs::lemma_strip_before_last(len as nat, w, h, 0, 0);
            assert(0 * width == 0);
        }
    }
    let ghost next = strip_scanned(src@, code1, code2, b, per, 1);
    assert(next == strip_next(code1, code2, b, per, scan));
    let sample1: u16 = match next_sample(htable1, &mut pump, bpred) {
        Ok(sample) => sample,
        Err(text) => {
            proof {
                crate::ljpeg::pairs::lemma_strip_failed(src@, code1, code2, b, per, 1, total);
            }
            return Err(text);
        },
    };
    out[0] = sample1;
    let sample2: u16 = match next_sample(htable2, &mut pump, bpred) {
        Ok(sample) => sample,
        Err(text) => {
            proof {
                crate::ljpeg::pairs::lemma_strip_failed(src@, code1, code2, b, per, 1, total);
            }
            return Err(text);
        },
    };
    out[1] = sample2;
    proof {
        assert(next.pairs.drop_last() =~= scan.pairs);
        assert(with_strip_pairs(out0, w, scan.pairs) == out0);
        assert(0 * per == 0);
        scan = next;
    }
    if height == 0 || per_row == 0 {
        return Ok(());
    }
    let mut row: usize = 0;
    let mut column: usize = 1;
    while row < height
        invariant
            code1 == htable1@,
            code2 == htable2@,
            code1.wf(),
            code2.wf(),
            b == bpred,
            w == width,
            h == height,
            per == per_row,
            per == strip_pairs_per_row(w),
            per >= 1,
            strip_fits(len as nat, w, h),
            total == strip_total(w, h),
            total == height * per,
            len == out@.len(),
            len == out0.len(),
            out0 == old(out)@,
            pump.wf(),
            row <= height,
            column == if row == 0 {
                1int
            } else {
                0
            },
            scan == strip_scanned(src@, code1, code2, b, per, (row * per + column) as nat),
            !scan.failed,
            scan.stream == pump@,
            strip_holds_neighbours(out@, w, scan.pairs, row as int, column as int),
            out@ == with_strip_pairs(out0, w, scan.pairs),
        decreases height - row,
    {
        while column < per_row
            invariant
                code1 == htable1@,
                code2 == htable2@,
                code1.wf(),
                code2.wf(),
                b == bpred,
                w == width,
                h == height,
                per == per_row,
                per == strip_pairs_per_row(w),
                per >= 1,
                strip_fits(len as nat, w, h),
                total == strip_total(w, h),
                total == height * per,
                len == out@.len(),
                len == out0.len(),
                out0 == old(out)@,
                pump.wf(),
                row < height,
                column <= per_row,
                row == 0 ==> column >= 1,
                scan == strip_scanned(src@, code1, code2, b, per, (row * per + column) as nat),
                !scan.failed,
                scan.stream == pump@,
                strip_holds_neighbours(out@, w, scan.pairs, row as int, column as int),
                out@ == with_strip_pairs(out0, w, scan.pairs),
            decreases per_row - column,
        {
            let ghost k = (row * per + column) as nat;
            let ghost next = strip_scanned(src@, code1, code2, b, per, (k + 1) as nat);
            proof {
                assert(0 <= row * per) by (nonlinear_arith)
                    requires
                        0 <= per,
                ;
                assert(next == strip_next(code1, code2, b, per, scan));
                crate::ljpeg::pairs::lemma_strip_before_last(
                    len as nat,
                    w,
                    h,
                    row as int,
                    column as int,
                );
                crate::ljpeg::pairs::lemma_strip_pair_at(w, row as int, column as int);
                if column == 0 {
                    assert((row - 1) * width + width == row * width) by (nonlinear_arith);
                    assert((row - 1) * width >= 0) by (nonlinear_arith)
                        requires
                            row >= 1,
                    ;
                    assert((row - 1) * per == row * per - per) by (nonlinear_arith);
                }
            }
            let at: usize = row * width + 2 * column;
            let pos: usize = if column == 0 {
                // At the start of a line the prediction is the start of the line above.
                (row - 1) * width
            } else {
                // All other cases use the two pixels before in the same line.
                at - 2
            };
            let (p1, p2): (u16, u16) = (out[pos], out[pos + 1]);
            assert(strip_prediction(b, scan.pairs, per) == (p1 as int, p2 as int));
            let sample1: u16 = match next_sample(htable1, &mut pump, p1 as i32) {
                Ok(sample) => sample,
                Err(text) => {
                    proof {
                        crate::ljpeg::pairs::lemma_strip_failed(src@, code1, code2, b, per, (k + 1) as nat, total);
                    }
                    return Err(text);
                },
            };
            let sample2: u16 = match next_sample(htable2, &mut pump, p2 as i32) {
                Ok(sample) => sample,
                Err(text) => {
                    proof {
                        crate::ljpeg::pairs::lemma_strip_failed(src@, code1, code2, b, per, (k + 1) as nat, total);
                    }
                    return Err(text);
                },
            };
            out[at] = sample1;
            out[at + 1] = sample2;
            proof {
                assert(next.pairs == scan.pairs.push((sample1, sample2)));
                assert(next.pairs.drop_last() =~= scan.pairs);
                scan = next;
            }
            column = column + 1;
        }
        assert((row + 1) * per == row * per + per) by (nonlinear_arith);
        row = row + 1;
        column = 0;
    }
    Ok(())
}

} // verus!
