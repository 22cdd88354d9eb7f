//! What the scan of a lossless JPEG file decodes to.
use vstd::prelude::*;
use crate::bits::{unstuffed, BitStream};
use crate::ljpeg::frame::Frame;
use crate::ljpeg::huffman::no_code_message;
use crate::region::Region;
use crate::text::decimal;

verus! {

/// Half of a number, rounded down.
pub open spec fn half(n: i32) -> i32 {
    (n as int / 2) as i32
}

/// The low 16 bits of a sample.
pub open spec fn low16(n: i32) -> u16 {
    (n as int % 65536) as u16
}

/// The prediction of a sample from the one to its left, the one above it and the one above the
/// one to its left. Sums wrap around at 32 bits.
pub open spec fn predicted(predictor: usize, left: i32, above: i32, upper_left: i32) -> Option<i32> {
    match predictor {
        1 => Some(left),
        2 => Some(above),
        3 => Some(upper_left),
        4 => Some(left.wrapping_add(above).wrapping_sub(upper_left)),
        5 => Some(left.wrapping_add(half(above.wrapping_sub(upper_left)))),
        6 => Some(above.wrapping_add(half(left.wrapping_sub(upper_left)))),
        7 => Some(half(left.wrapping_add(above))),
        _ => None,
    }
}

/// The message for a predictor that JPEG does not define.
pub open spec fn predictor_message(predictor: usize) -> Seq<char> {
    "ljpeg: predictor "@ + decimal(predictor as nat) + " not supported"@
}

/// How the samples of the scan are spread over the rows of the destination.
#[derive(Debug, Clone, Copy, PartialEq, Eq)]
pub enum Layout {
    /// A row of the scan starts a row of the destination.
    Rows,
    /// A row of the scan holds this many rows of the destination, one behind the other.
    Stacked(usize),
    /// Every component is a row of the destination.
    Components,
}

/// The samples that have been decoded so far, what is left of the scan, and why it ended early.
pub struct Scan {
    pub values: Seq<i32>,
    pub stream: BitStream,
    pub failure: Option<Seq<char>>,
}

impl Frame {
    /// The number of samples in a row of the scan.
    pub open spec fn row_len(self) -> nat {
        (self.width * self.cps) as nat
    }

    /// The scan before the first sample.
    pub open spec fn scan_start(self) -> Scan {
        Scan {
            values: seq![],
            stream: BitStream { bytes: unstuffed(self.buffer), pos: 0 },
            failure: None,
        }
    }

    /// What the sample behind `values` is predicted to be. The first pixel has the middle of the
    /// range, the rest of the first row the pixel to the left, the first pixel of any other row
    /// the pixel above, and every other sample goes by the predictor of the scan.
    pub open spec fn prediction(self, values: Seq<i32>) -> Result<i32, Seq<char>> {
        let k = values.len() as int;
        let row = k / self.row_len() as int;
        let pixel = (k % self.row_len() as int) / self.cps as int;
        if row == 0 && pixel == 0 {
            Ok(self.base())
        } else if row == 0 {
            Ok(values[k - self.cps])
        } else if pixel == 0 {
            Ok(values[k - self.row_len()])
        } else {
            match predicted(
                self.predictor,
                values[k - self.cps],
                values[k - self.row_len()],
                values[k - self.row_len() - self.cps],
            ) {
                Some(value) => Ok(value),
                None => Err(predictor_message(self.predictor)),
            }
        }
    }

    /// The component that the sample number `k` belongs to.
    pub open spec fn component_of(self, k: int) -> int {
        (k % self.row_len() as int) % self.cps as int
    }

    /// Decodes one more sample: its prediction plus the coded difference.
    pub open spec fn scan_next(self, scan: Scan) -> Scan {
        if scan.failure is Some {
            scan
        } else {
            match self.prediction(scan.values) {
                Err(message) => Scan { failure: Some(message), ..scan },
                Ok(prediction) => {
                    let code = self.table(self.component_of(scan.values.len() as int));
                    match code.decode(scan.stream) {
                        None => Scan { failure: Some(no_code_message()), ..scan },
                        Some((diff, rest)) => Scan {
                            values: scan.values.push(prediction.wrapping_add(diff as i32)),
                            stream: rest,
                            failure: None,
                        },
                    }
                },
            }
        }
    }

    /// The scan after `n` samples, or where it failed before.
    pub open spec fn scanned(self, n: nat) -> Scan
        decreases n,
    {
        if n == 0 {
            self.scan_start()
        } else {
            self.scan_next(self.scanned((n - 1) as nat))
        }
    }

    /// The layout by which the frame fills `height` rows of `width` samples; `None` if it cannot.
    /// Rows come before stacked rows, and those before components.
    pub open spec fn layout(self, width: nat, height: nat) -> Option<Layout> {
        let row_len = self.row_len();
        let factor = row_len / width;
        if row_len >= width && self.height >= height {
            Some(Layout::Rows)
        } else if self.cps == 1 && width > 0 && row_len % width == 0 && factor > 1 && height
            <= self.height * factor <= usize::MAX {
            Some(Layout::Stacked(factor as usize))
        } else if self.width >= width && height <= self.height * self.cps <= usize::MAX {
            Some(Layout::Components)
        } else {
            None
        }
    }

    /// The number of destination rows that one row of the scan fills.
    pub open spec fn rows_per_scan_row(self, layout: Layout) -> nat {
        match layout {
            Layout::Rows => 1,
            Layout::Stacked(factor) => factor as nat,
            Layout::Components => self.cps as nat,
        }
    }

    /// The number of rows of the scan that `height` destination rows need.
    pub open spec fn scan_rows(self, layout: Layout, height: nat) -> nat {
        let per = self.rows_per_scan_row(layout);
        if height == 0 {
            0
        } else {
            ((height - 1) / per as int + 1) as nat
        }
    }

    /// The number of the sample that goes to row `r` and column `c` of the destination.
    pub open spec fn source(self, layout: Layout, width: nat, r: int, c: int) -> int {
        let row_len = self.row_len();
        match layout {
            Layout::Rows => r * row_len + c,
            Layout::Stacked(factor) => (r / factor as int) * row_len + (r % factor as int) * width
                + c,
            Layout::Components => (r / self.cps as int) * row_len + c * self.cps + r
                % self.cps as int,
        }
    }
}

/// The destination once the samples of `values` stand where they belong.
pub open spec fn with_samples(
    out: Seq<u16>,
    region: Region,
    frame: Frame,
    layout: Layout,
    values: Seq<i32>,
) -> Seq<u16> {
    Seq::new(
        out.len(),
        |i: int|
            {
                let k = frame.source(layout, region.width, region.row(i), region.col(i));
                if region.holds(i) && k < values.len() {
                    low16(values[k])
                } else {
                    out[i]
                }
            },
    )
}

/// A quotient and a remainder are determined by the number they make up.
proof fn lemma_unique(q1: int, r1: int, q2: int, r2: int, d: int)
    requires
        0 <= r1 < d,
        0 <= r2 < d,
        q1 * d + r1 == q2 * d + r2,
    ensures
        q1 == q2,
        r1 == r2,
{
    vstd::arithmetic::div_mod::lemma_fundamental_div_mod_converse(q1 * d + r1, d, q1, r1);
    vstd::arithmetic::div_mod::lemma_fundamental_div_mod_converse(q1 * d + r1, d, q2, r2);
}

proof fn lemma_split(n: int, d: int)
    requires
        0 <= n,
        0 < d,
    ensures
        n == (n / d) * d + n % d,
        0 <= n % d < d,
        0 <= n / d,
{
    vstd::arithmetic::div_mod::lemma_fundamental_div_mod(n, d);
    vstd::arithmetic::div_mod::lemma_div_pos_is_pos(n, d);
    vstd::arithmetic::mul::lemma_mul_is_commutative(d, n / d);
}

proof fn lemma_inner_bound(q: int, r: int, d: int, n: int)
    requires
        0 <= q < n,
        0 <= r < d,
    ensures
        0 <= q * d + r < n * d,
{
    assert(q * d + d <= n * d) by (nonlinear_arith)
        requires
            q + 1 <= n,
            0 < d,
    ;
    assert(0 <= q * d) by (nonlinear_arith)
        requires
            0 <= q,
            0 < d,
    ;
}

impl Frame {
    /// Where sample `sample` of row `row` of the scan goes: row and column of the destination.
    pub open spec fn target(self, layout: Layout, width: nat, row: int, sample: int) -> (int, int) {
        match layout {
            Layout::Rows => (row, sample),
            Layout::Stacked(factor) => (row * factor + sample / width as int, sample % width as int),
            Layout::Components => (
                row * self.cps + sample % self.cps as int,
                sample / self.cps as int,
            ),
        }
    }

    /// A sample goes to one place, and comes from there.
    pub proof fn lemma_source(
        self,
        layout: Layout,
        width: nat,
        height: nat,
        r: int,
        c: int,
        row: int,
        sample: int,
    )
        requires
            self.layout(width, height) == Some(layout),
            self.row_len() <= usize::MAX,
            0 <= r < height,
            0 <= c < width,
            0 <= row,
            0 <= sample < self.row_len(),
        ensures
            (self.source(layout, width, r, c) == row * self.row_len() + sample) <==> ((r, c)
                == self.target(layout, width, row, sample)),
    {
        let row_len = self.row_len() as int;
        let k = row * row_len + sample;
        let (tr, tc) = self.target(layout, width, row, sample);
        match layout {
            Layout::Rows => {
                if r * row_len + c == k {
                    lemma_unique(r, c, row, sample, row_len);
                }
            },
            Layout::Stacked(factor) => {
                let f = factor as int;
                lemma_split(row_len, width as int);
                assert(row_len / width as int <= row_len) by (nonlinear_arith)
                    requires
                        row_len == (row_len / width as int) * width as int,
                        1 <= width,
                        0 <= row_len / width as int,
                ;
                assert(f == row_len / width as int);
                assert(row_len == f * width);
                lemma_split(r, f);
                lemma_split(sample, width as int);
                lemma_inner_bound(r % f, c, width as int, f);
                assert(sample / width as int <= f - 1) by (nonlinear_arith)
                    requires
                        sample == (sample / width as int) * width as int + sample % width as int,
                        0 <= sample % width as int,
                        sample < f * width,
                        0 < width,
                ;
                if self.source(layout, width, r, c) == k {
                    lemma_unique(r / f, (r % f) * width + c, row, sample, row_len);
                    lemma_unique(
                        r % f,
                        c,
                        sample / width as int,
                        sample % width as int,
                        width as int,
                    );
                }
                if (r, c) == (tr, tc) {
                    lemma_unique(r / f, r % f, row, sample / width as int, f);
                }
            },
            Layout::Components => {
                let n = self.cps as int;
                assert(n > 0) by {
                    if n == 0 {
                        assert(self.width * 0 == 0);
                    }
                }
                lemma_split(r, n);
                lemma_split(sample, n);
                lemma_inner_bound(c, r % n, n, self.width as int);
                if self.source(layout, width, r, c) == k {
                    lemma_unique(r / n, c * n + r % n, row, sample, row_len);
                    lemma_unique(c, r % n, sample / n, sample % n, n);
                }
                if (r, c) == (tr, tc) {
                    lemma_unique(r / n, r % n, row, sample % n, n);
                }
            },
        }
    }

    /// A failed scan stays as it is.
    pub proof fn lemma_failed(self, k: nat, n: nat)
        requires
            k <= n,
            self.scanned(k).failure is Some,
        ensures
            self.scanned(n) == self.scanned(k),
        decreases n,
    {
        if k < n {
            self.lemma_failed(k, (n - 1) as nat);
        }
    }
}

/// One more decoded sample changes the destination where the sample goes, if that lies in it.
pub proof fn lemma_one_more(
    out: Seq<u16>,
    region: Region,
    frame: Frame,
    layout: Layout,
    values: Seq<i32>,
    value: i32,
    row: int,
    sample: int,
)
    requires
        region.wf(),
        region.extent() <= out.len(),
        frame.layout(region.width, region.height) == Some(layout),
        frame.row_len() <= usize::MAX,
        0 <= row,
        0 <= sample < frame.row_len(),
        values.len() == row * frame.row_len() + sample,
    ensures
        ({
            let (r, c) = frame.target(layout, region.width, row, sample);
            let before = with_samples(out, region, frame, layout, values);
            let after = with_samples(out, region, frame, layout, values.push(value));
            if 0 <= r < region.height && 0 <= c < region.width {
                after == before.update(region.at(r, c), low16(value))
            } else {
                after == before
            }
        }),
{
    let (r, c) = frame.target(layout, region.width, row, sample);
    let before = with_samples(out, region, frame, layout, values);
    let after = with_samples(out, region, frame, layout, values.push(value));
    let inside = 0 <= r < region.height && 0 <= c < region.width;
    if inside {
        crate::region::lemma_region_at(region, r, c);
    }
    let expected = if inside {
        before.update(region.at(r, c), low16(value))
    } else {
        before
    };
    assert forall|i: int| 0 <= i < out.len() implies after[i] == #[trigger] expected[i] by {
        if region.holds(i) {
            crate::region::lemma_region_holds(region, i);
            frame.lemma_source(
                layout,
                region.width,
                region.height,
                region.row(i),
                region.col(i),
                row,
                sample,
            );
        }
    }
    assert(after =~= expected);
}

/// What is wrong with decoding the frame into a rectangle of an image of `len` samples, or the
/// layout by which it is decoded.
pub open spec fn standard_layout(frame: Frame, region: Region, len: nat) -> Result<
    Layout,
    Seq<char>,
> {
    let row_end = region.x + region.width;
    if frame.cps == 0 || frame.cps > 4 {
        Err("ljpeg: "@ + decimal(frame.cps as nat) + " component files not supported"@)
    } else if frame.row_len() > usize::MAX {
        Err("ljpeg: encoded row width overflowed"@)
    } else {
        match frame.layout(region.width, region.height) {
            None => Err(
                "ljpeg: trying to decode "@ + decimal(frame.width as nat) + "x"@ + decimal(
                    frame.height as nat,
                ) + " with "@ + decimal(frame.cps as nat) + " components into "@ + decimal(
                    region.width,
                ) + "x"@ + decimal(region.height),
            ),
            Some(layout) => if row_end > usize::MAX {
                Err("ljpeg: destination row width overflowed"@)
            } else if row_end > region.stripwidth {
                Err(
                    "ljpeg: destination range "@ + decimal(region.x) + ".."@ + decimal(row_end)
                        + " exceeds row width "@ + decimal(region.stripwidth),
                )
            } else if region.extent() > usize::MAX {
                Err("ljpeg: destination size overflowed"@)
            } else if region.extent() > len {
                Err(
                    "ljpeg: destination has "@ + decimal(len) + " samples, needs "@ + decimal(
                        region.extent(),
                    ),
                )
            } else {
                Ok(layout)
            },
        }
    }
}

/// What [`crate::ljpeg::decompressors::decode_ljpeg_standard`] makes of a frame: the destination
/// and the message, if it fails. Samples that were decoded before a failure stay.
pub open spec fn standard_result(frame: Frame, out: Seq<u16>, region: Region) -> (
    Seq<u16>,
    Result<(), Seq<char>>,
) {
    match standard_layout(frame, region, out.len()) {
        Err(message) => (out, Err(message)),
        Ok(layout) => if region.width == 0 || region.height == 0 {
            (out, Ok(()))
        } else {
            let scan = frame.scanned(
                frame.scan_rows(layout, region.height) * frame.row_len(),
            );
            (
                with_samples(out, region, frame, layout, scan.values),
                match scan.failure {
                    None => Ok(()),
                    Some(message) => Err(message),
                },
            )
        },
    }
}

impl Frame {
    /// A scan that did not fail holds as many samples as were decoded.
    pub proof fn lemma_scanned_len(self, n: nat)
        ensures
            self.scanned(n).failure is None ==> self.scanned(n).values.len() == n,
        decreases n,
    {
        if n > 0 {
            self.lemma_scanned_len((n - 1) as nat);
        }
    }

    /// Decoding further keeps the samples that were decoded before.
    pub proof fn lemma_scanned_prefix(self, k: nat, n: nat)
        requires
            k <= n,
            self.scanned(n).failure is None,
        ensures
            self.scanned(k).failure is None,
            self.scanned(k).values == self.scanned(n).values.take(k as int),
        decreases n,
    {
        self.lemma_scanned_len(n);
        if k < n {
            if self.scanned((n - 1) as nat).failure is Some {
                assert(self.scanned(n) == self.scanned((n - 1) as nat));
            }
            self.lemma_scanned_prefix(k, (n - 1) as nat);
            self.lemma_scanned_len((n - 1) as nat);
            assert(self.scanned((n - 1) as nat).values.take(k as int) =~= self.scanned(
                n,
            ).values.take(k as int));
        } else {
            assert(self.scanned(k).values =~= self.scanned(n).values.take(k as int));
        }
    }

    /// The rows of the scan that are decoded hold a sample for every place of the destination.
    pub proof fn lemma_source_decoded(self, layout: Layout, width: nat, height: nat, r: int, c: int)
        requires
            self.layout(width, height) == Some(layout),
            self.row_len() <= usize::MAX,
            0 <= r < height,
            0 <= c < width,
        ensures
            0 <= self.source(layout, width, r, c) < self.scan_rows(layout, height)
                * self.row_len(),
    {
        let row_len = self.row_len() as int;
        let per = self.rows_per_scan_row(layout) as int;
        let rows = self.scan_rows(layout, height) as int;
        match layout {
            Layout::Rows => {
                assert(rows == height);
                lemma_inner_bound(r, c, row_len, rows);
            },
            Layout::Stacked(factor) => {
                let f = factor as int;
                lemma_split(row_len, width as int);
                assert(row_len / width as int <= row_len) by (nonlinear_arith)
                    requires
                        row_len == (row_len / width as int) * width as int,
                        1 <= width,
                        0 <= row_len / width as int,
                ;
                assert(row_len == f * width);
                lemma_split(r, f);
                lemma_inner_bound(r % f, c, width as int, f);
                vstd::arithmetic::div_mod::lemma_div_is_ordered(r, height - 1, f);
                lemma_inner_bound(r / f, (r % f) * width + c, row_len, rows);
            },
            Layout::Components => {
                let n = self.cps as int;
                assert(n > 0) by {
                    if n == 0 {
                        assert(self.width * 0 == 0);
                    }
                }
                lemma_split(r, n);
                lemma_inner_bound(c, r % n, n, self.width as int);
                vstd::arithmetic::div_mod::lemma_div_is_ordered(r, height - 1, n);
                lemma_inner_bound(r / n, c * n + r % n, row_len, rows);
            },
        }
    }
}

/// A decode that succeeds gives every place of the destination a sample of the scan.
pub proof fn standard_decode_fills_the_destination(
    frame: Frame,
    out: Seq<u16>,
    region: Region,
    r: int,
    c: int,
)
    requires
        standard_result(frame, out, region).1 is Ok,
        0 <= r < region.height,
        0 <= c < region.width,
    ensures
        ({
            let layout = frame.layout(region.width, region.height)->0;
            let total = frame.scan_rows(layout, region.height) * frame.row_len();
            let k = frame.source(layout, region.width, r, c);
            &&& 0 <= k < total
            &&& total == frame.scanned(total).values.len()
            &&& standard_result(frame, out, region).0[region.at(r, c)] == low16(
                frame.scanned(total).values[k],
            )
        }),
{
    let layout = frame.layout(region.width, region.height)->0;
    let total = frame.scan_rows(layout, region.height) * frame.row_len();
    frame.lemma_source_decoded(layout, region.width, region.height, r, c);
    frame.lemma_scanned_len(total);
    crate::region::lemma_region_at(region, r, c);
}

/// A decode, whether it succeeds or fails, changes nothing outside its destination.
pub proof fn standard_decode_keeps_the_rest(frame: Frame, out: Seq<u16>, region: Region, i: int)
    requires
        0 <= i < out.len(),
        !region.holds(i),
    ensures
        standard_result(frame, out, region).0.len() == out.len(),
        standard_result(frame, out, region).0[i] == out[i],
{
}

/// A destination that is narrower or lower than the frame receives the same samples as a larger
/// one: what is left over keeps the scan and the predictors in step.
pub proof fn standard_decode_of_a_part(
    frame: Frame,
    out_a: Seq<u16>,
    a: Region,
    out_b: Seq<u16>,
    b: Region,
    r: int,
    c: int,
)
    requires
        standard_result(frame, out_a, a).1 is Ok,
        standard_result(frame, out_b, b).1 is Ok,
        frame.layout(a.width, a.height) == Some(Layout::Rows),
        frame.layout(b.width, b.height) == Some(Layout::Rows),
        0 <= r < a.height,
        0 <= c < a.width,
        r < b.height,
        c < b.width,
    ensures
        standard_result(frame, out_a, a).0[a.at(r, c)] == standard_result(frame, out_b, b).0[b.at(
            r,
            c,
        )],
{
    standard_decode_fills_the_destination(frame, out_a, a, r, c);
    standard_decode_fills_the_destination(frame, out_b, b, r, c);
    let rows_a = frame.scan_rows(Layout::Rows, a.height);
    let rows_b = frame.scan_rows(Layout::Rows, b.height);
    let total_a = rows_a * frame.row_len();
    let total_b = rows_b * frame.row_len();
    if rows_a <= rows_b {
        assert(total_a <= total_b) by (nonlinear_arith)
            requires
                rows_a <= rows_b,
                total_a == rows_a * frame.row_len(),
                total_b == rows_b * frame.row_len(),
        ;
        frame.lemma_scanned_prefix(total_a, total_b);
    } else {
        assert(total_b <= total_a) by (nonlinear_arith)
            requires
                rows_b <= rows_a,
                total_a == rows_a * frame.row_len(),
                total_b == rows_b * frame.row_len(),
        ;
        frame.lemma_scanned_prefix(total_b, total_a);
    }
}

} // verus!
