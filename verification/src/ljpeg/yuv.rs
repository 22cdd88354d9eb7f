//! What the scan of a subsampled lossless JPEG file decodes to: pixels of a luma and two chroma
//! samples, in groups of neighbours that share their chroma.
use vstd::prelude::*;
use crate::bits::{unstuffed, BitStream};
use crate::ljpeg::frame::Frame;
use crate::ljpeg::huffman::{no_code_message, HuffCode};
use crate::text::decimal;

verus! {

/// The pixels of a group.
#[derive(Debug, Clone, Copy, PartialEq, Eq)]
pub enum Sampling {
    /// Two rows of two pixels.
    Square,
    /// Two pixels of a row.
    Pair,
}

/// The samples of a group: one luma sample per pixel, row by row, and the chroma of them all.
pub struct Group {
    pub luma: Seq<u16>,
    pub cb: u16,
    pub cr: u16,
}

/// The groups that have been decoded so far, what is left of the scan, and whether it ended early.
pub struct GroupScan {
    pub groups: Seq<Group>,
    pub stream: BitStream,
    pub failed: bool,
}

/// A number reduced to 16 bits.
pub open spec fn wrap16(n: int) -> u16 {
    (n % 65536) as u16
}

/// `n` numbers, each the one before it (the first: `start`) plus a coded difference, and the
/// stream behind them; `None` where no code word matches.
pub open spec fn differences(code: HuffCode, s: BitStream, start: int, n: nat) -> Option<
    (Seq<int>, BitStream),
>
    decreases n,
{
    if n == 0 {
        Some((seq![], s))
    } else {
        match differences(code, s, start, (n - 1) as nat) {
            None => None,
            Some((numbers, rest)) => match code.decode(rest) {
                None => None,
                Some((diff, behind)) => Some(
                    (
                        numbers.push(
                            diff + if n == 1 {
                                start
                            } else {
                                numbers.last()
                            },
                        ),
                        behind,
                    ),
                ),
            },
        }
    }
}

/// Where a number is missing, so are all that follow it.
pub proof fn lemma_differences_end(code: HuffCode, s: BitStream, start: int, k: nat, n: nat)
    requires
        k <= n,
        differences(code, s, start, k) is None,
    ensures
        differences(code, s, start, n) is None,
    decreases n,
{
    if k < n {
        lemma_differences_end(code, s, start, k, (n - 1) as nat);
    }
}

impl Sampling {
    /// The number of pixels in a group.
    pub open spec fn pixels(self) -> nat {
        match self {
            Sampling::Square => 4,
            Sampling::Pair => 2,
        }
    }

    /// The number of pixel rows that a group covers.
    pub open spec fn rows(self) -> nat {
        match self {
            Sampling::Square => 2,
            Sampling::Pair => 1,
        }
    }

    /// The number of rows of groups that `height` rows of pixels need.
    pub open spec fn group_rows(self, height: nat) -> nat {
        ((height + self.rows() - 1) / self.rows() as int) as nat
    }
}

/// The number of groups in a row of `width` samples, three of which make a pixel.
pub open spec fn groups_per_row(width: nat) -> nat {
    (width + 5) / 6
}

/// The number of groups that are decoded: those that cover the image, and the first in any case.
pub open spec fn group_total(sampling: Sampling, width: nat, height: nat) -> nat {
    let n = sampling.group_rows(height) * groups_per_row(width);
    if n == 0 {
        1
    } else {
        n
    }
}

/// Where the first pixel of group number `k` is stored.
pub open spec fn group_at(sampling: Sampling, width: nat, k: int) -> int {
    if k == 0 {
        0
    } else {
        let per_row = groups_per_row(width) as int;
        (k / per_row) * sampling.rows() * width + 6 * (k % per_row)
    }
}

/// The image once a pixel stands at `at`.
pub open spec fn with_pixel(out: Seq<u16>, at: int, y: u16, cb: u16, cr: u16) -> Seq<u16> {
    out.update(at, y).update(at + 1, cb).update(at + 2, cr)
}

/// The image once the pixels of a group stand from `at` on.
pub open spec fn with_group(
    sampling: Sampling,
    out: Seq<u16>,
    width: nat,
    at: int,
    group: Group,
) -> Seq<u16> {
    let first = with_pixel(out, at, group.luma[0], group.cb, group.cr);
    let upper = with_pixel(first, at + 3, group.luma[1], group.cb, group.cr);
    match sampling {
        Sampling::Pair => upper,
        Sampling::Square => {
            let third = with_pixel(upper, at + width, group.luma[2], group.cb, group.cr);
            with_pixel(third, at + width + 3, group.luma[3], group.cb, group.cr)
        },
    }
}

/// The image once all groups stand in it, one after the other.
pub open spec fn with_groups(
    sampling: Sampling,
    out: Seq<u16>,
    width: nat,
    groups: Seq<Group>,
) -> Seq<u16>
    decreases groups.len(),
{
    if groups.len() == 0 {
        out
    } else {
        with_group(
            sampling,
            with_groups(sampling, out, width, groups.drop_last()),
            width,
            group_at(sampling, width, groups.len() - 1),
            groups.last(),
        )
    }
}

impl Frame {
    /// Luma and chroma that the group behind `groups` is predicted from: the middle of the range
    /// for the first group, the first pixel of the group above at the start of a row, and the last
    /// pixel of the group to the left elsewhere.
    pub open spec fn group_prediction(self, groups: Seq<Group>, per_row: int) -> (int, int, int) {
        let k = groups.len() as int;
        if k == 0 {
            (self.base() as int, self.base() as int, self.base() as int)
        } else if k % per_row == 0 {
            let above = groups[k - per_row];
            (above.luma[0] as int, above.cb as int, above.cr as int)
        } else {
            let left = groups[k - 1];
            (left.luma.last() as int, left.cb as int, left.cr as int)
        }
    }

    /// A group that is predicted from the given luma and chroma, and the stream behind it.
    pub open spec fn group(self, sampling: Sampling, s: BitStream, from: (int, int, int)) -> Option<
        (Group, BitStream),
    > {
        match differences(self.table(0), s, from.0, sampling.pixels()) {
            None => None,
            Some((luma, behind_luma)) => match self.table(1).decode(behind_luma) {
                None => None,
                Some((cb, behind_cb)) => match self.table(2).decode(behind_cb) {
                    None => None,
                    Some((cr, behind)) => Some(
                        (
                            Group {
                                luma: luma.map_values(|y: int| wrap16(y)),
                                cb: wrap16(from.1 + cb),
                                cr: wrap16(from.2 + cr),
                            },
                            behind,
                        ),
                    ),
                },
            },
        }
    }

    /// Decodes one more group.
    pub open spec fn group_next(self, sampling: Sampling, per_row: int, scan: GroupScan) -> GroupScan {
        if scan.failed {
            scan
        } else {
            match self.group(sampling, scan.stream, self.group_prediction(scan.groups, per_row)) {
                None => GroupScan { failed: true, ..scan },
                Some((group, behind)) => GroupScan {
                    groups: scan.groups.push(group),
                    stream: behind,
                    failed: false,
                },
            }
        }
    }

    /// The scan after `n` groups, or where it failed before.
    pub open spec fn groups_scanned(self, sampling: Sampling, per_row: int, n: nat) -> GroupScan
        decreases n,
    {
        if n == 0 {
            GroupScan {
                groups: seq![],
                stream: BitStream { bytes: unstuffed(self.buffer), pos: 0 },
                failed: false,
            }
        } else {
            self.group_next(sampling, per_row, self.groups_scanned(sampling, per_row, (n - 1) as nat))
        }
    }

    /// A failed scan stays as it is.
    pub proof fn lemma_groups_failed(self, sampling: Sampling, per_row: int, k: nat, n: nat)
        requires
            k <= n,
            self.groups_scanned(sampling, per_row, k).failed,
        ensures
            self.groups_scanned(sampling, per_row, n) == self.groups_scanned(sampling, per_row, k),
        decreases n,
    {
        if k < n {
            self.lemma_groups_failed(sampling, per_row, k, (n - 1) as nat);
        }
    }

    /// The frame has the size of the image, three samples to a pixel.
    pub open spec fn fills(self, width: nat, height: nat) -> bool {
        self.width * 3 == width && self.height == height
    }
}

/// The message for a frame of another size than the image.
pub open spec fn size_message(frame: Frame, width: nat, height: nat) -> Seq<char> {
    "ljpeg: trying to decode "@ + decimal((frame.width * 3) as nat) + "x"@ + decimal(
        frame.height as nat,
    ) + " into "@ + decimal(width) + "x"@ + decimal(height)
}

/// What decoding a subsampled frame makes of an image: the image, and the message if it fails.
/// Groups that were decoded before a failure stay.
pub open spec fn subsampled_result(
    sampling: Sampling,
    frame: Frame,
    out: Seq<u16>,
    width: nat,
    height: nat,
) -> (Seq<u16>, Result<(), Seq<char>>) {
    if !frame.fills(width, height) {
        (out, Err(size_message(frame, width, height)))
    } else {
        let scan = frame.groups_scanned(
            sampling,
            groups_per_row(width) as int,
            group_total(sampling, width, height),
        );
        (
            with_groups(sampling, out, width, scan.groups),
            if scan.failed {
                Err(no_code_message())
            } else {
                Ok(())
            },
        )
    }
}

/// Where the pixels of group number `k` end.
pub open spec fn group_end(sampling: Sampling, width: nat, k: int) -> int {
    group_at(sampling, width, k) + (sampling.rows() - 1) * width + 6
}

/// The image holds every pixel of every group that the scan of a frame of its size gives, and the
/// frame has three components.
pub open spec fn subsampled_fits(
    sampling: Sampling,
    frame: Frame,
    len: nat,
    width: nat,
    height: nat,
) -> bool {
    &&& frame.width * 3 <= usize::MAX
    &&& frame.fills(width, height) ==> {
        let scan = frame.groups_scanned(
            sampling,
            groups_per_row(width) as int,
            group_total(sampling, width, height),
        );
        &&& frame.cps >= 3
        &&& forall|k: int|
            0 <= k < scan.groups.len() ==> #[trigger] group_end(sampling, width, k) <= len
    }
}

/// The number of groups, of the first `n`, before the first one that the image does not hold.
pub open spec fn fitting(sampling: Sampling, width: nat, len: nat, n: nat) -> nat
    decreases n,
{
    if n == 0 {
        0
    } else {
        let before = fitting(sampling, width, len, (n - 1) as nat);
        if before == n - 1 && group_end(sampling, width, n - 1) <= len {
            n
        } else {
            before
        }
    }
}

/// The message for a frame with groups that the image does not hold, or without all components.
pub open spec fn unfit_message() -> Seq<char> {
    "ljpeg: subsampled frame does not fit the destination"@
}

/// [`subsampled_result`], up to the first group that the image does not hold: there the decode ends
/// with a message.
#[verifier::opaque]
pub open spec fn fitted_result(
    sampling: Sampling,
    frame: Frame,
    out: Seq<u16>,
    width: nat,
    height: nat,
) -> (Seq<u16>, Result<(), Seq<char>>) {
    let scan = frame.groups_scanned(
        sampling,
        groups_per_row(width) as int,
        group_total(sampling, width, height),
    );
    let n = fitting(sampling, width, out.len(), scan.groups.len());
    if frame.width * 3 > usize::MAX || frame.fills(width, height) && frame.cps < 3 {
        (out, Err(unfit_message()))
    } else if frame.fills(width, height) && n < scan.groups.len() {
        (with_groups(sampling, out, width, scan.groups.take(n as int)), Err(unfit_message()))
    } else {
        subsampled_result(sampling, frame, out, width, height)
    }
}

/// Groups that the image holds, up to one that it does not hold, are those that fit.
pub proof fn lemma_fitting(sampling: Sampling, width: nat, len: nat, k: nat, n: nat)
    requires
        k <= n,
        forall|j: int| 0 <= j < k ==> #[trigger] group_end(sampling, width, j) <= len,
        k < n ==> group_end(sampling, width, k as int) > len,
    ensures
        fitting(sampling, width, len, n) == k,
    decreases n,
{
    if n > 0 {
        if k == n {
            lemma_fitting(sampling, width, len, (k - 1) as nat, (k - 1) as nat);
        } else {
            lemma_fitting(sampling, width, len, k, (n - 1) as nat);
        }
    }
}

/// The groups that fit lie in the image.
proof fn lemma_fitting_lie_inside(sampling: Sampling, width: nat, len: nat, n: nat)
    ensures
        fitting(sampling, width, len, n) <= n,
        forall|j: int|
            0 <= j < fitting(sampling, width, len, n) ==> #[trigger] group_end(sampling, width, j)
                <= len,
    decreases n,
{
    if n > 0 {
        lemma_fitting_lie_inside(sampling, width, len, (n - 1) as nat);
    }
}

/// The image holds the first `k` groups.
#[verifier::opaque]
pub open spec fn all_fit(sampling: Sampling, width: nat, len: nat, k: int) -> bool {
    forall|j: int| 0 <= j < k ==> #[trigger] group_end(sampling, width, j) <= len
}

/// One more group that the image holds.
pub proof fn lemma_all_fit(sampling: Sampling, width: nat, len: nat, k: int)
    ensures
        all_fit(sampling, width, len, 0),
        k >= 0 && all_fit(sampling, width, len, k) && group_end(sampling, width, k) <= len
            ==> all_fit(sampling, width, len, k + 1),
        k > 0 && all_fit(sampling, width, len, k) ==> group_end(sampling, width, k - 1) <= len,
{
    reveal(all_fit);
}

/// Where a group ends, by its row and column.
pub proof fn lemma_group_end(sampling: Sampling, width: nat, r: int, c: int)
    requires
        0 <= r,
        0 <= c < groups_per_row(width),
    ensures
        group_end(sampling, width, r * groups_per_row(width) + c) == match sampling {
            Sampling::Square => r * 2 * width + 6 * c + width + 6,
            Sampling::Pair => r * width + 6 * c + 6,
        },
{
    lemma_group_at(sampling, width, r, c);
    match sampling {
        Sampling::Square => {
            assert((2 - 1) * width == width);
        },
        Sampling::Pair => {
            assert(r * 1 * width == r * width) by (nonlinear_arith);
            assert((1 - 1) * width == 0) by (nonlinear_arith);
        },
    }
}

/// The start of the group in row `r` and column `c` of the groups.
pub open spec fn start_of(sampling: Sampling, width: nat, r: int, c: int) -> int {
    match sampling {
        Sampling::Square => r * 2 * width + 6 * c,
        Sampling::Pair => r * width + 6 * c,
    }
}

/// The end of the group in row `r` and column `c` of the groups.
pub open spec fn end_of(sampling: Sampling, width: nat, r: int, c: int) -> int {
    match sampling {
        Sampling::Square => start_of(sampling, width, r, c) + width + 6,
        Sampling::Pair => start_of(sampling, width, r, c) + 6,
    }
}

/// A group that is not the first comes next, and the image holds all before it.
pub proof fn lemma_next_group(
    sampling: Sampling,
    width: nat,
    len: nat,
    rows: int,
    r: int,
    c: int,
)
    requires
        0 <= r < rows,
        0 <= c < groups_per_row(width),
        r > 0 || c > 0,
        all_fit(sampling, width, len, r * groups_per_row(width) + c),
    ensures
        ({
            let per_row = groups_per_row(width) as int;
            let k = r * per_row + c;
            &&& 0 < k < rows * per_row
            &&& group_at(sampling, width, k) == start_of(sampling, width, r, c)
            &&& group_end(sampling, width, k) == end_of(sampling, width, r, c)
            &&& c > 0 ==> end_of(sampling, width, r, c - 1) <= len
            &&& c == 0 ==> end_of(sampling, width, r - 1, per_row - 1) <= len
            &&& group_end(sampling, width, k) <= len ==> all_fit(sampling, width, len, k + 1)
        }),
{
    let per_row = groups_per_row(width) as int;
    let k = r * per_row + c;
    assert(0 <= r * per_row && r * per_row + c < rows * per_row) by (nonlinear_arith)
        requires
            0 <= r,
            r + 1 <= rows,
            0 <= c < per_row,
    ;
    assert(r > 0 ==> r * per_row >= per_row) by (nonlinear_arith)
        requires
            per_row >= 1,
    ;
    lemma_all_fit(sampling, width, len, k);
    lemma_group_end(sampling, width, r, c);
    lemma_group_at(sampling, width, r, c);
    assert(r * 1 * width == r * width) by (nonlinear_arith);
    if c > 0 {
        lemma_group_end(sampling, width, r, c - 1);
    } else {
        assert((r - 1) * per_row + per_row - 1 == k - 1) by (nonlinear_arith)
            requires
                k == r * per_row,
        ;
        lemma_group_end(sampling, width, r - 1, per_row - 1);
    }
}

/// The decode of a frame of another size, or without all components.
pub proof fn lemma_stops_at_once(
    sampling: Sampling,
    frame: Frame,
    out: Seq<u16>,
    width: nat,
    height: nat,
)
    ensures
        frame.width * 3 > usize::MAX || frame.fills(width, height) && frame.cps < 3
            ==> fitted_result(sampling, frame, out, width, height) == (
            out,
            Err::<(), Seq<char>>(unfit_message()),
        ),
        frame.width * 3 <= usize::MAX && !frame.fills(width, height) ==> fitted_result(
            sampling,
            frame,
            out,
            width,
            height,
        ) == (out, Err::<(), Seq<char>>(size_message(frame, width, height))),
{
    reveal(fitted_result);
}

/// What was there before a decode has no part in whether it succeeds, nor in its message.
pub proof fn subsampled_decode_has_one_fate(
    sampling: Sampling,
    frame: Frame,
    out: Seq<u16>,
    other: Seq<u16>,
    width: nat,
    height: nat,
)
    requires
        out.len() == other.len(),
    ensures
        fitted_result(sampling, frame, out, width, height).1 == fitted_result(
            sampling,
            frame,
            other,
            width,
            height,
        ).1,
{
    reveal(fitted_result);
}

/// The decode of a frame that reaches group number `k`, which the image does not hold.
pub proof fn lemma_stops_outside(
    sampling: Sampling,
    frame: Frame,
    out: Seq<u16>,
    width: nat,
    height: nat,
    k: nat,
)
    requires
        frame.width * 3 <= usize::MAX,
        frame.fills(width, height),
        frame.cps >= 3,
        k < group_total(sampling, width, height),
        !frame.groups_scanned(sampling, groups_per_row(width) as int, k).failed,
        !frame.groups_scanned(sampling, groups_per_row(width) as int, k + 1).failed,
        all_fit(sampling, width, out.len(), k as int),
        group_end(sampling, width, k as int) > out.len(),
    ensures
        fitted_result(sampling, frame, out, width, height) == (
            with_groups(
                sampling,
                out,
                width,
                frame.groups_scanned(sampling, groups_per_row(width) as int, k).groups,
            ),
            Err::<(), Seq<char>>(unfit_message()),
        ),
{
    reveal(all_fit);
    reveal(fitted_result);
    let per_row = groups_per_row(width) as int;
    let total = group_total(sampling, width, height);
    frame.lemma_groups_prefix(sampling, per_row, k, total);
    frame.lemma_groups_prefix(sampling, per_row, k + 1, total);
    lemma_fitting(
        sampling,
        width,
        out.len(),
        k,
        frame.groups_scanned(sampling, per_row, total).groups.len(),
    );
}

/// The decode of a frame whose scan fails at group number `k`.
pub proof fn lemma_stops_failed(
    sampling: Sampling,
    frame: Frame,
    out: Seq<u16>,
    width: nat,
    height: nat,
    k: nat,
)
    requires
        frame.width * 3 <= usize::MAX,
        frame.fills(width, height),
        frame.cps >= 3,
        k < group_total(sampling, width, height),
        !frame.groups_scanned(sampling, groups_per_row(width) as int, k).failed,
        frame.groups_scanned(sampling, groups_per_row(width) as int, k + 1).failed,
        all_fit(sampling, width, out.len(), k as int),
    ensures
        fitted_result(sampling, frame, out, width, height) == (
            with_groups(
                sampling,
                out,
                width,
                frame.groups_scanned(sampling, groups_per_row(width) as int, k).groups,
            ),
            Err::<(), Seq<char>>(no_code_message()),
        ),
{
    reveal(all_fit);
    reveal(fitted_result);
    let per_row = groups_per_row(width) as int;
    let total = group_total(sampling, width, height);
    frame.lemma_groups_failed(sampling, per_row, k + 1, total);
    frame.lemma_groups_prefix(sampling, per_row, k, k);
    let scan = frame.groups_scanned(sampling, per_row, k);
    assert(frame.groups_scanned(sampling, per_row, ((k + 1) - 1) as nat) == scan);
    lemma_fitting(sampling, width, out.len(), k, k);
}

/// The decode of a frame whose scan the image holds.
pub proof fn lemma_ends(
    sampling: Sampling,
    frame: Frame,
    out: Seq<u16>,
    width: nat,
    height: nat,
)
    requires
        frame.width * 3 <= usize::MAX,
        frame.fills(width, height),
        frame.cps >= 3,
        !frame.groups_scanned(
            sampling,
            groups_per_row(width) as int,
            group_total(sampling, width, height),
        ).failed,
        all_fit(sampling, width, out.len(), group_total(sampling, width, height) as int),
    ensures
        fitted_result(sampling, frame, out, width, height) == (
            with_groups(
                sampling,
                out,
                width,
                frame.groups_scanned(
                    sampling,
                    groups_per_row(width) as int,
                    group_total(sampling, width, height),
                ).groups,
            ),
            Ok::<(), Seq<char>>(()),
        ),
{
    reveal(all_fit);
    reveal(fitted_result);
    let total = group_total(sampling, width, height);
    frame.lemma_groups_prefix(sampling, groups_per_row(width) as int, total, total);
    lemma_fitting(sampling, width, out.len(), total, total);
}

/// A frame that fits is decoded to its end, or to a failure of its scan.
pub proof fn a_frame_that_fits_is_decoded(
    sampling: Sampling,
    frame: Frame,
    out: Seq<u16>,
    width: nat,
    height: nat,
)
    requires
        subsampled_fits(sampling, frame, out.len(), width, height),
    ensures
        fitted_result(sampling, frame, out, width, height) == subsampled_result(
            sampling,
            frame,
            out,
            width,
            height,
        ),
{
    reveal(fitted_result);
    let scan = frame.groups_scanned(
        sampling,
        groups_per_row(width) as int,
        group_total(sampling, width, height),
    );
    if frame.fills(width, height) {
        lemma_fitting(sampling, width, out.len(), scan.groups.len(), scan.groups.len());
    }
}

/// The place of a group by its row and column.
pub proof fn lemma_group_at(sampling: Sampling, width: nat, r: int, c: int)
    requires
        0 <= r,
        0 <= c < groups_per_row(width),
    ensures
        group_at(sampling, width, r * groups_per_row(width) + c) == r * sampling.rows() * width + 6
            * c,
        (r * groups_per_row(width) + c) % groups_per_row(width) as int == c,
{
    let per_row = groups_per_row(width) as int;
    let k = r * per_row + c;
    vstd::arithmetic::div_mod::lemma_fundamental_div_mod_converse(k, per_row, r, c);
    assert(k == 0 ==> r == 0) by (nonlinear_arith)
        requires
            k == r * per_row + c,
            0 <= r,
            0 <= c,
            1 <= per_row,
    ;
    if k == 0 {
        assert(0 * sampling.rows() * width == 0) by (nonlinear_arith);
    }
}

/// A pixel stands at `at`.
pub open spec fn holds_pixel(out: Seq<u16>, at: int, y: u16, cb: u16, cr: u16) -> bool {
    out[at] == y && out[at + 1] == cb && out[at + 2] == cr
}

/// The pixels that the group in row `r` and column `c` of the groups can be predicted from stand
/// in the image.
pub open spec fn holds_neighbours(
    sampling: Sampling,
    out: Seq<u16>,
    width: nat,
    groups: Seq<Group>,
    r: int,
    c: int,
) -> bool {
    let per_row = groups_per_row(width) as int;
    let each = sampling.rows() as int;
    &&& groups.len() == r * per_row + c
    &&& c == 0 && r > 0 ==> {
        let above = groups[(r - 1) * per_row];
        holds_pixel(out, (r - 1) * each * width, above.luma[0], above.cb, above.cr)
    }
    &&& c > 0 ==> {
        let first = groups[r * per_row];
        let left = groups.last();
        &&& holds_pixel(out, r * each * width, first.luma[0], first.cb, first.cr)
        &&& left.luma.len() == sampling.pixels()
        &&& holds_pixel(
            out,
            r * each * width + (each - 1) * width + 6 * c - 3,
            left.luma.last(),
            left.cb,
            left.cr,
        )
    }
}

/// Storing a group keeps the pixels that the groups behind it are predicted from.
pub proof fn lemma_neighbours_kept(
    sampling: Sampling,
    out: Seq<u16>,
    width: nat,
    groups: Seq<Group>,
    r: int,
    c: int,
    group: Group,
)
    requires
        width >= 3,
        0 <= r,
        0 <= c < groups_per_row(width),
        holds_neighbours(sampling, out, width, groups, r, c),
        r * sampling.rows() * width + 6 * c + (sampling.rows() - 1) * width + 6 <= out.len(),
        group.luma.len() == sampling.pixels(),
    ensures
        holds_neighbours(
            sampling,
            with_group(sampling, out, width, r * sampling.rows() * width + 6 * c, group),
            width,
            groups.push(group),
            r,
            c + 1,
        ),
{
    let each = sampling.rows() as int;
    assert(0 <= r * each * width) by (nonlinear_arith)
        requires
            0 <= r,
            0 <= each,
    ;
    assert((each - 1) * width == if each == 2 {
        width as int
    } else {
        0
    }) by (nonlinear_arith)
        requires
            each == 1 || each == 2,
    ;
    let per_row = groups_per_row(width) as int;
    assert(0 <= r * per_row) by (nonlinear_arith)
        requires
            0 <= r,
            0 <= per_row,
    ;
}

/// A place that lies before the end of its row determines the row and the column.
proof fn lemma_same_place(width: int, row1: int, x1: int, row2: int, x2: int)
    requires
        0 <= x1 < width,
        0 <= x2 < width,
        row1 * width + x1 == row2 * width + x2,
    ensures
        row1 == row2,
        x1 == x2,
{
    vstd::arithmetic::div_mod::lemma_fundamental_div_mod_converse(
        row1 * width + x1,
        width,
        row1,
        x1,
    );
    vstd::arithmetic::div_mod::lemma_fundamental_div_mod_converse(
        row1 * width + x1,
        width,
        row2,
        x2,
    );
}

/// A group of the first `rows` rows of groups lies in those rows.
proof fn lemma_group_inside(sampling: Sampling, width: nat, rows: nat, k: int)
    requires
        width % 6 == 0,
        0 <= k < rows * groups_per_row(width),
    ensures
        0 <= group_at(sampling, width, k),
        group_at(sampling, width, k) + (sampling.rows() - 1) * width + 6 <= rows * sampling.rows()
            * width,
{
    let per_row = groups_per_row(width) as int;
    let each = sampling.rows() as int;
    assert(per_row > 0) by (nonlinear_arith)
        requires
            0 < rows * per_row,
            0 <= per_row,
    ;
    let kr = k / per_row;
    let kc = k % per_row;
    assert(width == 6 * per_row);
    vstd::arithmetic::div_mod::lemma_fundamental_div_mod(k, per_row);
    vstd::arithmetic::div_mod::lemma_div_pos_is_pos(k, per_row);
    vstd::arithmetic::mul::lemma_mul_is_commutative(per_row, kr);
    lemma_group_at(sampling, width, kr, kc);
    assert(kr < rows) by (nonlinear_arith)
        requires
            kr * per_row + kc < rows * per_row,
            0 <= kc,
            0 < per_row,
    ;
    assert((kr + 1) * each * width == kr * each * width + each * width) by (nonlinear_arith);
    assert(each * width == (each - 1) * width + width) by (nonlinear_arith);
    assert((kr + 1) * each * width <= rows * each * width && 0 <= kr * each * width)
        by (nonlinear_arith)
        requires
            0 <= kr,
            kr + 1 <= rows,
            each >= 1,
    ;
}

/// Sample `u` of a pixel lies outside every group but its own.
proof fn lemma_elsewhere(sampling: Sampling, width: nat, kr: int, kc: int, r: int, c: int, u: int)
    requires
        width > 0,
        width % 6 == 0,
        0 <= kr,
        0 <= kc < groups_per_row(width),
        0 <= r,
        0 <= c < width / 3,
        0 <= u < 3,
        kr != r / sampling.rows() as int || kc != c / 2,
    ensures
        ({
            let i = r * width + 3 * c + u;
            let start = kr * sampling.rows() * width + 6 * kc;
            &&& !(start <= i < start + 6)
            &&& sampling.rows() == 2 ==> !(start + width <= i < start + width + 6)
        }),
{
    let each = sampling.rows() as int;
    let i = r * width + 3 * c + u;
    let start = kr * each * width + 6 * kc;
    assert(width == 6 * groups_per_row(width));
    assert((kr * each + 1) * width == kr * each * width + width) by (nonlinear_arith);
    if start <= i < start + 6 {
        lemma_same_place(width as int, kr * each, 6 * kc + (i - start), r, 3 * c + u);
        assert(kr == r / each);
    }
    if each == 2 && start + width <= i < start + width + 6 {
        lemma_same_place(width as int, kr * each + 1, 6 * kc + (i - start - width), r, 3 * c + u);
        assert(kr == r / each);
    }
}

/// A group of a whole number of groups per row leaves the pixels of other groups as they are.
proof fn lemma_other_group(
    sampling: Sampling,
    out: Seq<u16>,
    width: nat,
    k: int,
    group: Group,
    r: int,
    c: int,
)
    requires
        width > 0,
        width % 6 == 0,
        0 <= k,
        0 <= r,
        0 <= c < width / 3,
        0 <= group_at(sampling, width, k),
        group_at(sampling, width, k) + (sampling.rows() - 1) * width + 6 <= out.len(),
        r * width + 3 * c + 3 <= out.len(),
        k != (r / sampling.rows() as int) * groups_per_row(width) + c / 2,
    ensures
        ({
            let after = with_group(sampling, out, width, group_at(sampling, width, k), group);
            let at = r * width + 3 * c;
            after[at] == out[at] && after[at + 1] == out[at + 1] && after[at + 2] == out[at + 2]
        }),
{
    let per_row = groups_per_row(width) as int;
    let each = sampling.rows() as int;
    let kr = k / per_row;
    let kc = k % per_row;
    assert(width == 6 * per_row);
    vstd::arithmetic::div_mod::lemma_fundamental_div_mod(k, per_row);
    vstd::arithmetic::div_mod::lemma_div_pos_is_pos(k, per_row);
    vstd::arithmetic::mul::lemma_mul_is_commutative(per_row, kr);
    lemma_group_at(sampling, width, kr, kc);
    let start = group_at(sampling, width, k);
    assert(start == kr * each * width + 6 * kc);
    assert(0 <= r * width) by (nonlinear_arith)
        requires
            0 <= r,
    ;
    assert((each - 1) * width == if each == 2 {
        width as int
    } else {
        0
    }) by (nonlinear_arith)
        requires
            each == 1 || each == 2,
    ;
    lemma_elsewhere(sampling, width, kr, kc, r, c, 0);
    lemma_elsewhere(sampling, width, kr, kc, r, c, 1);
    lemma_elsewhere(sampling, width, kr, kc, r, c, 2);
}

/// A group of a whole number of groups per row stores its own pixels.
proof fn lemma_own_group(
    sampling: Sampling,
    out: Seq<u16>,
    width: nat,
    group: Group,
    r: int,
    c: int,
)
    requires
        width > 0,
        width % 6 == 0,
        0 <= r,
        0 <= c < width / 3,
        ((r / sampling.rows() as int) + 1) * sampling.rows() * width <= out.len(),
    ensures
        ({
            let each = sampling.rows() as int;
            let k = (r / each) * groups_per_row(width) + c / 2;
            holds_pixel(
                with_group(sampling, out, width, group_at(sampling, width, k), group),
                r * width + 3 * c,
                group.luma[2 * (r % each) + c % 2],
                group.cb,
                group.cr,
            )
        }),
{
    let per_row = groups_per_row(width) as int;
    let each = sampling.rows() as int;
    let kr = r / each;
    let kc = c / 2;
    assert(width == 6 * per_row);
    lemma_group_at(sampling, width, kr, kc);
    let start = kr * each * width + 6 * kc;
    assert(0 <= kr * each * width) by (nonlinear_arith)
        requires
            0 <= kr,
            0 <= each,
    ;
    assert((kr + 1) * each * width == kr * each * width + each * width) by (nonlinear_arith);
    assert(r * width == kr * each * width + (r % each) * width) by (nonlinear_arith)
        requires
            r == kr * each + r % each,
    ;
    assert(each * width == if each == 2 {
        2 * width as int
    } else {
        width as int
    }) by (nonlinear_arith)
        requires
            each == 1 || each == 2,
    ;
    assert((r % each) * width == if r % each == 1 {
        width as int
    } else {
        0
    }) by (nonlinear_arith)
        requires
            r % each == 0 || r % each == 1,
    ;
}

/// Storing groups keeps the size of the image.
proof fn lemma_with_groups_len(
    sampling: Sampling,
    out: Seq<u16>,
    width: nat,
    rows: nat,
    groups: Seq<Group>,
)
    requires
        width % 6 == 0,
        rows * sampling.rows() * width <= out.len(),
        groups.len() <= rows * groups_per_row(width),
    ensures
        with_groups(sampling, out, width, groups).len() == out.len(),
    decreases groups.len(),
{
    if groups.len() > 0 {
        lemma_with_groups_len(sampling, out, width, rows, groups.drop_last());
        lemma_group_inside(sampling, width, rows, groups.len() - 1);
        let each = sampling.rows() as int;
        assert((each - 1) * width == if each == 2 {
            width as int
        } else {
            0
        }) by (nonlinear_arith)
            requires
                each == 1 || each == 2,
        ;
    }
}

/// Every pixel of a group that has been stored stays.
proof fn lemma_stored_pixel(
    sampling: Sampling,
    out: Seq<u16>,
    width: nat,
    rows: nat,
    groups: Seq<Group>,
    r: int,
    c: int,
)
    requires
        width > 0,
        width % 6 == 0,
        0 <= r,
        r / sampling.rows() as int + 1 <= rows,
        0 <= c < width / 3,
        (r / sampling.rows() as int) * groups_per_row(width) + c / 2 < groups.len() <= rows
            * groups_per_row(width),
        rows * sampling.rows() * width <= out.len(),
    ensures
        ({
            let each = sampling.rows() as int;
            let group = groups[(r / each) * groups_per_row(width) + c / 2];
            holds_pixel(
                with_groups(sampling, out, width, groups),
                r * width + 3 * c,
                group.luma[2 * (r % each) + c % 2],
                group.cb,
                group.cr,
            )
        }),
    decreases groups.len(),
{
    let each = sampling.rows() as int;
    let k = (r / each) * groups_per_row(width) + c / 2;
    assert(0 <= k) by {
        assert(0 <= (r / each) * groups_per_row(width)) by (nonlinear_arith)
            requires
                0 <= r / each,
        ;
    }
    let before = with_groups(sampling, out, width, groups.drop_last());
    lemma_with_groups_len(sampling, out, width, rows, groups.drop_last());
    assert((r / each + 1) * each * width <= rows * each * width) by (nonlinear_arith)
        requires
            r / each + 1 <= rows,
            each >= 1,
    ;
    if k == groups.len() - 1 {
        lemma_own_group(sampling, before, width, groups.last(), r, c);
    } else {
        lemma_stored_pixel(sampling, out, width, rows, groups.drop_last(), r, c);
        lemma_group_inside(sampling, width, rows, groups.len() - 1);
        assert(r * width + width <= rows * each * width) by (nonlinear_arith)
            requires
                r + 1 <= (r / each + 1) * each,
                r / each + 1 <= rows,
                each >= 1,
        ;
        lemma_other_group(sampling, before, width, groups.len() - 1, groups.last(), r, c);
    }
}

impl Frame {
    proof fn lemma_groups_scanned_len(self, sampling: Sampling, per_row: int, n: nat)
        ensures
            !self.groups_scanned(sampling, per_row, n).failed ==> self.groups_scanned(
                sampling,
                per_row,
                n,
            ).groups.len() == n,
        decreases n,
    {
        if n > 0 {
            self.lemma_groups_scanned_len(sampling, per_row, (n - 1) as nat);
        }
    }
}

/// A decode of a whole number of groups that succeeds gives every pixel the luma that its group
/// has for it, and the chroma of its group.
pub proof fn subsampled_decode_stores_every_pixel(
    sampling: Sampling,
    frame: Frame,
    out: Seq<u16>,
    width: nat,
    height: nat,
    r: int,
    c: int,
)
    requires
        subsampled_result(sampling, frame, out, width, height).1 is Ok,
        width % 6 == 0,
        height % sampling.rows() == 0,
        width * height <= out.len(),
        0 <= r < height,
        0 <= c < width / 3,
    ensures
        ({
            let each = sampling.rows() as int;
            let per_row = groups_per_row(width) as int;
            let total = group_total(sampling, width, height);
            let groups = frame.groups_scanned(sampling, per_row, total).groups;
            let k = (r / each) * per_row + c / 2;
            &&& 0 <= k < groups.len() == total
            &&& holds_pixel(
                subsampled_result(sampling, frame, out, width, height).0,
                r * width + 3 * c,
                groups[k].luma[2 * (r % each) + c % 2],
                groups[k].cb,
                groups[k].cr,
            )
        }),
{
    let each = sampling.rows() as int;
    let per_row = groups_per_row(width) as int;
    let total = group_total(sampling, width, height);
    let groups = frame.groups_scanned(sampling, per_row, total).groups;
    let rows = sampling.group_rows(height) as int;
    frame.lemma_groups_scanned_len(sampling, per_row, total);
    assert(height == rows * each && r / each < rows && per_row >= 1 && c / 2 < per_row);
    assert(rows * per_row >= 1) by (nonlinear_arith)
        requires
            rows >= 1,
            per_row >= 1,
    ;
    assert((r / each) * per_row + c / 2 < rows * per_row && 0 <= (r / each) * per_row)
        by (nonlinear_arith)
        requires
            0 <= r / each < rows,
            0 <= c / 2 < per_row,
    ;
    assert(rows * each * width == width * height) by (nonlinear_arith)
        requires
            height == rows * each,
    ;
    lemma_stored_pixel(sampling, out, width, rows as nat, groups, r, c);
}

/// Groups that the image holds keep its size.
proof fn lemma_fitting_groups_len(
    sampling: Sampling,
    out: Seq<u16>,
    width: nat,
    groups: Seq<Group>,
)
    requires
        width > 0 || groups.len() <= 1,
        forall|k: int|
            0 <= k < groups.len() ==> #[trigger] group_end(sampling, width, k) <= out.len(),
    ensures
        with_groups(sampling, out, width, groups).len() == out.len(),
    decreases groups.len(),
{
    if groups.len() > 0 {
        lemma_fitting_groups_len(sampling, out, width, groups.drop_last());
        let k = groups.len() - 1;
        let per_row = groups_per_row(width) as int;
        assert(group_end(sampling, width, k) <= out.len());
        if k > 0 {
            let r = k / per_row;
            vstd::arithmetic::div_mod::lemma_div_pos_is_pos(k, per_row);
            assert(0 <= r * sampling.rows() * width) by (nonlinear_arith)
                requires
                    0 <= r,
            ;
        }
        assert((sampling.rows() - 1) * width == match sampling {
            Sampling::Square => width as int,
            Sampling::Pair => 0,
        }) by (nonlinear_arith)
            requires
                sampling.rows() == match sampling {
                    Sampling::Square => 2nat,
                    Sampling::Pair => 1,
                },
        ;
    }
}

/// Decoding a subsampled frame keeps the size of the image.
pub proof fn subsampled_decode_keeps_the_size(
    sampling: Sampling,
    frame: Frame,
    out: Seq<u16>,
    width: nat,
    height: nat,
)
    ensures
        fitted_result(sampling, frame, out, width, height).0.len() == out.len(),
{
    reveal(fitted_result);
    let groups = frame.groups_scanned(
        sampling,
        groups_per_row(width) as int,
        group_total(sampling, width, height),
    ).groups;
    let n = fitting(sampling, width, out.len(), groups.len());
    let rows = sampling.group_rows(height);
    assert(rows * 0 == 0) by (nonlinear_arith);
    frame.lemma_groups_scanned_most(
        sampling,
        groups_per_row(width) as int,
        group_total(sampling, width, height),
    );
    lemma_fitting_lie_inside(sampling, width, out.len(), groups.len());
    lemma_fitting_groups_len(sampling, out, width, groups.take(n as int));
    assert(n == groups.len() ==> groups.take(n as int) =~= groups);
}

impl Frame {
    proof fn lemma_groups_scanned_most(self, sampling: Sampling, per_row: int, n: nat)
        ensures
            self.groups_scanned(sampling, per_row, n).groups.len() <= n,
        decreases n,
    {
        if n > 0 {
            self.lemma_groups_scanned_most(sampling, per_row, (n - 1) as nat);
        }
    }

    /// What has been decoded stays when more is.
    pub proof fn lemma_groups_prefix(self, sampling: Sampling, per_row: int, k: nat, n: nat)
        requires
            k <= n,
            !self.groups_scanned(sampling, per_row, k).failed,
        ensures
            ({
                let first = self.groups_scanned(sampling, per_row, k).groups;
                let groups = self.groups_scanned(sampling, per_row, n).groups;
                &&& first.len() == k
                &&& k <= groups.len()
                &&& groups.take(k as int) == first
            }),
        decreases n,
    {
        self.lemma_groups_scanned_len(sampling, per_row, k);
        let first = self.groups_scanned(sampling, per_row, k).groups;
        if k < n {
            self.lemma_groups_prefix(sampling, per_row, k, (n - 1) as nat);
            let before = self.groups_scanned(sampling, per_row, (n - 1) as nat).groups;
            let groups = self.groups_scanned(sampling, per_row, n).groups;
            assert(groups.take(k as int) =~= before.take(k as int));
        } else {
            assert(first.take(k as int) =~= first);
        }
    }
}

} // verus!
