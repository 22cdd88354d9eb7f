//! What decoding a subsampled scan gives back of the pixels that were written.
use vstd::prelude::*;
use vstd::arithmetic::power2::pow2;
use crate::bits::{unstuffed, BitStream};
use crate::ljpeg::frame::Frame;
use crate::ljpeg::yuv::{a_frame_that_fits_is_decoded, differences, group_at, group_end,
    group_total, groups_per_row, lemma_group_end, subsampled_decode_stores_every_pixel,
    subsampled_fits, subsampled_result, with_group, with_groups, wrap16, Group, Sampling};
use crate::region::Region;

verus! {

/// The pixels of a picture: luma for each of them, and two chroma samples for each group.
pub struct Pixels {
    pub luma: spec_fn(int, int) -> int,
    pub cb: spec_fn(int, int) -> int,
    pub cr: spec_fn(int, int) -> int,
}

/// The rows of pixels that a group covers.
pub open spec fn rows_together(sampling: Sampling) -> int {
    match sampling {
        Sampling::Square => 2,
        Sampling::Pair => 1,
    }
}

/// The luma of pixel number `m` of the group in a row and a column of groups: two pixels side by
/// side, and two below them where a group covers two rows.
pub open spec fn luma_in_group(
    pixels: Pixels,
    sampling: Sampling,
    row: int,
    col: int,
    m: int,
) -> int {
    (pixels.luma)(rows_together(sampling) * row + m / 2, 2 * col + m % 2)
}

/// What the first luma of a group is predicted from: the middle of the range at the start, the first
/// pixel of the group above at the start of a row, and the last pixel of the group to the left
/// elsewhere.
pub open spec fn luma_prediction(
    frame: Frame,
    pixels: Pixels,
    sampling: Sampling,
    row: int,
    col: int,
) -> int {
    if row == 0 && col == 0 {
        pow2((frame.precision - frame.point_transform - 1) as nat) as int
    } else if col == 0 {
        (pixels.luma)(rows_together(sampling) * (row - 1), 0)
    } else {
        (pixels.luma)(rows_together(sampling) * row + rows_together(sampling) - 1, 2 * col - 1)
    }
}

/// What a chroma sample of a group is predicted from: that of the group above at the start of a row,
/// and that of the group to the left elsewhere.
pub open spec fn chroma_prediction(
    frame: Frame,
    chroma: spec_fn(int, int) -> int,
    row: int,
    col: int,
) -> int {
    if row == 0 && col == 0 {
        pow2((frame.precision - frame.point_transform - 1) as nat) as int
    } else if col == 0 {
        chroma(row - 1, 0)
    } else {
        chroma(row, col - 1)
    }
}

/// The scan of a frame, from a bit on, is a difference in the code of a component, up to another bit.
pub open spec fn holds_difference(
    frame: Frame,
    component: int,
    from: nat,
    difference: int,
    to: nat,
) -> bool {
    let bytes = unstuffed(frame.buffer);
    let code = frame.dhts[frame.components[component].dc_tbl_num as int];
    code.decode(BitStream { bytes, pos: from }) == Some((difference, BitStream { bytes, pos: to }))
}

pub open spec fn is_sample(n: int) -> bool {
    0 <= n <= 65535
}

/// The scan of a frame holds the group in a row and a column of groups: the luma of its pixels, each
/// from the one before it, then the two chroma samples. Difference number `m` of group number `k`
/// starts at bit `bits(k, m)`.
pub open spec fn scan_holds_group(
    frame: Frame,
    sampling: Sampling,
    pixels: Pixels,
    bits: spec_fn(int, int) -> nat,
    per_row: int,
    row: int,
    col: int,
) -> bool {
    let k = row * per_row + col;
    let n = 2 * rows_together(sampling);
    let first = luma_in_group(pixels, sampling, row, col, 0);
    let second = luma_in_group(pixels, sampling, row, col, 1);
    let third = luma_in_group(pixels, sampling, row, col, 2);
    let fourth = luma_in_group(pixels, sampling, row, col, 3);
    let cb = (pixels.cb)(row, col);
    let cr = (pixels.cr)(row, col);
    &&& is_sample(first) && is_sample(second) && is_sample(cb) && is_sample(cr)
    &&& holds_difference(
        frame,
        0,
        bits(k, 0),
        first - luma_prediction(frame, pixels, sampling, row, col),
        bits(k, 1),
    )
    &&& holds_difference(frame, 0, bits(k, 1), second - first, bits(k, 2))
    &&& sampling == Sampling::Square ==> {
        &&& is_sample(third) && is_sample(fourth)
        &&& holds_difference(frame, 0, bits(k, 2), third - second, bits(k, 3))
        &&& holds_difference(frame, 0, bits(k, 3), fourth - third, bits(k, 4))
    }
    &&& holds_difference(
        frame,
        1,
        bits(k, n),
        cb - chroma_prediction(frame, pixels.cb, row, col),
        bits(k, n + 1),
    )
    &&& holds_difference(
        frame,
        2,
        bits(k, n + 1),
        cr - chroma_prediction(frame, pixels.cr, row, col),
        bits(k + 1, 0),
    )
}

/// The group is the one in a row and a column of groups.
spec fn is_group(group: Group, sampling: Sampling, pixels: Pixels, row: int, col: int) -> bool {
    &&& group.luma.len() == 2 * rows_together(sampling)
    &&& group.luma[0] == luma_in_group(pixels, sampling, row, col, 0)
    &&& group.luma[1] == luma_in_group(pixels, sampling, row, col, 1)
    &&& sampling == Sampling::Square ==> group.luma[2] == luma_in_group(
        pixels,
        sampling,
        row,
        col,
        2,
    ) && group.luma[3] == luma_in_group(pixels, sampling, row, col, 3)
    &&& group.cb == (pixels.cb)(row, col)
    &&& group.cr == (pixels.cr)(row, col)
}

/// Groups have come out of the scan as they were written.
spec fn groups_came_out(
    frame: Frame,
    sampling: Sampling,
    pixels: Pixels,
    bits: spec_fn(int, int) -> nat,
    per_row: int,
    n: nat,
) -> bool {
    let scan = frame.groups_scanned(sampling, per_row, n);
    &&& !scan.failed
    &&& scan.groups.len() == n
    &&& scan.stream == (BitStream { bytes: unstuffed(frame.buffer), pos: bits(n as int, 0) })
    &&& forall|k: int|
        0 <= k < n ==> is_group(
            #[trigger] scan.groups[k],
            sampling,
            pixels,
            k / per_row,
            k % per_row,
        )
}

/// A frame whose scan was written from pixels, in rows of groups.
pub open spec fn is_written_in_groups(
    frame: Frame,
    sampling: Sampling,
    pixels: Pixels,
    bits: spec_fn(int, int) -> nat,
    per_row: int,
    rows: int,
) -> bool {
    &&& frame.wf()
    &&& 3 <= frame.cps
    &&& bits(0, 0) == 0
    &&& forall|row: int, col: int|
        0 <= row < rows && 0 <= col < per_row ==> #[trigger] scan_holds_group(
            frame,
            sampling,
            pixels,
            bits,
            per_row,
            row,
            col,
        )
}

proof fn lemma_middle(frame: Frame)
    requires
        frame.wf(),
    ensures
        frame.base() == pow2((frame.precision - frame.point_transform - 1) as nat),
{
    let bits = (frame.precision - frame.point_transform - 1) as nat;
    vstd::arithmetic::power2::lemma2_to64();
    if bits < 15 {
        vstd::arithmetic::power2::lemma_pow2_strictly_increases(bits, 15);
    }
}

proof fn lemma_luma(
    frame: Frame,
    sampling: Sampling,
    pixels: Pixels,
    bits: spec_fn(int, int) -> nat,
    per_row: int,
    row: int,
    col: int,
)
    requires
        scan_holds_group(frame, sampling, pixels, bits, per_row, row, col),
    ensures
        ({
            let k = row * per_row + col;
            let bytes = unstuffed(frame.buffer);
            let n = 2 * rows_together(sampling);
            let found = differences(
                frame.table(0),
                BitStream { bytes, pos: bits(k, 0) },
                luma_prediction(frame, pixels, sampling, row, col),
                n as nat,
            );
            &&& found matches Some((numbers, rest)) && rest == (BitStream { bytes, pos: bits(k, n) })
                && numbers.len() == n && forall|m: int|
                0 <= m < n ==> #[trigger] numbers[m] == luma_in_group(pixels, sampling, row, col, m)
        }),
{
    let k = row * per_row + col;
    let start = luma_prediction(frame, pixels, sampling, row, col);
    let s = BitStream { bytes: unstuffed(frame.buffer), pos: bits(k, 0) };
    let code = frame.table(0);
    assert(differences(code, s, start, 0) == Some((Seq::<int>::empty(), s)));
    let one = differences(code, s, start, 1);
    assert(one is Some && (one->0).0 =~= seq![luma_in_group(pixels, sampling, row, col, 0)]);
    let two = differences(code, s, start, 2);
    assert(two is Some && (two->0).0 =~= seq![
        luma_in_group(pixels, sampling, row, col, 0),
        luma_in_group(pixels, sampling, row, col, 1),
    ]);
    if sampling == Sampling::Square {
        let three = differences(code, s, start, 3);
        assert(three is Some && (three->0).0 =~= seq![
            luma_in_group(pixels, sampling, row, col, 0),
            luma_in_group(pixels, sampling, row, col, 1),
            luma_in_group(pixels, sampling, row, col, 2),
        ]);
        let four = differences(code, s, start, 4);
        assert(four is Some && (four->0).0 =~= seq![
            luma_in_group(pixels, sampling, row, col, 0),
            luma_in_group(pixels, sampling, row, col, 1),
            luma_in_group(pixels, sampling, row, col, 2),
            luma_in_group(pixels, sampling, row, col, 3),
        ]);
    }
}

/// What the next group is predicted from.
proof fn lemma_group_prediction(
    frame: Frame,
    sampling: Sampling,
    pixels: Pixels,
    bits: spec_fn(int, int) -> nat,
    per_row: int,
    row: int,
    col: int,
)
    requires
        frame.wf(),
        0 <= row,
        0 <= col < per_row,
        groups_came_out(frame, sampling, pixels, bits, per_row, (row * per_row + col) as nat),
        0 <= row * per_row,
    ensures
        frame.group_prediction(
            frame.groups_scanned(sampling, per_row, (row * per_row + col) as nat).groups,
            per_row,
        ) == (
            luma_prediction(frame, pixels, sampling, row, col),
            chroma_prediction(frame, pixels.cb, row, col),
            chroma_prediction(frame, pixels.cr, row, col),
        ),
{
    let k = row * per_row + col;
    let groups = frame.groups_scanned(sampling, per_row, k as nat).groups;
    lemma_middle(frame);
    vstd::arithmetic::div_mod::lemma_fundamental_div_mod_converse(k, per_row, row, col);
    if row == 0 && col == 0 {
        assert(k == 0);
    } else if col == 0 {
        assert(row >= 1);
        assert((row - 1) * per_row == row * per_row - per_row) by (nonlinear_arith);
        assert(0 <= (row - 1) * per_row) by (nonlinear_arith)
            requires
                row >= 1,
                per_row >= 1,
        ;
        vstd::arithmetic::div_mod::lemma_fundamental_div_mod_converse(
            k - per_row,
            per_row,
            row - 1,
            0,
        );
        let above = groups[k - per_row];
        assert(above.luma[0] == luma_in_group(pixels, sampling, row - 1, 0, 0));
    } else {
        vstd::arithmetic::div_mod::lemma_fundamental_div_mod_converse(
            k - 1,
            per_row,
            row,
            col - 1,
        );
        let left = groups[k - 1];
        assert(left.luma.last() == luma_in_group(
            pixels,
            sampling,
            row,
            col - 1,
            2 * rows_together(sampling) - 1,
        ));
    }
}

/// The group that the scan holds next.
proof fn lemma_group_found(
    frame: Frame,
    sampling: Sampling,
    pixels: Pixels,
    bits: spec_fn(int, int) -> nat,
    per_row: int,
    row: int,
    col: int,
)
    requires
        scan_holds_group(frame, sampling, pixels, bits, per_row, row, col),
    ensures
        ({
            let k = row * per_row + col;
            let bytes = unstuffed(frame.buffer);
            let found = frame.group(
                sampling,
                BitStream { bytes, pos: bits(k, 0) },
                (
                    luma_prediction(frame, pixels, sampling, row, col),
                    chroma_prediction(frame, pixels.cb, row, col),
                    chroma_prediction(frame, pixels.cr, row, col),
                ),
            );
            &&& found is Some
            &&& is_group((found->0).0, sampling, pixels, row, col)
            &&& (found->0).1 == (BitStream { bytes, pos: bits(k + 1, 0) })
        }),
{
    let k = row * per_row + col;
    let n = 2 * rows_together(sampling);
    let bytes = unstuffed(frame.buffer);
    lemma_luma(frame, sampling, pixels, bits, per_row, row, col);
    let s = BitStream { bytes, pos: bits(k, 0) };
    let from = (
        luma_prediction(frame, pixels, sampling, row, col),
        chroma_prediction(frame, pixels.cb, row, col),
        chroma_prediction(frame, pixels.cr, row, col),
    );
    let found = differences(frame.table(0), s, from.0, n as nat);
    let numbers = (found->0).0;
    assert(sampling.pixels() == n);
    assert(frame.table(1).decode(BitStream { bytes, pos: bits(k, n) }) == Some(
        ((pixels.cb)(row, col) - from.1, BitStream { bytes, pos: bits(k, n + 1) }),
    ));
    assert(frame.table(2).decode(BitStream { bytes, pos: bits(k, n + 1) }) == Some(
        ((pixels.cr)(row, col) - from.2, BitStream { bytes, pos: bits(k + 1, 0) }),
    ));
    assert(frame.group(sampling, s, from) == Some(
        (
            Group {
                luma: numbers.map_values(|y: int| wrap16(y)),
                cb: wrap16(from.1 + ((pixels.cb)(row, col) - from.1)),
                cr: wrap16(from.2 + ((pixels.cr)(row, col) - from.2)),
            },
            BitStream { bytes, pos: bits(k + 1, 0) },
        ),
    ));
    lemma_wraps((pixels.cb)(row, col));
    lemma_wraps((pixels.cr)(row, col));
    lemma_wraps(numbers[0]);
    lemma_wraps(numbers[1]);
    assert(numbers[0] == luma_in_group(pixels, sampling, row, col, 0));
    assert(numbers[1] == luma_in_group(pixels, sampling, row, col, 1));
    if sampling == Sampling::Square {
        lemma_wraps(numbers[2]);
        lemma_wraps(numbers[3]);
        assert(numbers[2] == luma_in_group(pixels, sampling, row, col, 2));
        assert(numbers[3] == luma_in_group(pixels, sampling, row, col, 3));
    }
}

proof fn lemma_wraps(n: int)
    ensures
        is_sample(n) ==> wrap16(n) == n,
{
}

proof fn lemma_groups_came_out(
    frame: Frame,
    sampling: Sampling,
    pixels: Pixels,
    bits: spec_fn(int, int) -> nat,
    per_row: int,
    rows: int,
    n: nat,
)
    requires
        is_written_in_groups(frame, sampling, pixels, bits, per_row, rows),
        1 <= per_row,
        n <= rows * per_row,
    ensures
        groups_came_out(frame, sampling, pixels, bits, per_row, n),
    decreases n,
{
    if n > 0 {
        let m = (n - 1) as nat;
        lemma_groups_came_out(frame, sampling, pixels, bits, per_row, rows, m);
        let row = m as int / per_row;
        let col = m as int % per_row;
        vstd::arithmetic::div_mod::lemma_fundamental_div_mod(m as int, per_row);
        vstd::arithmetic::div_mod::lemma_div_pos_is_pos(m as int, per_row);
        assert(per_row * row == row * per_row) by (nonlinear_arith);
        assert(0 <= row * per_row) by (nonlinear_arith)
            requires
                0 <= row,
                1 <= per_row,
        ;
        assert(row < rows) by (nonlinear_arith)
            requires
                row * per_row <= m,
                m < rows * per_row,
                1 <= per_row,
        ;
        assert(scan_holds_group(frame, sampling, pixels, bits, per_row, row, col));
        lemma_group_prediction(frame, sampling, pixels, bits, per_row, row, col);
        lemma_group_found(frame, sampling, pixels, bits, per_row, row, col);
        let before = frame.groups_scanned(sampling, per_row, m);
        let scan = frame.groups_scanned(sampling, per_row, n);
        let from = frame.group_prediction(before.groups, per_row);
        let (group, behind) = frame.group(sampling, before.stream, from)->0;
        assert(scan == frame.group_next(sampling, per_row, before));
        assert(scan.groups =~= before.groups.push(group));
        assert forall|k: int| 0 <= k < n implies is_group(
            #[trigger] scan.groups[k],
            sampling,
            pixels,
            k / per_row,
            k % per_row,
        ) by {
            if k < m {
                assert(scan.groups[k] == before.groups[k]);
            }
        }
    }
}

proof fn lemma_group_ends_inside(sampling: Sampling, width: nat, height: nat, k: int)
    requires
        width >= 6,
        width as int % 6 == 0,
        height >= 1,
        height as int % rows_together(sampling) == 0,
        0 <= k < (height as int / rows_together(sampling)) * (width as int / 6),
    ensures
        group_end(sampling, width, k) <= width * height,
{
    let per_row = width as int / 6;
    let rows = height as int / rows_together(sampling);
    assert(groups_per_row(width) == per_row);
    let r = k / per_row;
    let c = k % per_row;
    vstd::arithmetic::div_mod::lemma_fundamental_div_mod(k, per_row);
    vstd::arithmetic::div_mod::lemma_div_pos_is_pos(k, per_row);
    assert(per_row * r == r * per_row) by (nonlinear_arith);
    assert(r < rows) by (nonlinear_arith)
        requires
            r * per_row <= k,
            k < rows * per_row,
            1 <= per_row,
    ;
    lemma_group_end(sampling, width, r, c);
    assert(6 * c + 6 <= width);
    match sampling {
        Sampling::Square => {
            assert(r * 2 * width + 2 * width <= width * height) by (nonlinear_arith)
                requires
                    2 * r + 2 <= height,
                    0 <= width,
            ;
        },
        Sampling::Pair => {
            assert(r * width + width <= width * height) by (nonlinear_arith)
                requires
                    r + 1 <= height,
                    0 <= width,
            ;
        },
    }
}

/// A subsampled lossless JPEG file whose scan was written from pixels gives back every pixel: luma
/// and the two chroma samples of its group, three samples to a pixel, from the start of the image
/// on. The sampling factors of the first component say whether a group is two pixels wide and high,
/// or two pixels wide.
#[verifier::spinoff_prover]
pub proof fn subsampled_decoding_gives_back_the_pixels(
    frame: Frame,
    sampling: Sampling,
    pixels: Pixels,
    bits: spec_fn(int, int) -> nat,
    out: Seq<u16>,
    region: Region,
)
    requires
        frame.components[0].super_h == 2,
        frame.components[0].super_v == rows_together(sampling),
        frame.width >= 2,
        frame.width as int % 2 == 0,
        frame.height >= 1,
        frame.height as int % rows_together(sampling) == 0,
        frame.width * 3 <= usize::MAX,
        is_written_in_groups(
            frame,
            sampling,
            pixels,
            bits,
            frame.width as int / 2,
            frame.height as int / rows_together(sampling),
        ),
        region.width == 3 * frame.width,
        region.height == frame.height,
        region.width * region.height <= out.len(),
    ensures
        ({
            let (image, res) = frame.decoded(out, region);
            &&& res is Ok
            &&& forall|r: int, c: int|
                0 <= r < frame.height && 0 <= c < frame.width ==> {
                    let at = r * region.width + 3 * c;
                    &&& image[at] == #[trigger] (pixels.luma)(r, c)
                    &&& image[at + 1] == (pixels.cb)(r / rows_together(sampling), c / 2)
                    &&& image[at + 2] == (pixels.cr)(r / rows_together(sampling), c / 2)
                }
        }),
{
    let width = region.width;
    let height = region.height;
    let per_row = frame.width as int / 2;
    let each = rows_together(sampling);
    let rows = height as int / each;
    assert(groups_per_row(width) == per_row);
    assert(sampling.rows() == each);
    assert(sampling.group_rows(height) == rows);
    assert(rows * per_row >= 1) by (nonlinear_arith)
        requires
            rows >= 1,
            per_row >= 1,
    ;
    let total = group_total(sampling, width, height);
    assert(total == rows * per_row);
    lemma_groups_came_out(frame, sampling, pixels, bits, per_row, rows, total);
    let scan = frame.groups_scanned(sampling, per_row, total);
    assert forall|k: int| 0 <= k < scan.groups.len() implies #[trigger] group_end(sampling, width, k)
        <= out.len() by {
        lemma_group_ends_inside(sampling, width, height, k);
    }
    assert(frame.fills(width, height));
    assert(subsampled_fits(sampling, frame, out.len(), width, height));
    a_frame_that_fits_is_decoded(sampling, frame, out, width, height);
    let image = subsampled_result(sampling, frame, out, width, height).0;
    assert forall|r: int, c: int| 0 <= r < frame.height && 0 <= c < frame.width implies {
        let at = r * region.width + 3 * c;
        &&& image[at] == #[trigger] (pixels.luma)(r, c)
        &&& image[at + 1] == (pixels.cb)(r / each, c / 2)
        &&& image[at + 2] == (pixels.cr)(r / each, c / 2)
    } by {
        subsampled_decode_stores_every_pixel(sampling, frame, out, width, height, r, c);
        let k = (r / each) * per_row + c / 2;
        vstd::arithmetic::div_mod::lemma_fundamental_div_mod_converse(k, per_row, r / each, c / 2);
        let m = 2 * (r % each) + c % 2;
        assert(each * (r / each) + m / 2 == r);
        assert(2 * (c / 2) + m % 2 == c);
        let group = scan.groups[k];
        assert(m == 0 || m == 1 || m == 2 || m == 3);
    }
}

/// Every group stands where its turn is: rows of groups follow each other, a group is two pixels wide,
/// and what it does not cover stays as it was.
pub proof fn groups_are_placed_in_turn(
    sampling: Sampling,
    out: Seq<u16>,
    width: nat,
    groups: Seq<Group>,
    group: Group,
)
    requires
        width >= 6,
        group.luma.len() == 2 * rows_together(sampling),
        ({
            let per_row = (width as int + 5) / 6;
            let k = groups.len() as int;
            (k / per_row) * rows_together(sampling) * width + 6 * (k % per_row) + (rows_together(
                sampling,
            ) - 1) * width + 6 <= out.len()
        }),
        with_groups(sampling, out, width, groups).len() == out.len(),
    ensures
        ({
            let before = with_groups(sampling, out, width, groups);
            let after = with_groups(sampling, out, width, groups.push(group));
            let per_row = (width as int + 5) / 6;
            let k = groups.len() as int;
            let at = (k / per_row) * rows_together(sampling) * width + 6 * (k % per_row);
            &&& after.len() == out.len()
            &&& after[at] == group.luma[0] && after[at + 3] == group.luma[1]
            &&& after[at + 1] == group.cb && after[at + 4] == group.cb
            &&& after[at + 2] == group.cr && after[at + 5] == group.cr
            &&& sampling == Sampling::Square ==> {
                let below = at + width;
                &&& after[below] == group.luma[2] && after[below + 3] == group.luma[3]
                &&& after[below + 1] == group.cb && after[below + 4] == group.cb
                &&& after[below + 2] == group.cr && after[below + 5] == group.cr
            }
            &&& forall|i: int|
                0 <= i < out.len() && !(at <= i < at + 6) && !(sampling == Sampling::Square && at + width
                    <= i < at + width + 6) ==> #[trigger] after[i] == before[i]
        }),
{
    let k = groups.len() as int;
    let per_row = (width as int + 5) / 6;
    assert(groups_per_row(width) == per_row);
    assert(groups.push(group).drop_last() =~= groups);
    vstd::arithmetic::div_mod::lemma_div_pos_is_pos(k, per_row);
    let each = rows_together(sampling);
    assert(0 <= (k / per_row) * each * width) by (nonlinear_arith)
        requires
            0 <= k / per_row,
            1 <= each,
            0 <= width,
    ;
    if k == 0 {
        assert(0int / per_row == 0 && 0int % per_row == 0) by {
            vstd::arithmetic::div_mod::lemma_small_mod(0, per_row as nat);
            vstd::arithmetic::div_mod::lemma_basic_div(0, per_row);
        }
        assert(0 * each * width == 0) by (nonlinear_arith);
    }
    assert(sampling.rows() == each);
    let at = (k / per_row) * each * width + 6 * (k % per_row);
    assert(0 <= k % per_row < per_row);
    assert(group_at(sampling, width, k) == at);
    let before = with_groups(sampling, out, width, groups);
    let after = with_groups(sampling, out, width, groups.push(group));
    assert(after == with_group(sampling, before, width, at, group));
    match sampling {
        Sampling::Pair => {
            assert((each - 1) * width == 0) by (nonlinear_arith)
                requires
                    each == 1,
            ;
        },
        Sampling::Square => {
            assert((each - 1) * width == width) by (nonlinear_arith)
                requires
                    each == 2,
            ;
        },
    }
}

/// A frame of three samples to a pixel has as many groups as it takes to cover it; it is decoded if
/// they all can be, and no frame of another size is.
pub proof fn frames_have_as_many_groups_as_cover_them(
    sampling: Sampling,
    frame: Frame,
    out: Seq<u16>,
    width: nat,
    height: nat,
)
    requires
        width >= 1,
        height >= 1,
    ensures
        ({
            let per_row = (width as int + 5) / 6;
            let rows = (height + rows_together(sampling) - 1) / rows_together(sampling);
            let scan = frame.groups_scanned(sampling, per_row, (rows * per_row) as nat);
            &&& subsampled_result(sampling, frame, out, width, height).1 is Ok <==> frame.width * 3
                == width && frame.height == height && !scan.failed
            &&& frame.width * 3 == width && frame.height == height ==> subsampled_result(
                sampling,
                frame,
                out,
                width,
                height,
            ).0 == with_groups(sampling, out, width, scan.groups)
        }),
{
    let per_row = (width as int + 5) / 6;
    let rows = (height + rows_together(sampling) - 1) / rows_together(sampling);
    assert(sampling.rows() == rows_together(sampling));
    match sampling {
        Sampling::Pair => {
            assert(rows == height / 1);
        },
        Sampling::Square => {
            assert(rows == (height + 1) / 2);
        },
    }
    assert(rows * per_row >= 1) by (nonlinear_arith)
        requires
            rows >= 1,
            per_row >= 1,
    ;
}

} // verus!
