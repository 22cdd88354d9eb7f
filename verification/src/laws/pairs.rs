//! What decoding samples in pairs gives back of what was written.
use vstd::prelude::*;
use crate::bits::{unstuffed, words_reversed, BitStream};
use crate::laws::huffman::{differences_are_read_back, is_difference};
use crate::ljpeg::frame::Frame;
use crate::ljpeg::huffman::HuffCode;
use crate::ljpeg::pairs::{hasselblad_decode_stores_every_sample, hasselblad_result, interleaved_pair,
    strip_decode_stores_every_sample, strip_next, strip_pairs_per_row, strip_prediction, strip_result,
    strip_scanned, strip_total, with_strip_pairs};
use crate::ljpeg::yuv::wrap16;
use crate::region::Region;

verus! {

/// The data of a strip holds the pair of samples in a row and a column of pairs: two differences,
/// each in its own code, from the pair to the left, from the first pair of the row above at the
/// start of a row, and from a given number at the start of all. Difference number `m` of pair number
/// `k` starts at bit `bits(k, m)`.
pub open spec fn strip_holds_pair(
    src: Seq<u8>,
    code1: HuffCode,
    code2: HuffCode,
    bpred: int,
    samples: spec_fn(int, int) -> int,
    bits: spec_fn(int, int) -> nat,
    per_row: int,
    row: int,
    col: int,
) -> bool {
    let k = row * per_row + col;
    let bytes = unstuffed(src);
    let first = samples(row, 2 * col);
    let second = samples(row, 2 * col + 1);
    let from = if row == 0 && col == 0 {
        (bpred, bpred)
    } else if col == 0 {
        (samples(row - 1, 0), samples(row - 1, 1))
    } else {
        (samples(row, 2 * col - 2), samples(row, 2 * col - 1))
    };
    &&& 0 <= first <= 65535
    &&& 0 <= second <= 65535
    &&& code1.decode(BitStream { bytes, pos: bits(k, 0) }) == Some(
        (first - from.0, BitStream { bytes, pos: bits(k, 1) }),
    )
    &&& code2.decode(BitStream { bytes, pos: bits(k, 1) }) == Some(
        (second - from.1, BitStream { bytes, pos: bits(k + 1, 0) }),
    )
}

/// Pairs have come out as they were written.
spec fn pairs_came_out(
    pairs: Seq<(u16, u16)>,
    samples: spec_fn(int, int) -> int,
    per_row: int,
    n: nat,
) -> bool {
    &&& pairs.len() == n
    &&& forall|k: int|
        0 <= k < n ==> #[trigger] pairs[k] == (
            samples(k / per_row, 2 * (k % per_row)) as u16,
            samples(k / per_row, 2 * (k % per_row) + 1) as u16,
        )
}

proof fn lemma_pair_place(per_row: int, rows: int, k: int)
    requires
        1 <= per_row,
        0 <= k < rows * per_row,
    ensures
        0 <= k / per_row < rows,
        0 <= k % per_row < per_row,
        k == (k / per_row) * per_row + k % per_row,
        0 <= (k / per_row) * per_row,
{
    let row = k / per_row;
    vstd::arithmetic::div_mod::lemma_fundamental_div_mod(k, per_row);
    vstd::arithmetic::div_mod::lemma_div_pos_is_pos(k, per_row);
    assert(per_row * row == row * per_row) by (nonlinear_arith);
    assert(row < rows && 0 <= row * per_row) by (nonlinear_arith)
        requires
            row * per_row <= k,
            k < rows * per_row,
            1 <= per_row,
            0 <= row,
    ;
}

/// One more pair has come out.
proof fn lemma_one_more_out(
    pairs: Seq<(u16, u16)>,
    samples: spec_fn(int, int) -> int,
    per_row: int,
    n: nat,
    pair: (u16, u16),
)
    requires
        pairs_came_out(pairs, samples, per_row, n),
        pair == (
            samples(n as int / per_row, 2 * (n as int % per_row)) as u16,
            samples(n as int / per_row, 2 * (n as int % per_row) + 1) as u16,
        ),
    ensures
        pairs_came_out(pairs.push(pair), samples, per_row, n + 1),
{
    let all = pairs.push(pair);
    assert forall|k: int| 0 <= k < n + 1 implies #[trigger] all[k] == (
        samples(k / per_row, 2 * (k % per_row)) as u16,
        samples(k / per_row, 2 * (k % per_row) + 1) as u16,
    ) by {
        if k < n {
            assert(all[k] == pairs[k]);
        }
    }
}

proof fn lemma_restored(from: int, sample: int)
    requires
        0 <= sample <= 65535,
    ensures
        wrap16(from + (sample - from)) == sample,
{
}

/// What the next pair of a strip is predicted from.
proof fn lemma_strip_prediction(
    bpred: int,
    pairs: Seq<(u16, u16)>,
    samples: spec_fn(int, int) -> int,
    per_row: int,
    row: int,
    col: int,
)
    requires
        0 <= row,
        0 <= col < per_row,
        0 <= row * per_row,
        pairs_came_out(pairs, samples, per_row, (row * per_row + col) as nat),
        row > 0 && col == 0 ==> 0 <= samples(row - 1, 0) <= 65535 && 0 <= samples(row - 1, 1)
            <= 65535,
        col > 0 ==> 0 <= samples(row, 2 * col - 2) <= 65535 && 0 <= samples(row, 2 * col - 1)
            <= 65535,
    ensures
        strip_prediction(bpred, pairs, per_row) == if row == 0 && col == 0 {
            (bpred, bpred)
        } else if col == 0 {
            (samples(row - 1, 0), samples(row - 1, 1))
        } else {
            (samples(row, 2 * col - 2), samples(row, 2 * col - 1))
        },
{
    let m = row * per_row + col;
    vstd::arithmetic::div_mod::lemma_fundamental_div_mod_converse(m, per_row, row, col);
    if row == 0 && col == 0 {
        assert(m == 0);
    } else if col == 0 {
        assert((row - 1) * per_row == row * per_row - per_row) by (nonlinear_arith);
        assert(0 <= (row - 1) * per_row) by (nonlinear_arith)
            requires
                row >= 1,
                per_row >= 1,
        ;
        vstd::arithmetic::div_mod::lemma_fundamental_div_mod_converse(
            m - per_row,
            per_row,
            row - 1,
            0,
        );
        assert(pairs[m - per_row] == (samples(row - 1, 0) as u16, samples(row - 1, 1) as u16));
    } else {
        vstd::arithmetic::div_mod::lemma_fundamental_div_mod_converse(
            m - 1,
            per_row,
            row,
            col - 1,
        );
        assert(pairs[m - 1] == (
            samples(row, 2 * (col - 1)) as u16,
            samples(row, 2 * (col - 1) + 1) as u16,
        ));
    }
}

proof fn lemma_strip_came_out(
    src: Seq<u8>,
    code1: HuffCode,
    code2: HuffCode,
    bpred: int,
    samples: spec_fn(int, int) -> int,
    bits: spec_fn(int, int) -> nat,
    per_row: int,
    rows: int,
    n: nat,
)
    requires
        1 <= per_row,
        n <= rows * per_row,
        bits(0, 0) == 0,
        forall|row: int, col: int|
            0 <= row < rows && 0 <= col < per_row ==> #[trigger] strip_holds_pair(
                src,
                code1,
                code2,
                bpred,
                samples,
                bits,
                per_row,
                row,
                col,
            ),
    ensures
        ({
            let scan = strip_scanned(src, code1, code2, bpred, per_row, n);
            &&& !scan.failed
            &&& scan.stream == (BitStream { bytes: unstuffed(src), pos: bits(n as int, 0) })
            &&& pairs_came_out(scan.pairs, samples, per_row, n)
        }),
    decreases n,
{
    if n > 0 {
        let m = (n - 1) as nat;
        lemma_strip_came_out(src, code1, code2, bpred, samples, bits, per_row, rows, m);
        let row = m as int / per_row;
        let col = m as int % per_row;
        lemma_pair_place(per_row, rows, m as int);
        assert(strip_holds_pair(src, code1, code2, bpred, samples, bits, per_row, row, col));
        let before = strip_scanned(src, code1, code2, bpred, per_row, m);
        let scan = strip_scanned(src, code1, code2, bpred, per_row, n);
        if col > 0 {
            assert(strip_holds_pair(src, code1, code2, bpred, samples, bits, per_row, row, col - 1));
        } else if row > 0 {
            assert(strip_holds_pair(src, code1, code2, bpred, samples, bits, per_row, row - 1, 0));
        }
        lemma_strip_prediction(bpred, before.pairs, samples, per_row, row, col);
        let from = strip_prediction(bpred, before.pairs, per_row);
        let first = samples(row, 2 * col);
        let second = samples(row, 2 * col + 1);
        lemma_restored(from.0, first);
        lemma_restored(from.1, second);
        assert(scan == strip_next(code1, code2, bpred, per_row, before));
        assert(scan.pairs == before.pairs.push((first as u16, second as u16)));
        lemma_one_more_out(before.pairs, samples, per_row, m, (first as u16, second as u16));
    }
}

/// A strip whose data was written from samples gives back every sample.
pub proof fn strips_of_pairs_give_back_their_samples(
    src: Seq<u8>,
    out: Seq<u16>,
    width: nat,
    height: nat,
    code1: HuffCode,
    code2: HuffCode,
    bpred: int,
    samples: spec_fn(int, int) -> int,
    bits: spec_fn(int, int) -> nat,
)
    requires
        width >= 2,
        width % 2 == 0,
        height >= 1,
        width * height <= out.len(),
        bits(0, 0) == 0,
        forall|row: int, col: int|
            0 <= row < height && 0 <= col < width / 2 ==> #[trigger] strip_holds_pair(
                src,
                code1,
                code2,
                bpred,
                samples,
                bits,
                width as int / 2,
                row,
                col,
            ),
    ensures
        ({
            let (image, res) = strip_result(src, out, width, height, code1, code2, bpred);
            &&& res is Ok
            &&& forall|r: int, x: int|
                0 <= r < height && 0 <= x < width ==> image[r * width + x] == #[trigger] samples(
                    r,
                    x,
                )
        }),
{
    let per_row = width as int / 2;
    assert(strip_pairs_per_row(width) == per_row);
    let total = strip_total(width, height);
    assert(height * per_row >= 1) by (nonlinear_arith)
        requires
            height >= 1,
            per_row >= 1,
    ;
    assert(total == height * per_row);
    lemma_strip_came_out(
        src,
        code1,
        code2,
        bpred,
        samples,
        bits,
        per_row,
        height as int,
        total,
    );
    let (image, res) = strip_result(src, out, width, height, code1, code2, bpred);
    assert forall|r: int, x: int| 0 <= r < height && 0 <= x < width implies image[r * width + x]
        == #[trigger] samples(r, x) by {
        strip_decode_stores_every_sample(src, out, width, height, code1, code2, bpred, r, x);
        let pairs = strip_scanned(src, code1, code2, bpred, per_row, total).pairs;
        let col = x / 2;
        let k = r * per_row + col;
        vstd::arithmetic::div_mod::lemma_fundamental_div_mod_converse(k, per_row, r, col);
        assert(strip_holds_pair(src, code1, code2, bpred, samples, bits, per_row, r, col));
        assert(pairs[k] == (samples(r, 2 * col) as u16, samples(r, 2 * col + 1) as u16));
    }
}

/// The words of a frame hold the pair of samples in a row and a column of pairs: first the code words
/// of both differences, then the differences, from the pair to the left, or from 0x8000 at the start
/// of a row.
pub open spec fn words_hold_pair(
    frame: Frame,
    samples: spec_fn(int, int) -> int,
    bits: spec_fn(int, int) -> nat,
    per_row: int,
    row: int,
    col: int,
) -> bool {
    let k = row * per_row + col;
    let bytes = words_reversed(frame.buffer);
    let code = frame.dhts[frame.components[0].dc_tbl_num as int];
    let first = code.symbol(BitStream { bytes, pos: bits(k, 0) });
    let second = code.symbol(BitStream { bytes, pos: bits(k, 1) });
    let from = if col == 0 {
        (0x8000, 0x8000)
    } else {
        (samples(row, 2 * col - 2), samples(row, 2 * col - 1))
    };
    &&& 0 <= samples(row, 2 * col) <= 65535
    &&& 0 <= samples(row, 2 * col + 1) <= 65535
    &&& bits(k, 1) == bits(k, 0) + first.0
    &&& bits(k, 2) == bits(k, 1) + second.0
    &&& is_difference(
        BitStream { bytes, pos: bits(k, 2) },
        first.1,
        samples(row, 2 * col) - from.0,
    )
    &&& bits(k, 3) == bits(k, 2) + if first.1 == 16 {
        0
    } else {
        first.1 as int
    }
    &&& is_difference(
        BitStream { bytes, pos: bits(k, 3) },
        second.1,
        samples(row, 2 * col + 1) - from.1,
    )
    &&& bits(k + 1, 0) == bits(k, 3) + if second.1 == 16 {
        0
    } else {
        second.1 as int
    }
    &&& bits(k, 2) + 32 <= 8 * bytes.len()
}

proof fn lemma_words_came_out(
    frame: Frame,
    samples: spec_fn(int, int) -> int,
    bits: spec_fn(int, int) -> nat,
    per_row: int,
    rows: int,
    n: nat,
)
    requires
        frame.wf(),
        1 <= frame.cps,
        1 <= per_row,
        n <= rows * per_row,
        bits(0, 0) == 0,
        forall|row: int, col: int|
            0 <= row < rows && 0 <= col < per_row ==> #[trigger] words_hold_pair(
                frame,
                samples,
                bits,
                per_row,
                row,
                col,
            ),
    ensures
        ({
            let scan = frame.hasselblad_scanned(per_row, n);
            &&& scan.stream == (BitStream {
                bytes: words_reversed(frame.buffer),
                pos: bits(n as int, 0),
            })
            &&& pairs_came_out(scan.pairs, samples, per_row, n)
        }),
    decreases n,
{
    if n > 0 {
        let m = (n - 1) as nat;
        lemma_words_came_out(frame, samples, bits, per_row, rows, m);
        let row = m as int / per_row;
        let col = m as int % per_row;
        lemma_pair_place(per_row, rows, m as int);
        assert(words_hold_pair(frame, samples, bits, per_row, row, col));
        let bytes = words_reversed(frame.buffer);
        let before = frame.hasselblad_scanned(per_row, m);
        let scan = frame.hasselblad_scanned(per_row, n);
        let code = frame.table(0);
        let from = if m as int % per_row == 0 {
            (0x8000u16, 0x8000u16)
        } else {
            before.pairs.last()
        };
        if col > 0 {
            vstd::arithmetic::div_mod::lemma_fundamental_div_mod_converse(
                m - 1,
                per_row,
                row,
                col - 1,
            );
            assert(words_hold_pair(frame, samples, bits, per_row, row, col - 1));
            assert(before.pairs[m - 1] == (
                samples(row, 2 * (col - 1)) as u16,
                samples(row, 2 * (col - 1) + 1) as u16,
            ));
        }
        let k = m as int;
        let s0 = BitStream { bytes, pos: bits(k, 0) };
        let s1 = BitStream { bytes, pos: bits(k, 1) };
        let s2 = BitStream { bytes, pos: bits(k, 2) };
        let s3 = BitStream { bytes, pos: bits(k, 3) };
        let first = code.symbol(s0);
        let second = code.symbol(s1);
        differences_are_read_back(s2, first.1, samples(row, 2 * col) - from.0);
        differences_are_read_back(s3, second.1, samples(row, 2 * col + 1) - from.1);
        assert(s0.skip(first.0 as nat) == s1);
        assert(s1.skip(second.0 as nat) == s2);
        let sample1 = samples(row, 2 * col);
        let sample2 = samples(row, 2 * col + 1);
        lemma_restored(from.0 as int, sample1);
        lemma_restored(from.1 as int, sample2);
        assert(interleaved_pair(code, s0, from) == (
            (sample1 as u16, sample2 as u16),
            BitStream { bytes, pos: bits(k + 1, 0) },
        ));
        assert(scan.pairs == before.pairs.push((sample1 as u16, sample2 as u16)));
        lemma_one_more_out(before.pairs, samples, per_row, m, (sample1 as u16, sample2 as u16));
    }
}

/// A file of interleaved pairs, which one predictor number stands for, gives back the samples that
/// its words were written from, in every whole row of the image. A column that is left over, and what
/// is behind the last whole row, stay as they were.
pub proof fn interleaved_pairs_give_back_their_samples(
    frame: Frame,
    out: Seq<u16>,
    region: Region,
    samples: spec_fn(int, int) -> int,
    bits: spec_fn(int, int) -> nat,
)
    requires
        frame.wf(),
        1 <= frame.cps,
        frame.predictor == 8,
        !(frame.components[0].super_h == 2 && 1 <= frame.components[0].super_v <= 2),
        region.width >= 2,
        bits(0, 0) == 0,
        forall|row: int, col: int|
            0 <= row < out.len() / region.width && 0 <= col < region.width / 2
                ==> #[trigger] words_hold_pair(
                frame,
                samples,
                bits,
                region.width as int / 2,
                row,
                col,
            ),
    ensures
        ({
            let (image, res) = frame.decoded(out, region);
            &&& res is Ok
            &&& forall|r: int, x: int|
                0 <= r < out.len() / region.width && 0 <= x < 2 * (region.width / 2) ==> image[r
                    * region.width + x] == #[trigger] samples(r, x)
            &&& image.len() == out.len()
            &&& forall|i: int|
                0 <= i < out.len() && (i / (region.width as int) >= out.len() / region.width || i % (
                region.width as int) >= 2 * (region.width / 2)) ==> #[trigger] image[i] == out[i]
        }),
{
    let width = region.width;
    let per_row = width as int / 2;
    let rows = (out.len() / width) as int;
    let total = (out.len() / width) * (width / 2);
    assert(total == rows * per_row);
    lemma_words_came_out(frame, samples, bits, per_row, rows, total);
    let image = hasselblad_result(frame, out, width);
    assert forall|r: int, x: int| 0 <= r < rows && 0 <= x < 2 * (width / 2) implies image[r * width
        + x] == #[trigger] samples(r, x) by {
        hasselblad_decode_stores_every_sample(frame, out, width, r, x);
        let pairs = frame.hasselblad_scanned(per_row, total).pairs;
        let col = x / 2;
        let k = r * per_row + col;
        vstd::arithmetic::div_mod::lemma_fundamental_div_mod_converse(k, per_row, r, col);
        assert(words_hold_pair(frame, samples, bits, per_row, r, col));
        assert(pairs[k] == (samples(r, 2 * col) as u16, samples(r, 2 * col + 1) as u16));
    }
}

/// Every pair of a strip stands where its turn is: rows of pairs follow each other, and the last pair of
/// a row of an odd number of samples reaches into the next one. What a pair does not cover stays.
pub proof fn pairs_are_placed_in_turn(
    out: Seq<u16>,
    width: nat,
    pairs: Seq<(u16, u16)>,
    pair: (u16, u16),
)
    requires
        width >= 1,
        with_strip_pairs(out, width, pairs).len() == out.len(),
        ({
            let per_row = (width as int + 1) / 2;
            let k = pairs.len() as int;
            (k / per_row) * width + 2 * (k % per_row) + 2 <= out.len()
        }),
    ensures
        ({
            let before = with_strip_pairs(out, width, pairs);
            let after = with_strip_pairs(out, width, pairs.push(pair));
            let per_row = (width as int + 1) / 2;
            let k = pairs.len() as int;
            let at = (k / per_row) * width + 2 * (k % per_row);
            &&& after.len() == out.len()
            &&& after[at] == pair.0
            &&& after[at + 1] == pair.1
            &&& forall|i: int|
                0 <= i < out.len() && i != at && i != at + 1 ==> #[trigger] after[i] == before[i]
        }),
{
    let k = pairs.len() as int;
    let per_row = (width as int + 1) / 2;
    assert(strip_pairs_per_row(width) == per_row);
    assert(pairs.push(pair).drop_last() =~= pairs);
    vstd::arithmetic::div_mod::lemma_div_pos_is_pos(k, per_row);
    assert(0 <= (k / per_row) * width) by (nonlinear_arith)
        requires
            0 <= k / per_row,
            0 <= width,
    ;
    if k == 0 {
        assert(0int / per_row == 0 && 0int % per_row == 0) by {
            vstd::arithmetic::div_mod::lemma_small_mod(0, per_row as nat);
            vstd::arithmetic::div_mod::lemma_basic_div(0, per_row);
        }
        assert(0 * width == 0) by (nonlinear_arith);
    }
}

/// A strip has as many pairs as it takes to cover its rows, and is decoded if they all can be.
pub proof fn strips_have_as_many_pairs_as_cover_them(
    src: Seq<u8>,
    out: Seq<u16>,
    width: nat,
    height: nat,
    code1: HuffCode,
    code2: HuffCode,
    bpred: int,
)
    requires
        width >= 1,
        height >= 1,
    ensures
        ({
            let per_row = (width as int + 1) / 2;
            let scan = strip_scanned(
                src,
                code1,
                code2,
                bpred,
                per_row,
                (height * per_row) as nat,
            );
            let (image, res) = strip_result(src, out, width, height, code1, code2, bpred);
            &&& res is Ok <==> !scan.failed
            &&& res is Ok ==> image == with_strip_pairs(out, width, scan.pairs)
        }),
{
    let per_row = (width as int + 1) / 2;
    assert(height * per_row >= 1) by (nonlinear_arith)
        requires
            height >= 1,
            per_row >= 1,
    ;
}

} // verus!
