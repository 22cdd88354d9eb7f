//! What scans decode to whose samples come two at a time.
use vstd::prelude::*;
use crate::bits::{unstuffed, words_reversed, BitStream};
use crate::ljpeg::frame::Frame;
use crate::ljpeg::huffman::{after_difference, difference, no_code_message, HuffCode};
use crate::ljpeg::yuv::wrap16;

verus! {

/// The pairs that have been decoded so far, what is left of the scan, and whether it ended early.
pub struct PairScan {
    pub pairs: Seq<(u16, u16)>,
    pub stream: BitStream,
    pub failed: bool,
}

/// Two samples whose code words come before their differences, and the stream behind them. Where
/// no code word matches, the difference is 0.
pub open spec fn interleaved_pair(code: HuffCode, s: BitStream, from: (u16, u16)) -> (
    (u16, u16),
    BitStream,
) {
    let first = code.symbol(s);
    let behind_first = s.skip(first.0 as nat);
    let second = code.symbol(behind_first);
    let words = behind_first.skip(second.0 as nat);
    let rest = after_difference(words, first.1);
    (
        (
            wrap16(from.0 + difference(words, first.1)),
            wrap16(from.1 + difference(rest, second.1)),
        ),
        after_difference(rest, second.1),
    )
}

impl Frame {
    /// The scan after `n` pairs, of which `per_row` make up a row. A row starts from 0x8000, and
    /// every other pair from the one to its left.
    pub open spec fn hasselblad_scanned(self, per_row: int, n: nat) -> PairScan
        decreases n,
    {
        if n == 0 {
            PairScan {
                pairs: seq![],
                stream: BitStream { bytes: words_reversed(self.buffer), pos: 0 },
                failed: false,
            }
        } else {
            let scan = self.hasselblad_scanned(per_row, (n - 1) as nat);
            let from = if (n - 1) % per_row == 0 {
                (0x8000u16, 0x8000u16)
            } else {
                scan.pairs.last()
            };
            let (pair, rest) = interleaved_pair(self.table(0), scan.stream, from);
            PairScan { pairs: scan.pairs.push(pair), stream: rest, failed: false }
        }
    }

    /// There is a pair for each of the `n` decoded.
    pub proof fn lemma_hasselblad_len(self, per_row: int, n: nat)
        ensures
            self.hasselblad_scanned(per_row, n).pairs.len() == n,
        decreases n,
    {
        if n > 0 {
            self.lemma_hasselblad_len(per_row, (n - 1) as nat);
        }
    }
}

/// The image once its whole rows of `width` samples hold the pairs that have been decoded. A
/// sample that is left over at the end of a row, or behind the last whole row, stays.
pub open spec fn with_row_pairs(out: Seq<u16>, width: nat, pairs: Seq<(u16, u16)>) -> Seq<u16> {
    Seq::new(
        out.len(),
        |i: int|
            {
                let x = i % width as int;
                let k = (i / width as int) * (width / 2) + x / 2;
                if i / (width as int) < out.len() / width && x < 2 * (width / 2) && k
                    < pairs.len() {
                    if x % 2 == 0 {
                        pairs[k].0
                    } else {
                        pairs[k].1
                    }
                } else {
                    out[i]
                }
            },
    )
}

/// The image that decoding a frame of interleaved pairs makes of `out`.
pub open spec fn hasselblad_result(frame: Frame, out: Seq<u16>, width: nat) -> Seq<u16> {
    with_row_pairs(
        out,
        width,
        frame.hasselblad_scanned(
            width as int / 2,
            (out.len() / width) * (width / 2),
        ).pairs,
    )
}

/// The place of pair number `k`.
pub proof fn lemma_row_pair(width: nat, r: int, c: int)
    requires
        0 <= r,
        0 <= c < width / 2,
    ensures
        (r * width + 2 * c) / width as int == r,
        (r * width + 2 * c) % width as int == 2 * c,
        (r * width + 2 * c + 1) / width as int == r,
        (r * width + 2 * c + 1) % width as int == 2 * c + 1,
{
    vstd::arithmetic::div_mod::lemma_fundamental_div_mod_converse(
        r * width + 2 * c,
        width as int,
        r,
        2 * c,
    );
    vstd::arithmetic::div_mod::lemma_fundamental_div_mod_converse(
        r * width + 2 * c + 1,
        width as int,
        r,
        2 * c + 1,
    );
}

/// One more pair changes the image where the pair stands.
pub proof fn lemma_one_more_pair(
    out: Seq<u16>,
    width: nat,
    pairs: Seq<(u16, u16)>,
    pair: (u16, u16),
    r: int,
    c: int,
)
    requires
        0 <= c < width / 2,
        0 <= r < out.len() / width,
        pairs.len() == r * (width / 2) + c,
    ensures
        0 <= r * width + 2 * c,
        r * width + 2 * c + 1 < out.len(),
        with_row_pairs(out, width, pairs.push(pair)) == with_row_pairs(out, width, pairs).update(
            r * width + 2 * c,
            pair.0,
        ).update(r * width + 2 * c + 1, pair.1),
{
    let w = width as int;
    let half = (width / 2) as int;
    let at = r * w + 2 * c;
    let rows = (out.len() / width) as int;
    lemma_row_pair(width, r, c);
    vstd::arithmetic::div_mod::lemma_fundamental_div_mod(out.len() as int, w);
    assert(at + 1 < rows * w && 0 <= at) by (nonlinear_arith)
        requires
            at == r * w + 2 * c,
            0 <= r,
            r + 1 <= rows,
            2 * c + 1 < w,
            0 <= c,
    ;
    assert(rows * w <= out.len()) by (nonlinear_arith)
        requires
            out.len() == w * rows + out.len() as int % w,
            0 <= out.len() as int % w,
    ;
    let before = with_row_pairs(out, width, pairs);
    let after = with_row_pairs(out, width, pairs.push(pair));
    let expected = before.update(at, pair.0).update(at + 1, pair.1);
    assert forall|i: int| 0 <= i < out.len() implies after[i] == #[trigger] expected[i] by {
        let x = i % w;
        let q = i / w;
        vstd::arithmetic::div_mod::lemma_fundamental_div_mod(i, w);
        vstd::arithmetic::div_mod::lemma_div_pos_is_pos(i, w);
        vstd::arithmetic::mul::lemma_mul_is_commutative(w, q);
        if x < 2 * half && q * half + x / 2 == pairs.len() {
            vstd::arithmetic::div_mod::lemma_fundamental_div_mod_converse(
                q * half + x / 2,
                half,
                q,
                x / 2,
            );
            vstd::arithmetic::div_mod::lemma_fundamental_div_mod_converse(
                r * half + c,
                half,
                r,
                c,
            );
            assert(q == r && x / 2 == c);
        }
    }
    assert(after =~= expected);
}

/// The number of pairs in a row of a strip; the last one may reach into the next row.
pub open spec fn strip_pairs_per_row(width: nat) -> nat {
    (width + 1) / 2
}

/// The number of pairs that are decoded: those that cover the strip, and the first in any case.
pub open spec fn strip_total(width: nat, height: nat) -> nat {
    let n = height * strip_pairs_per_row(width);
    if n == 0 {
        1
    } else {
        n
    }
}

/// Where pair number `k` of a strip stands.
pub open spec fn strip_pair_at(width: nat, k: int) -> int {
    if k == 0 {
        0
    } else {
        let per_row = strip_pairs_per_row(width) as int;
        (k / per_row) * width + 2 * (k % per_row)
    }
}

/// The strip once all pairs stand in it, one after the other.
pub open spec fn with_strip_pairs(out: Seq<u16>, width: nat, pairs: Seq<(u16, u16)>) -> Seq<u16>
    decreases pairs.len(),
{
    if pairs.len() == 0 {
        out
    } else {
        let at = strip_pair_at(width, pairs.len() - 1);
        with_strip_pairs(out, width, pairs.drop_last()).update(at, pairs.last().0).update(
            at + 1,
            pairs.last().1,
        )
    }
}

/// What the pair behind `pairs` is predicted from: the given number for the first pair, the first
/// pair of the row above at the start of a row, and the pair to the left elsewhere.
pub open spec fn strip_prediction(bpred: int, pairs: Seq<(u16, u16)>, per_row: int) -> (int, int) {
    let k = pairs.len() as int;
    if k == 0 {
        (bpred, bpred)
    } else {
        let from = if k % per_row == 0 {
            pairs[k - per_row]
        } else {
            pairs[k - 1]
        };
        (from.0 as int, from.1 as int)
    }
}

/// One more pair of a strip: two coded differences, each with its own code.
pub open spec fn strip_next(
    code1: HuffCode,
    code2: HuffCode,
    bpred: int,
    per_row: int,
    scan: PairScan,
) -> PairScan {
    if scan.failed {
        scan
    } else {
        let from = strip_prediction(bpred, scan.pairs, per_row);
        match code1.decode(scan.stream) {
            None => PairScan { failed: true, ..scan },
            Some((diff1, rest)) => match code2.decode(rest) {
                None => PairScan { failed: true, ..scan },
                Some((diff2, behind)) => PairScan {
                    pairs: scan.pairs.push((wrap16(from.0 + diff1), wrap16(from.1 + diff2))),
                    stream: behind,
                    failed: false,
                },
            },
        }
    }
}

/// The scan of a strip after `n` pairs, or where it failed before.
pub open spec fn strip_scanned(
    src: Seq<u8>,
    code1: HuffCode,
    code2: HuffCode,
    bpred: int,
    per_row: int,
    n: nat,
) -> PairScan
    decreases n,
{
    if n == 0 {
        PairScan {
            pairs: seq![],
            stream: BitStream { bytes: unstuffed(src), pos: 0 },
            failed: false,
        }
    } else {
        strip_next(
            code1,
            code2,
            bpred,
            per_row,
            strip_scanned(src, code1, code2, bpred, per_row, (n - 1) as nat),
        )
    }
}

/// A failed scan stays as it is.
pub proof fn lemma_strip_failed(
    src: Seq<u8>,
    code1: HuffCode,
    code2: HuffCode,
    bpred: int,
    per_row: int,
    k: nat,
    n: nat,
)
    requires
        k <= n,
        strip_scanned(src, code1, code2, bpred, per_row, k).failed,
    ensures
        strip_scanned(src, code1, code2, bpred, per_row, n) == strip_scanned(
            src,
            code1,
            code2,
            bpred,
            per_row,
            k,
        ),
    decreases n,
{
    if k < n {
        lemma_strip_failed(src, code1, code2, bpred, per_row, k, (n - 1) as nat);
    }
}

/// What decoding a strip makes of `out`, and the message if it fails. Pairs that were decoded
/// before a failure stay, and so does a lone first sample.
pub open spec fn strip_result(
    src: Seq<u8>,
    out: Seq<u16>,
    width: nat,
    height: nat,
    code1: HuffCode,
    code2: HuffCode,
    bpred: int,
) -> (Seq<u16>, Result<(), Seq<char>>) {
    let scan = strip_scanned(
        src,
        code1,
        code2,
        bpred,
        strip_pairs_per_row(width) as int,
        strip_total(width, height),
    );
    if scan.failed {
        let first = code1.decode(scan.stream);
        (
            if scan.pairs.len() == 0 && first is Some {
                out.update(0, wrap16(bpred + (first->0).0))
            } else {
                with_strip_pairs(out, width, scan.pairs)
            },
            Err(no_code_message()),
        )
    } else {
        (with_strip_pairs(out, width, scan.pairs), Ok(()))
    }
}

/// The strip holds every pair.
pub open spec fn strip_fits(len: nat, width: nat, height: nat) -> bool {
    strip_pair_at(width, strip_total(width, height) - 1) + 2 <= len
}

/// The place of a pair of a strip by its row and column.
pub proof fn lemma_strip_pair_at(width: nat, r: int, c: int)
    requires
        0 <= r,
        0 <= c < strip_pairs_per_row(width),
    ensures
        strip_pair_at(width, r * strip_pairs_per_row(width) + c) == r * width + 2 * c,
        (r * strip_pairs_per_row(width) + c) % strip_pairs_per_row(width) as int == c,
{
    let per_row = strip_pairs_per_row(width) as int;
    let k = r * per_row + c;
    vstd::arithmetic::div_mod::lemma_fundamental_div_mod_converse(k, per_row, r, c);
    assert(k == 0 ==> r == 0) by (nonlinear_arith)
        requires
            k == r * per_row + c,
            0 <= r,
            0 <= c,
            1 <= per_row,
    ;
    if k == 0 {
        assert(0 * width == 0);
    }
}

/// No pair of a strip ends behind the last one.
pub proof fn lemma_strip_before_last(len: nat, width: nat, height: nat, r: int, c: int)
    requires
        strip_fits(len, width, height),
        0 <= r < height,
        0 <= c < strip_pairs_per_row(width),
    ensures
        0 <= r * width,
        r * width + 2 * c + 2 <= len,
        r * strip_pairs_per_row(width) + c < strip_total(width, height),
        strip_total(width, height) == height * strip_pairs_per_row(width),
{
    let per_row = strip_pairs_per_row(width) as int;
    assert(height * per_row >= 1) by (nonlinear_arith)
        requires
            height >= 1,
            per_row >= 1,
    ;
    assert((height - 1) * per_row + per_row - 1 == height * per_row - 1) by (nonlinear_arith);
    lemma_strip_pair_at(width, height - 1, per_row - 1);
    assert(0 <= r * width <= (height - 1) * width) by (nonlinear_arith)
        requires
            0 <= r <= height - 1,
    ;
    assert(r * per_row + c < height * per_row) by (nonlinear_arith)
        requires
            r <= height - 1,
            c < per_row,
            1 <= per_row,
    ;
}

/// The pairs that the pair in row `r` and column `c` can be predicted from stand in the strip.
pub open spec fn strip_holds_neighbours(
    out: Seq<u16>,
    width: nat,
    pairs: Seq<(u16, u16)>,
    r: int,
    c: int,
) -> bool {
    let per_row = strip_pairs_per_row(width) as int;
    &&& pairs.len() == r * per_row + c
    &&& c == 0 && r > 0 ==> out[(r - 1) * width] == pairs[(r - 1) * per_row].0 && out[(r - 1)
        * width + 1] == pairs[(r - 1) * per_row].1
    &&& c > 0 ==> out[r * width] == pairs[r * per_row].0 && out[r * width + 1] == pairs[r
        * per_row].1 && out[r * width + 2 * c - 2] == pairs.last().0 && out[r * width + 2 * c - 1]
        == pairs.last().1
}

/// Pairs that fill whole rows keep the size of the strip, and each of their samples stays.
proof fn lemma_strip_stored(
    out: Seq<u16>,
    width: nat,
    height: nat,
    pairs: Seq<(u16, u16)>,
    r: int,
    x: int,
)
    requires
        width % 2 == 0,
        width * height <= out.len(),
        pairs.len() <= height * strip_pairs_per_row(width),
        0 <= r < height,
        0 <= x < width,
    ensures
        with_strip_pairs(out, width, pairs).len() == out.len(),
        ({
            let k = r * strip_pairs_per_row(width) + x / 2;
            k < pairs.len() ==> with_strip_pairs(out, width, pairs)[r * width + x] == if x % 2 == 0 {
                pairs[k].0
            } else {
                pairs[k].1
            }
        }),
    decreases pairs.len(),
{
    if pairs.len() > 0 {
        let w = width as int;
        let per_row = strip_pairs_per_row(width) as int;
        let k = r * per_row + x / 2;
        let j = pairs.len() - 1;
        let jr = j / per_row;
        let jc = j % per_row;
        lemma_strip_stored(out, width, height, pairs.drop_last(), r, x);
        assert(w == 2 * per_row);
        vstd::arithmetic::div_mod::lemma_fundamental_div_mod(j, per_row);
        vstd::arithmetic::div_mod::lemma_div_pos_is_pos(j, per_row);
        vstd::arithmetic::mul::lemma_mul_is_commutative(per_row, jr);
        lemma_strip_pair_at(width, jr, jc);
        assert(jr < height) by (nonlinear_arith)
            requires
                jr * per_row + jc < height * per_row,
                0 <= jc,
                0 < per_row,
        ;
        let at = jr * w + 2 * jc;
        assert(0 <= at && at + 2 <= width * height) by (nonlinear_arith)
            requires
                at == jr * w + 2 * jc,
                w == width,
                0 <= jr,
                jr + 1 <= height,
                0 <= jc,
                2 * jc + 2 <= w,
        ;
        assert(0 <= r * w && r * w + w <= width * height) by (nonlinear_arith)
            requires
                w == width,
                0 <= r,
                r + 1 <= height,
        ;
        let i = r * w + x;
        vstd::arithmetic::div_mod::lemma_fundamental_div_mod_converse(i, w, r, x);
        if i == at {
            vstd::arithmetic::div_mod::lemma_fundamental_div_mod_converse(i, w, jr, 2 * jc);
        }
        if i == at + 1 {
            vstd::arithmetic::div_mod::lemma_fundamental_div_mod_converse(i, w, jr, 2 * jc + 1);
        }
        if k == j {
            vstd::arithmetic::div_mod::lemma_fundamental_div_mod_converse(k, per_row, r, x / 2);
        }
    }
}

proof fn lemma_strip_scanned_len(
    src: Seq<u8>,
    code1: HuffCode,
    code2: HuffCode,
    bpred: int,
    per_row: int,
    n: nat,
)
    ensures
        !strip_scanned(src, code1, code2, bpred, per_row, n).failed ==> strip_scanned(
            src,
            code1,
            code2,
            bpred,
            per_row,
            n,
        ).pairs.len() == n,
    decreases n,
{
    if n > 0 {
        lemma_strip_scanned_len(src, code1, code2, bpred, per_row, (n - 1) as nat);
    }
}

/// A decode of a strip of whole pairs that succeeds gives every place the sample of its pair.
pub proof fn strip_decode_stores_every_sample(
    src: Seq<u8>,
    out: Seq<u16>,
    width: nat,
    height: nat,
    code1: HuffCode,
    code2: HuffCode,
    bpred: int,
    r: int,
    x: int,
)
    requires
        strip_result(src, out, width, height, code1, code2, bpred).1 is Ok,
        width % 2 == 0,
        width * height <= out.len(),
        0 <= r < height,
        0 <= x < width,
    ensures
        ({
            let per_row = strip_pairs_per_row(width) as int;
            let total = strip_total(width, height);
            let pairs = strip_scanned(src, code1, code2, bpred, per_row, total).pairs;
            let k = r * per_row + x / 2;
            &&& 0 <= k < pairs.len() == total
            &&& strip_result(src, out, width, height, code1, code2, bpred).0[r * width + x]
                == if x % 2 == 0 {
                pairs[k].0
            } else {
                pairs[k].1
            }
        }),
{
    let per_row = strip_pairs_per_row(width) as int;
    let total = strip_total(width, height);
    let pairs = strip_scanned(src, code1, code2, bpred, per_row, total).pairs;
    lemma_strip_scanned_len(src, code1, code2, bpred, per_row, total);
    assert(r * per_row + x / 2 < height * per_row && 0 <= r * per_row) by (nonlinear_arith)
        requires
            0 <= r,
            r + 1 <= height,
            0 <= x / 2 < per_row,
    ;
    lemma_strip_stored(out, width, height, pairs, r, x);
}

/// Decoding interleaved pairs gives every place of a whole row, but for a column left over, the
/// sample of its pair.
pub proof fn hasselblad_decode_stores_every_sample(
    frame: Frame,
    out: Seq<u16>,
    width: nat,
    r: int,
    x: int,
)
    requires
        0 <= r < out.len() / width,
        0 <= x < 2 * (width / 2),
    ensures
        ({
            let total = (out.len() / width) * (width / 2);
            let pairs = frame.hasselblad_scanned(width as int / 2, total).pairs;
            let k = r * (width / 2) + x / 2;
            &&& 0 <= k < pairs.len() == total
            &&& hasselblad_result(frame, out, width)[r * width + x] == if x % 2 == 0 {
                pairs[k].0
            } else {
                pairs[k].1
            }
        }),
{
    let rows = (out.len() / width) as int;
    let half = (width / 2) as int;
    let w = width as int;
    let total = (out.len() / width) * (width / 2);
    frame.lemma_hasselblad_len(w / 2, total);
    assert(0 <= r * half && r * half + x / 2 < rows * half) by (nonlinear_arith)
        requires
            0 <= r,
            r + 1 <= rows,
            0 <= x / 2 < half,
    ;
    vstd::arithmetic::div_mod::lemma_fundamental_div_mod_converse(r * w + x, w, r, x);
    vstd::arithmetic::div_mod::lemma_fundamental_div_mod(out.len() as int, w);
    assert(0 <= r * w && r * w + x < out.len()) by (nonlinear_arith)
        requires
            0 <= r,
            r + 1 <= rows,
            0 <= x < w,
            out.len() == w * rows + out.len() as int % w,
            0 <= out.len() as int % w,
    ;
}

} // verus!
