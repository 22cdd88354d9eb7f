//! What unpacking samples gives back of what was packed.
use vstd::prelude::*;
use crate::unpack::{codes_result, Packing};

verus! {

/// Three bytes hold two samples of 12 bits, one behind the other, the high bits first.
pub open spec fn hold_two(src: Seq<u8>, at: int, a: u16, b: u16) -> bool {
    &&& a <= 0xfff
    &&& b <= 0xfff
    &&& at + 3 <= src.len()
    &&& src[at] == a as int / 16
    &&& src[at + 1] == 16 * (a as int % 16) + b as int / 256
    &&& src[at + 2] == b as int % 256
}

/// Five bytes hold four samples of 10 bits, one behind the other, the high bits first.
pub open spec fn hold_four(src: Seq<u8>, at: int, a: u16, b: u16, c: u16, d: u16) -> bool {
    &&& a <= 0x3ff
    &&& b <= 0x3ff
    &&& c <= 0x3ff
    &&& d <= 0x3ff
    &&& at + 5 <= src.len()
    &&& src[at] == a as int / 4
    &&& src[at + 1] == 64 * (a as int % 4) + b as int / 16
    &&& src[at + 2] == 16 * (b as int % 16) + c as int / 64
    &&& src[at + 3] == 4 * (c as int % 64) + d as int / 256
    &&& src[at + 4] == d as int % 256
}

/// The row and the column of a sample of an image.
proof fn lemma_place(width: int, row: int, col: int, height: int)
    requires
        0 <= row < height,
        0 <= col < width,
    ensures
        (row * width + col) / width == row,
        (row * width + col) % width == col,
        0 <= row * width + col < width * height,
{
    vstd::arithmetic::div_mod::lemma_fundamental_div_mod_converse(
        row * width + col,
        width,
        row,
        col,
    );
    assert(0 <= row * width && row * width + width <= width * height) by (nonlinear_arith)
        requires
            0 <= row,
            row + 1 <= height,
            0 < width,
    ;
}

/// Two samples of 12 bits that stand in a row of an image, `2 * pair` samples behind its start,
/// come out where they belong. The row starts at the byte that holds its first bit.
pub proof fn rows_of_12_bits_give_back_their_pairs(
    src: Seq<u8>,
    width: nat,
    height: nat,
    row: int,
    pair: int,
    a: u16,
    b: u16,
)
    requires
        0 <= row < height,
        0 <= pair,
        2 * pair + 1 < width,
        hold_two(src, (row * width * 12) / 8 + 3 * pair, a, b),
    ensures
        Packing::Big12.samples(src, width, height).len() == width * height,
        Packing::Big12.samples(src, width, height)[row * width + 2 * pair] == a,
        Packing::Big12.samples(src, width, height)[row * width + 2 * pair + 1] == b,
{
    lemma_place(width as int, row, 2 * pair, height as int);
    lemma_place(width as int, row, 2 * pair + 1, height as int);
}

/// Four samples of 10 bits that stand in a row of an image, `4 * group` samples behind its start,
/// come out where they belong. The row starts at the byte that holds its first bit.
pub proof fn rows_of_10_bits_give_back_their_groups(
    src: Seq<u8>,
    width: nat,
    height: nat,
    row: int,
    group: int,
    a: u16,
    b: u16,
    c: u16,
    d: u16,
)
    requires
        0 <= row < height,
        0 <= group,
        4 * group + 3 < width,
        hold_four(src, (row * width * 10) / 8 + 5 * group, a, b, c, d),
    ensures
        Packing::Big10.samples(src, width, height).len() == width * height,
        Packing::Big10.samples(src, width, height)[row * width + 4 * group] == a,
        Packing::Big10.samples(src, width, height)[row * width + 4 * group + 1] == b,
        Packing::Big10.samples(src, width, height)[row * width + 4 * group + 2] == c,
        Packing::Big10.samples(src, width, height)[row * width + 4 * group + 3] == d,
{
    lemma_place(width as int, row, 4 * group, height as int);
    lemma_place(width as int, row, 4 * group + 1, height as int);
    lemma_place(width as int, row, 4 * group + 2, height as int);
    lemma_place(width as int, row, 4 * group + 3, height as int);
}

/// Unpacking gives back the samples of 16 bits that were stored one behind the other, the low byte
/// of each first, whatever follows them.
pub proof fn unpacking_16_bits_gives_back_the_samples(
    src: Seq<u8>,
    width: nat,
    height: nat,
    samples: Seq<u16>,
)
    requires
        samples.len() == width * height,
        2 * samples.len() <= src.len(),
        forall|i: int|
            0 <= i < samples.len() ==> #[trigger] samples[i] == src[2 * i] + 256 * src[2 * i + 1],
    ensures
        Packing::Little16.samples(src, width, height) == samples,
{
    let all = Packing::Little16.samples(src, width, height);
    assert forall|i: int| 0 <= i < samples.len() implies all[i] == #[trigger] samples[i] by {
        let w = width as int;
        assert(w > 0) by (nonlinear_arith)
            requires
                i < width * height,
                0 <= i,
                w == width,
        ;
        let row = i / w;
        let col = i % w;
        vstd::arithmetic::div_mod::lemma_fundamental_div_mod(i, w);
        assert(row * w == w * row) by (nonlinear_arith);
        assert(row * w * 16 / 8 == 2 * (row * w));
        assert(col / 1 == col && col % 1 == 0 && w % 1 == 0);
        assert(col * 2 == 2 * col);
    }
    assert(all =~= samples);
}

/// Unpacking gives back the samples of 12 bits that were packed one behind the other, for rows of
/// whole pairs: no gap lies between two rows.
pub proof fn unpacking_12_bits_gives_back_the_samples(
    src: Seq<u8>,
    width: nat,
    height: nat,
    samples: Seq<u16>,
)
    requires
        width % 2 == 0,
        samples.len() == width * height,
        forall|j: int|
            0 <= 2 * j < samples.len() ==> #[trigger] hold_two(
                src,
                3 * j,
                samples[2 * j],
                samples[2 * j + 1],
            ),
    ensures
        Packing::Big12.samples(src, width, height) == samples,
{
    let all = Packing::Big12.samples(src, width, height);
    assert forall|i: int| 0 <= i < samples.len() implies all[i] == #[trigger] samples[i] by {
        let w = width as int;
        assert(w > 0) by (nonlinear_arith)
            requires
                i < width * height,
                0 <= i,
                w == width,
        ;
        let row = i / w;
        let col = i % w;
        let h = w / 2;
        vstd::arithmetic::div_mod::lemma_fundamental_div_mod(i, w);
        vstd::arithmetic::div_mod::lemma_div_pos_is_pos(i, w);
        assert(row * w == w * row && row * w == 2 * (row * h)) by (nonlinear_arith)
            requires
                w == 2 * h,
        ;
        assert(row < height) by (nonlinear_arith)
            requires
                w * row <= i,
                i < w * height,
                w > 0,
        ;
        let pair = col / 2;
        let j = row * h + pair;
        assert(0 <= row * h) by (nonlinear_arith)
            requires
                0 <= row,
                0 <= h,
        ;
        assert(i / 2 == j);
        assert(hold_two(src, 3 * j, samples[2 * j], samples[2 * j + 1]));
        assert((row * w * 12) / 8 == 3 * (row * h));
        rows_of_12_bits_give_back_their_pairs(
            src,
            width,
            height,
            row,
            pair,
            samples[2 * j],
            samples[2 * j + 1],
        );
    }
    assert(all =~= samples);
}

/// Unpacking gives back the samples of 10 bits that were packed one behind the other, for rows of
/// whole groups: no gap lies between two rows.
pub proof fn unpacking_10_bits_gives_back_the_samples(
    src: Seq<u8>,
    width: nat,
    height: nat,
    samples: Seq<u16>,
)
    requires
        width % 4 == 0,
        samples.len() == width * height,
        forall|j: int|
            0 <= 4 * j < samples.len() ==> #[trigger] hold_four(
                src,
                5 * j,
                samples[4 * j],
                samples[4 * j + 1],
                samples[4 * j + 2],
                samples[4 * j + 3],
            ),
    ensures
        Packing::Big10.samples(src, width, height) == samples,
{
    let all = Packing::Big10.samples(src, width, height);
    assert forall|i: int| 0 <= i < samples.len() implies all[i] == #[trigger] samples[i] by {
        let w = width as int;
        assert(w > 0) by (nonlinear_arith)
            requires
                i < width * height,
                0 <= i,
                w == width,
        ;
        let row = i / w;
        let col = i % w;
        let q = w / 4;
        vstd::arithmetic::div_mod::lemma_fundamental_div_mod(i, w);
        vstd::arithmetic::div_mod::lemma_div_pos_is_pos(i, w);
        assert(row * w == w * row && row * w == 4 * (row * q)) by (nonlinear_arith)
            requires
                w == 4 * q,
        ;
        assert(row < height) by (nonlinear_arith)
            requires
                w * row <= i,
                i < w * height,
                w > 0,
        ;
        let group = col / 4;
        let j = row * q + group;
        assert(0 <= row * q) by (nonlinear_arith)
            requires
                0 <= row,
                0 <= q,
        ;
        assert(i / 4 == j);
        assert(hold_four(
            src,
            5 * j,
            samples[4 * j],
            samples[4 * j + 1],
            samples[4 * j + 2],
            samples[4 * j + 3],
        ));
        assert((row * w * 10) / 8 == 5 * (row * q));
        rows_of_10_bits_give_back_their_groups(
            src,
            width,
            height,
            row,
            group,
            samples[4 * j],
            samples[4 * j + 1],
            samples[4 * j + 2],
            samples[4 * j + 3],
        );
    }
    assert(all =~= samples);
}

/// A strip of 8-bit codes that holds a byte for every sample gives each sample its byte, and one
/// that holds fewer is refused.
pub proof fn codes_of_8_bits_are_the_bytes(src: Seq<u8>, width: nat, height: nat)
    requires
        width * height <= usize::MAX,
    ensures
        codes_result(src, width, height) is Ok <==> width * height <= src.len(),
        codes_result(src, width, height) matches Ok(samples) ==> samples.len() == width * height
            && forall|i: int| 0 <= i < samples.len() ==> #[trigger] samples[i] == src[i],
{
}

/// A sample that is left over at the end of a row of pairs or groups, and one whose bytes the data
/// does not hold whole, is 0.
pub proof fn samples_without_bytes_are_zero(
    packing: Packing,
    src: Seq<u8>,
    width: nat,
    height: nat,
    row: int,
    col: int,
)
    requires
        0 <= row < height,
        0 <= col < width,
        match packing {
            Packing::Little16 => 2 * (row * width) + 2 * col + 2 > src.len(),
            Packing::Big12 => col >= width - width % 2 || (row * width * 12) / 8 + 3 * (col / 2) + 3
                > src.len(),
            Packing::Big10 => col >= width - width % 4 || (row * width * 10) / 8 + 5 * (col / 4) + 5
                > src.len(),
        },
    ensures
        packing.samples(src, width, height)[row * width + col] == 0,
{
    lemma_place(width as int, row, col, height as int);
    assert((row * width * 16) / 8 == 2 * (row * width));
    assert(col / 1 == col && width as int % 1 == 0);
}

} // verus!
