//! What patterns of color filters repeat.
use vstd::prelude::*;
use crate::cfa::{pattern_size, Pattern};

verus! {

/// A pattern repeats itself over the sensor, and a shifted one starts so many columns and rows into
/// it.
pub proof fn patterns_repeat_themselves(p: Pattern, x: int, y: int, row: int, col: int)
    requires
        p.name.len() == p.width * p.height,
        0 <= row < p.height,
        0 <= col < p.width,
    ensures
        p.color_at(row, col) == p.name[row * p.width + col],
        p.color_at(row + p.height, col) == p.color_at(row, col),
        p.color_at(row, col + p.width) == p.color_at(row, col),
        p.shifted(x, y).width == p.width,
        p.shifted(x, y).height == p.height,
        p.shifted(x, y).name.len() == p.name.len(),
        p.shifted(x, y).name[row * p.width + col] == p.name[((row + y) % (p.height as int)) * p.width
            + (col + x) % (p.width as int)],
{
    let w = p.width as int;
    let h = p.height as int;
    vstd::arithmetic::div_mod::lemma_small_mod(row as nat, p.height);
    vstd::arithmetic::div_mod::lemma_small_mod(col as nat, p.width);
    vstd::arithmetic::div_mod::lemma_mod_add_multiples_vanish(row, h);
    vstd::arithmetic::div_mod::lemma_mod_add_multiples_vanish(col, w);
    assert((row + h) % h == row % h);
    assert((col + w) % w == col % w);
    let i = row * w + col;
    vstd::arithmetic::div_mod::lemma_fundamental_div_mod_converse(i, w, row, col);
    assert(0 <= i < w * h) by (nonlinear_arith)
        requires
            i == row * w + col,
            0 <= row,
            row + 1 <= h,
            0 <= col < w,
    ;
}

/// A pattern that is given by its letters alone fills its rows: it is a square, but for one of 16
/// letters, which has rows of two.
pub proof fn patterns_fill_their_rows(len: nat)
    ensures
        pattern_size(len) is Some <==> len == 0 || len == 4 || len == 16 || len == 36 || len == 144,
        pattern_size(len) matches Some((width, height)) ==> {
            &&& width * height == len
            &&& len == 16 ==> width == 2
            &&& len != 16 ==> width == height
        },
{
}

} // verus!
