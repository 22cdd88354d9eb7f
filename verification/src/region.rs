//! A rectangle of samples inside an image that is stored row by row.
use vstd::prelude::*;

verus! {

/// `width` samples from column `x` on, in each of the first `height` rows of `stripwidth` samples.
pub struct Region {
    pub x: nat,
    pub stripwidth: nat,
    pub width: nat,
    pub height: nat,
}

impl Region {
    /// The number of samples up to the last one of the rectangle.
    pub open spec fn extent(self) -> nat {
        if self.height == 0 {
            0
        } else {
            ((self.height - 1) * self.stripwidth + self.x + self.width) as nat
        }
    }

    /// The row of the rectangle that the sample at `i` lies in.
    pub open spec fn row(self, i: int) -> int {
        i / self.stripwidth as int
    }

    /// The column of the rectangle that the sample at `i` lies in.
    pub open spec fn col(self, i: int) -> int {
        i % self.stripwidth as int - self.x
    }

    /// The sample at `i` lies in the rectangle.
    pub open spec fn holds(self, i: int) -> bool {
        self.row(i) < self.height && 0 <= self.col(i) < self.width
    }

    /// Where the sample in row `r` and column `c` of the rectangle is stored.
    pub open spec fn at(self, r: int, c: int) -> int {
        r * self.stripwidth + self.x + c
    }

    /// Every sample of the rectangle lies in a row of the image.
    pub open spec fn wf(self) -> bool {
        self.x + self.width <= self.stripwidth
    }
}

/// The position of a sample names its row and column, and lies before the rectangle's end.
pub proof fn lemma_region_at(region: Region, r: int, c: int)
    requires
        region.wf(),
        0 <= r < region.height,
        0 <= c < region.width,
    ensures
        region.row(region.at(r, c)) == r,
        region.col(region.at(r, c)) == c,
        region.holds(region.at(r, c)),
        0 <= region.at(r, c) < region.extent(),
{
    let i = region.at(r, c);
    vstd::arithmetic::div_mod::lemma_fundamental_div_mod_converse(
        i,
        region.stripwidth as int,
        r,
        region.x + c,
    );
    assert(r * region.stripwidth <= (region.height - 1) * region.stripwidth) by (nonlinear_arith)
        requires
            r <= region.height - 1,
    ;
    assert(0 <= r * region.stripwidth) by (nonlinear_arith)
        requires
            0 <= r,
    ;
}

/// A sample of the rectangle is stored at its position.
pub proof fn lemma_region_holds(region: Region, i: int)
    requires
        region.wf(),
        0 <= i,
        region.holds(i),
    ensures
        0 <= region.row(i) < region.height,
        0 <= region.col(i) < region.width,
        i == region.at(region.row(i), region.col(i)),
{
    vstd::arithmetic::div_mod::lemma_fundamental_div_mod(i, region.stripwidth as int);
    vstd::arithmetic::div_mod::lemma_div_pos_is_pos(i, region.stripwidth as int);
    vstd::arithmetic::mul::lemma_mul_is_commutative(region.stripwidth as int, region.row(i));
}

} // verus!
