//! What a lossless JPEG file says of its scan.
use vstd::prelude::*;
use vstd::arithmetic::power2::pow2;
use crate::ljpeg::huffman::{power_of_two, HuffCode, HuffTable};

verus! {

/// A component of the frame.
#[derive(Debug, Clone, Copy, PartialEq, Eq)]
pub struct JpegComponentInfo {
    /// The identifier that scans refer to.
    pub id: u8,
    /// The Huffman table that codes its differences.
    pub dc_tbl_num: usize,
    /// The horizontal sampling factor.
    pub super_h: usize,
    /// The vertical sampling factor.
    pub super_v: usize,
}

/// The frame header.
#[derive(Debug)]
pub struct SOFInfo {
    pub width: usize,
    pub height: usize,
    /// The number of components.
    pub cps: usize,
    /// The number of bits of a sample.
    pub precision: usize,
    pub components: Vec<JpegComponentInfo>,
}

/// A lossless JPEG file whose header was read.
#[derive(Debug)]
pub struct LjpegDecompressor<'a> {
    /// What follows the header: the scan.
    pub buffer: &'a [u8],
    pub sof: SOFInfo,
    pub predictor: usize,
    pub point_transform: usize,
    pub dhts: Vec<HuffTable>,
}

/// The contents of a [`LjpegDecompressor`].
pub struct Frame {
    pub buffer: Seq<u8>,
    pub width: usize,
    pub height: usize,
    pub cps: usize,
    pub precision: usize,
    pub components: Seq<JpegComponentInfo>,
    pub predictor: usize,
    pub point_transform: usize,
    pub dhts: Seq<HuffCode>,
}

impl<'a> View for LjpegDecompressor<'a> {
    type V = Frame;

    open spec fn view(&self) -> Frame {
        Frame {
            buffer: self.buffer@,
            width: self.sof.width,
            height: self.sof.height,
            cps: self.sof.cps,
            precision: self.sof.precision,
            components: self.sof.components@,
            predictor: self.predictor,
            point_transform: self.point_transform,
            dhts: Seq::new(self.dhts@.len(), |i: int| self.dhts@[i]@),
        }
    }
}

impl Frame {
    /// The header fits together: every component has its table, and a sample has at least one bit
    /// left after the point transform, and at most 16.
    pub open spec fn wf(self) -> bool {
        &&& self.components.len() == self.cps
        &&& forall|c: int|
            0 <= c < self.components.len() ==> (#[trigger] self.components[c]).dc_tbl_num
                < self.dhts.len()
        &&& forall|i: int| 0 <= i < self.dhts.len() ==> (#[trigger] self.dhts[i]).wf()
        &&& self.point_transform < self.precision <= 16
    }

    /// The code of a component.
    pub open spec fn table(self, component: int) -> HuffCode {
        self.dhts[self.components[component].dc_tbl_num as int]
    }

    /// The prediction where no sample precedes: the middle of the sample range.
    pub open spec fn base(self) -> i32 {
        pow2((self.precision - self.point_transform - 1) as nat) as i32
    }
}

impl<'a> LjpegDecompressor<'a> {
    /// The table of a component.
    pub fn table(&self, component: usize) -> (table: &HuffTable)
        requires
            self@.wf(),
            component < self@.cps,
        ensures
            table@ == self@.table(component as int),
            table@.wf(),
    {
        let info: JpegComponentInfo = self.sof.components[component];
        assert(info == self@.components[component as int]);
        let table: &HuffTable = &self.dhts[info.dc_tbl_num];
        assert(self@.dhts[info.dc_tbl_num as int] == table@);
        table
    }

    /// The prediction where no sample precedes.
    pub fn base(&self) -> (base: i32)
        requires
            self@.wf(),
        ensures
            base == self@.base(),
            0 < base <= 32768,
    {
        let bits: usize = self.sof.precision - self.point_transform - 1;
        proof {
            vstd::arithmetic::power2::lemma2_to64();
            vstd::arithmetic::power2::lemma_pow2_pos(bits as nat);
            if bits < 15 {
                vstd::arithmetic::power2::lemma_pow2_strictly_increases(bits as nat, 15);
            }
        }
        power_of_two(bits as u8) as i32
    }
}

} // verus!
