//! Decoding of a lossless JPEG file by the kind of its scan.
use vstd::prelude::*;
use crate::ljpeg::decompressors::{decode_hasselblad, decode_ljpeg_standard, decode_pairs,
    decode_squares};
use crate::ljpeg::frame::{Frame, JpegComponentInfo, LjpegDecompressor};
use crate::ljpeg::pairs::hasselblad_result;
use crate::ljpeg::scan::standard_result;
use crate::ljpeg::yuv::{fitted_result, Sampling};
use crate::region::Region;
use crate::text::same_result;

verus! {

impl Frame {
    /// The groups of a subsampled frame, by the sampling factors of its first component.
    pub open spec fn sampling(self) -> Option<Sampling> {
        let first = self.components[0];
        if first.super_h == 2 && first.super_v == 2 {
            Some(Sampling::Square)
        } else if first.super_h == 2 && first.super_v == 1 {
            Some(Sampling::Pair)
        } else {
            None
        }
    }

    /// What decoding the frame makes of a rectangle of an image, and the message if it fails. A
    /// subsampled frame and one of interleaved pairs fill the image from its start.
    pub open spec fn decoded(self, out: Seq<u16>, region: Region) -> (
        Seq<u16>,
        Result<(), Seq<char>>,
    ) {
        match self.sampling() {
            Some(sampling) => fitted_result(sampling, self, out, region.width, region.height),
            None => if self.predictor == 8 {
                if region.width == 0 {
                    (out, Err("ljpeg: destination has no columns"@))
                } else {
                    (hasselblad_result(self, out, region.width), Ok(()))
                }
            } else {
                standard_result(self, out, region)
            },
        }
    }
}

impl<'a> LjpegDecompressor<'a> {
    /// Decodes the scan into a rectangle of `out`: `width` samples from column `x` on, in each of
    /// the first `height` rows of `stripwidth` samples. A dummy decode leaves `out` as it is.
    pub fn decode(
        &self,
        out: &mut [u16],
        x: usize,
        stripwidth: usize,
        width: usize,
        height: usize,
        dummy: bool,
    ) -> (res: Result<(), String>)
        requires
            self@.wf(),
            1 <= self@.cps,
        ensures
            dummy ==> res is Ok && final(out)@ == old(out)@,
            !dummy ==> {
                let region = Region {
                    x: x as nat,
                    stripwidth: stripwidth as nat,
                    width: width as nat,
                    height: height as nat,
                };
                let (samples, expected) = self@.decoded(old(out)@, region);
                final(out)@ == samples && same_result(res, expected)
            },
    {
        if dummy {
            return Ok(());
        }
        let first: JpegComponentInfo = self.sof.components[0];
        if first.super_h == 2 && first.super_v == 2 {
            decode_squares(self, out, width, height)
        } else if first.super_h == 2 && first.super_v == 1 {
            decode_pairs(self, out, width, height)
        } else if self.predictor == 8 {
            if width == 0 {
                return Err("ljpeg: destination has no columns".to_string());
            }
            decode_hasselblad(self, out, width)
        } else {
            decode_ljpeg_standard(self, out, x, stripwidth, width, height)
        }
    }
}

/// Decoding a frame keeps the size of the image.
pub proof fn decode_keeps_the_size(frame: Frame, out: Seq<u16>, region: Region)
    ensures
        frame.decoded(out, region).0.len() == out.len(),
{
    if let Some(sampling) = frame.sampling() {
        crate::ljpeg::yuv::subsampled_decode_keeps_the_size(
            sampling,
            frame,
            out,
            region.width,
            region.height,
        );
    }
}

} // verus!
