//! Samples that are stored in a fixed number of bits.
use vstd::prelude::*;
use crate::text::{decimal, push_number, with_number};

verus! {

/// How samples are packed into bytes. A row starts at a whole byte.
#[derive(Debug, Clone, Copy, PartialEq, Eq)]
pub enum Packing {
    /// Two bytes, the low one first.
    Little16,
    /// Two samples of 12 bits in three bytes, the high bits first.
    Big12,
    /// Four samples of 10 bits in five bytes, the high bits first.
    Big10,
}

impl Packing {
    /// The number of bits of a sample.
    pub open spec fn depth(self) -> int {
        match self {
            Packing::Little16 => 16,
            Packing::Big12 => 12,
            Packing::Big10 => 10,
        }
    }

    /// The number of samples that share bytes.
    pub open spec fn group(self) -> int {
        match self {
            Packing::Little16 => 1,
            Packing::Big12 => 2,
            Packing::Big10 => 4,
        }
    }

    /// The number of bytes that a group of samples shares.
    pub open spec fn group_bytes(self) -> int {
        match self {
            Packing::Little16 => 2,
            Packing::Big12 => 3,
            Packing::Big10 => 5,
        }
    }

    /// Sample number `k` of the group that starts at `at`.
    pub open spec fn in_group(self, src: Seq<u8>, at: int, k: int) -> u16 {
        match self {
            Packing::Little16 => (src[at] + 256 * src[at + 1]) as u16,
            Packing::Big12 => if k == 0 {
                (16 * src[at] + src[at + 1] as int / 16) as u16
            } else {
                (256 * (src[at + 1] as int % 16) + src[at + 2]) as u16
            },
            Packing::Big10 => if k == 0 {
                (4 * src[at] + src[at + 1] as int / 64) as u16
            } else if k == 1 {
                (16 * (src[at + 1] as int % 64) + src[at + 2] as int / 16) as u16
            } else if k == 2 {
                (64 * (src[at + 2] as int % 16) + src[at + 3] as int / 4) as u16
            } else {
                (256 * (src[at + 3] as int % 4) + src[at + 4]) as u16
            },
        }
    }

    /// The sample in a column of a row that starts at `start`. It is 0 where the row ends, or the
    /// data, before its group is whole.
    pub open spec fn sample(self, src: Seq<u8>, start: int, width: int, col: int) -> u16 {
        let at = start + (col / self.group()) * self.group_bytes();
        if col < width - width % self.group() && at + self.group_bytes() <= src.len() {
            self.in_group(src, at, col % self.group())
        } else {
            0
        }
    }

    /// Where a row starts.
    pub open spec fn row_start(self, width: int, row: int) -> int {
        row * width * self.depth() / 8
    }

    /// The samples of `height` rows.
    pub open spec fn samples(self, src: Seq<u8>, width: nat, height: nat) -> Seq<u16> {
        Seq::new(
            width * height,
            |i: int|
                self.sample(
                    src,
                    self.row_start(width as int, i / width as int),
                    width as int,
                    i % width as int,
                ),
        )
    }

    fn read_sample(self, src: &[u8], start: usize, width: usize, col: usize) -> (value: u16)
        requires
            start <= src@.len(),
            col < width,
        ensures
            value == self.sample(src@, start as int, width as int, col as int),
    {
        let left: usize = src.len() - start;
        match self {
            Packing::Little16 => {
                if col < left / 2 {
                    let at: usize = start + 2 * col;
                    src[at] as u16 + 256 * (src[at + 1] as u16)
                } else {
                    0
                }
            },
            Packing::Big12 => {
                if col < width - width % 2 && col / 2 < left / 3 {
                    let at: usize = start + 3 * (col / 2);
                    if col % 2 == 0 {
                        16 * (src[at] as u16) + (src[at + 1] as u16) / 16
                    } else {
                        256 * ((src[at + 1] as u16) % 16) + src[at + 2] as u16
                    }
                } else {
                    0
                }
            },
            Packing::Big10 => {
                if col < width - width % 4 && col / 4 < left / 5 {
                    let at: usize = start + 5 * (col / 4);
                    match col % 4 {
                        0 => 4 * (src[at] as u16) + (src[at + 1] as u16) / 64,
                        1 => 16 * ((src[at + 1] as u16) % 64) + (src[at + 2] as u16) / 16,
                        2 => 64 * ((src[at + 2] as u16) % 16) + (src[at + 3] as u16) / 4,
                        _ => 256 * ((src[at + 3] as u16) % 4) + src[at + 4] as u16,
                    }
                } else {
                    0
                }
            },
        }
    }

    fn unpack(self, src: &[u8], width: usize, height: usize) -> (image: Vec<u16>)
        requires
            width * height <= usize::MAX,
        ensures
            image@ == self.samples(src@, width as nat, height as nat),
    {
        let depth: u128 = match self {
            Packing::Little16 => 16,
            Packing::Big12 => 12,
            Packing::Big10 => 10,
        };
        let ghost all = self.samples(src@, width as nat, height as nat);
        let count: usize = width * height;
        let mut image: Vec<u16> = Vec::new();
        let mut row: usize = 0;
        assert(0 * width == 0);
        while row < height && width > 0
            invariant
                depth == self.depth(),
                all == self.samples(src@, width as nat, height as nat),
                count == width * height,
                all.len() == count,
                row <= height,
                image@ =~= all.take(row * width),
                row * width <= count,
            decreases height - row,
        {
            proof {
                assert((row + 1) * width == row * width + width) by (nonlinear_arith);
                assert((row + 1) * width <= width * height) by (nonlinear_arith)
                    requires
                        row + 1 <= height,
                ;
                assert(0 <= row * width) by (nonlinear_arith);
                assert(row * width * depth <= 0xffff_ffff_ffff_ffff * 16) by (nonlinear_arith)
                    requires
                        0 <= row * width <= 0xffff_ffff_ffff_ffff,
                        depth <= 16,
                ;
            }
            let begin: u128 = (row * width) as u128 * depth / 8;
            let start: usize = if begin > src.len() as u128 {
                src.len()
            } else {
                begin as usize
            };
            let mut col: usize = 0;
            while col < width
                invariant
                    all == self.samples(src@, width as nat, height as nat),
                    count == width * height,
                    all.len() == count,
                    row < height,
                    col <= width,
                    start <= src@.len(),
                    begin == self.row_start(width as int, row as int),
                    start == if begin > src@.len() {
                        src@.len() as int
                    } else {
                        begin as int
                    },
                    0 <= row * width,
                    row * width + width <= count,
                    image@ =~= all.take(row * width + col),
                decreases width - col,
            {
                let value: u16 = self.read_sample(src, start, width, col);
                proof {
                    let i = row * width + col;
                    vstd::arithmetic::div_mod::lemma_fundamental_div_mod_converse(
                        i,
                        width as int,
                        row as int,
                        col as int,
                    );
                    assert(all[i] == self.sample(src@, begin as int, width as int, col as int));
                    if begin > src@.len() {
                        self.lemma_no_group(src@, begin as int, width as int, col as int);
                        self.lemma_no_group(src@, start as int, width as int, col as int);
                    }
                }
                image.push(value);
                col = col + 1;
            }
            row = row + 1;
        }
        proof {
            assert(row * width == width * height) by (nonlinear_arith)
                requires
                    row == height || width == 0,
            ;
            assert(image@ =~= all);
        }
        image
    }

    proof fn lemma_no_group(self, src: Seq<u8>, start: int, width: int, col: int)
        requires
            start >= src.len(),
            0 <= col < width,
        ensures
            self.sample(src, start, width, col) == 0,
    {
        assert(0 <= (col / self.group()) * self.group_bytes()) by (nonlinear_arith)
            requires
                0 <= col / self.group(),
                0 <= self.group_bytes(),
        ;
    }
}

/// What a dummy decode hands back in place of an image.
pub open spec fn dummy_image() -> Seq<u16> {
    seq![0u16]
}

/// What a dummy decode hands back in place of an image.
pub fn no_image() -> (image: Vec<u16>)
    ensures
        image@ == dummy_image(),
{
    let image: Vec<u16> = vec![0u16];
    assert(image@ =~= dummy_image());
    image
}

/// Samples of two bytes, the low one first.
pub fn decode_16le(src: &[u8], width: usize, height: usize, dummy: bool) -> (image: Vec<u16>)
    requires
        dummy || width * height <= usize::MAX,
    ensures
        image@ == if dummy {
            dummy_image()
        } else {
            Packing::Little16.samples(src@, width as nat, height as nat)
        },
{
    if dummy {
        return no_image();
    }
    Packing::Little16.unpack(src, width, height)
}

/// Samples of 12 bits, the high bits first.
pub fn decode_12be(src: &[u8], width: usize, height: usize, dummy: bool) -> (image: Vec<u16>)
    requires
        dummy || width * height <= usize::MAX,
    ensures
        image@ == if dummy {
            dummy_image()
        } else {
            Packing::Big12.samples(src@, width as nat, height as nat)
        },
{
    if dummy {
        return no_image();
    }
    Packing::Big12.unpack(src, width, height)
}

/// Samples of 10 bits, the high bits first.
pub fn decode_10le(src: &[u8], width: usize, height: usize, dummy: bool) -> (image: Vec<u16>)
    requires
        dummy || width * height <= usize::MAX,
    ensures
        image@ == if dummy {
            dummy_image()
        } else {
            Packing::Big10.samples(src@, width as nat, height as nat)
        },
{
    if dummy {
        return no_image();
    }
    Packing::Big10.unpack(src, width, height)
}

/// The image of 8-bit codes: one byte for each sample; or why there is none.
pub open spec fn codes_result(src: Seq<u8>, width: nat, height: nat) -> Result<Seq<u16>, Seq<char>> {
    let count = width * height;
    if count > usize::MAX {
        Err("DNG: 8-bit sample count overflowed"@)
    } else if src.len() < count {
        Err(
            "DNG: 8-bit strip contains "@ + decimal(src.len()) + " bytes, expected at least "@
                + decimal(count),
        )
    } else {
        Ok(Seq::new(count, |i: int| src[i] as u16))
    }
}

/// An image has been decoded as expected.
pub open spec fn same_image(res: Result<Vec<u16>, String>, expected: Result<
    Seq<u16>,
    Seq<char>,
>) -> bool {
    match (res, expected) {
        (Ok(image), Ok(samples)) => image@ == samples,
        (Err(text), Err(message)) => text@ == message,
        _ => false,
    }
}

/// Expands 8-bit codes, whether or not there is a table that gives them a meaning.
pub fn decode_8bit_codes(src: &[u8], width: usize, height: usize, dummy: bool) -> (res: Result<
    Vec<u16>,
    String,
>)
    ensures
        same_image(
            res,
            if dummy {
                Ok(dummy_image())
            } else {
                codes_result(src@, width as nat, height as nat)
            },
        ),
{
    if dummy {
        return Ok(no_image());
    }
    let count: usize = match width.checked_mul(height) {
        Some(count) => count,
        None => return Err("DNG: 8-bit sample count overflowed".to_string()),
    };
    if src.len() < count {
        let mut text: String = with_number(
            "DNG: 8-bit strip contains ",
            src.len(),
            " bytes, expected at least ",
        );
        push_number(&mut text, count);
        return Err(text);
    }
    let ghost all = Seq::new(count as nat, |i: int| src@[i] as u16);
    let mut image: Vec<u16> = Vec::new();
    let mut i: usize = 0;
    while i < count
        invariant
            i <= count <= src@.len(),
            all == Seq::new(count as nat, |i: int| src@[i] as u16),
            image@ =~= all.take(i as int),
        decreases count - i,
    {
        image.push(src[i] as u16);
        i = i + 1;
    }
    assert(image@ =~= all);
    Ok(image)
}

} // verus!
