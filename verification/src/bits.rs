//! Bit streams: bytes read bit by bit, the most significant bit of a byte first.
use vstd::prelude::*;

verus! {

/// A byte sequence and a position in it, counted in bits. Past the last byte every bit is zero.
pub struct BitStream {
    pub bytes: Seq<u8>,
    pub pos: nat,
}

impl BitStream {
    /// The bit that stands `i` bits behind the position.
    pub open spec fn bit(self, i: nat) -> nat {
        let at = self.pos + i;
        if at < 8 * self.bytes.len() {
            ((self.bytes[at as int / 8] >> ((7 - at as int % 8) as u8)) & 1) as nat
        } else {
            0
        }
    }

    /// The next `n` bits as a number, the first of them the most significant.
    pub open spec fn peek(self, n: nat) -> nat
        decreases n,
    {
        if n == 0 {
            0
        } else {
            2 * self.peek((n - 1) as nat) + self.bit((n - 1) as nat)
        }
    }

    /// The stream `n` bits further on; it stops at the end of the bytes.
    pub open spec fn skip(self, n: nat) -> BitStream {
        let end = 8 * self.bytes.len();
        BitStream {
            bytes: self.bytes,
            pos: if self.pos + n <= end {
                self.pos + n
            } else {
                end
            },
        }
    }
}

/// The entropy-coded bytes that JPEG data holds: every `ff 00` stands for `ff`, and the first
/// other `ff` (a marker, or the last byte) ends them.
pub open spec fn unstuffed(data: Seq<u8>) -> Seq<u8>
    decreases data.len(),
{
    if data.len() == 0 {
        seq![]
    } else if data[0] != 0xff {
        seq![data[0]] + unstuffed(data.skip(1))
    } else if data.len() >= 2 && data[1] == 0 {
        seq![0xffu8] + unstuffed(data.skip(2))
    } else {
        seq![]
    }
}

/// Whole little-endian 32-bit words, each turned into most-significant-byte-first order.
pub open spec fn words_reversed(data: Seq<u8>) -> Seq<u8> {
    Seq::new(
        (data.len() / 4) * 4,
        |i: int| data[4 * (i / 4) + 3 - i % 4],
    )
}

pub proof fn lemma_peek_bound(s: BitStream, n: nat)
    ensures
        s.peek(n) < vstd::arithmetic::power2::pow2(n),
    decreases n,
{
    vstd::arithmetic::power2::lemma2_to64();
    if n > 0 {
        lemma_peek_bound(s, (n - 1) as nat);
        vstd::arithmetic::power2::lemma_pow2_unfold(n);
        let at = s.pos + (n - 1);
        let b = s.bytes[at as int / 8];
        let k = (7 - at as int % 8) as u8;
        assert((b >> k) & 1 <= 1) by (bit_vector);
    }
}

/// A reader of bits.
#[derive(Debug)]
pub struct BitPump {
    bytes: Vec<u8>,
    byte: usize,
    bit: u8,
}

impl View for BitPump {
    type V = BitStream;

    closed spec fn view(&self) -> BitStream {
        BitStream { bytes: self.bytes@, pos: (8 * self.byte + self.bit) as nat }
    }
}

impl BitPump {
    /// The position lies within the bytes.
    pub closed spec fn wf(&self) -> bool {
        self.bit < 8 && (self.byte < self.bytes@.len() || (self.byte == self.bytes@.len()
            && self.bit == 0))
    }

    /// Reads the entropy-coded segment of a JPEG scan.
    pub fn jpeg(data: &[u8]) -> (pump: BitPump)
        ensures
            pump.wf(),
            pump@ == (BitStream { bytes: unstuffed(data@), pos: 0 }),
    {
        let mut bytes: Vec<u8> = Vec::new();
        let mut i: usize = 0;
        assert(data@.skip(0) =~= data@);
        while i < data.len()
            invariant
                i <= data@.len(),
                bytes@ + unstuffed(data@.skip(i as int)) =~= unstuffed(data@),
            decreases data@.len() - i,
        {
            let value: u8 = data[i];
            let ghost rest = data@.skip(i as int);
            assert(rest.skip(1) =~= data@.skip(i + 1));
            if value != 0xff {
                bytes.push(value);
                i = i + 1;
            } else if data.len() - i >= 2 && data[i + 1] == 0 {
                assert(rest.skip(2) =~= data@.skip(i + 2));
                bytes.push(value);
                i = i + 2;
            } else {
                assert(unstuffed(rest) =~= seq![]);
                assert(bytes@ =~= unstuffed(data@));
                return BitPump { bytes, byte: 0, bit: 0 };
            }
        }
        assert(bytes@ =~= unstuffed(data@));
        BitPump { bytes, byte: 0, bit: 0 }
    }

    /// Reads little-endian 32-bit words from their most significant bit on.
    pub fn msb32(data: &[u8]) -> (pump: BitPump)
        ensures
            pump.wf(),
            pump@ == (BitStream { bytes: words_reversed(data@), pos: 0 }),
    {
        let mut bytes: Vec<u8> = Vec::new();
        let len: usize = data.len();
        let words: usize = len / 4;
        let mut w: usize = 0;
        while w < words
            invariant
                w <= words,
                len == data@.len(),
                words == len / 4,
                bytes@ =~= words_reversed(data@).take(4 * w),
            decreases words - w,
        {
            bytes.push(data[4 * w + 3]);
            bytes.push(data[4 * w + 2]);
            bytes.push(data[4 * w + 1]);
            bytes.push(data[4 * w]);
            w = w + 1;
        }
        assert(bytes@ =~= words_reversed(data@));
        BitPump { bytes, byte: 0, bit: 0 }
    }

    fn next_bit(&mut self) -> (b: u32)
        requires
            old(self).wf(),
        ensures
            final(self).wf(),
            b == old(self)@.bit(0),
            b <= 1,
            final(self)@ == old(self)@.skip(1),
    {
        if self.byte >= self.bytes.len() {
            return 0;
        }
        let value: u8 = self.bytes[self.byte];
        let shift: u8 = 7 - self.bit;
        let b: u8 = (value >> shift) & 1;
        assert((value >> shift) & 1 <= 1) by (bit_vector);
        if self.bit == 7 {
            self.byte = self.byte + 1;
            self.bit = 0;
        } else {
            self.bit = self.bit + 1;
        }
        b as u32
    }

    /// Takes the next `num` bits as a number.
    pub fn get_bits(&mut self, num: u32) -> (value: u32)
        requires
            old(self).wf(),
            num <= 16,
        ensures
            final(self).wf(),
            value == old(self)@.peek(num as nat),
            value < vstd::arithmetic::power2::pow2(num as nat),
            final(self)@ == old(self)@.skip(num as nat),
    {
        let ghost start = self@;
        let mut value: u32 = 0;
        let mut i: u32 = 0;
        while i < num
            invariant
                i <= num,
                num <= 16,
                self.wf(),
                self@ == start.skip(i as nat),
                value == start.peek(i as nat),
                start.pos <= 8 * start.bytes.len(),
            decreases num - i,
        {
            proof {
                lemma_peek_bound(start, i as nat);
                vstd::arithmetic::power2::lemma2_to64();
                if i < 16 {
                    vstd::arithmetic::power2::lemma_pow2_strictly_increases(i as nat, 16);
                }
            }
            let b: u32 = self.next_bit();
            assert(b == start.bit(i as nat));
            value = 2 * value + b;
            i = i + 1;
        }
        proof {
            lemma_peek_bound(start, num as nat);
        }
        value
    }

    /// Looks at the next `num` bits without taking them.
    pub fn peek_bits(&self, num: u32) -> (value: u32)
        requires
            self.wf(),
            num <= 16,
        ensures
            value == self@.peek(num as nat),
            value < vstd::arithmetic::power2::pow2(num as nat),
    {
        let mut byte: usize = self.byte;
        let mut bit: u8 = self.bit;
        let mut value: u32 = 0;
        let mut i: u32 = 0;
        while i < num
            invariant
                i <= num,
                num <= 16,
                bit < 8,
                byte < self.bytes@.len() || (byte == self.bytes@.len() && bit == 0),
                self@.pos + i < 8 * self.bytes@.len() ==> 8 * byte + bit == self@.pos + i,
                self@.pos + i >= 8 * self.bytes@.len() ==> byte == self.bytes@.len(),
                value == self@.peek(i as nat),
            decreases num - i,
        {
            proof {
                lemma_peek_bound(self@, i as nat);
                vstd::arithmetic::power2::lemma2_to64();
                if i < 16 {
                    vstd::arithmetic::power2::lemma_pow2_strictly_increases(i as nat, 16);
                }
            }
            if byte < self.bytes.len() {
                let current: u8 = self.bytes[byte];
                let shift: u8 = 7 - bit;
                let b: u8 = (current >> shift) & 1;
                assert((current >> shift) & 1 <= 1) by (bit_vector);
                assert(b == self@.bit(i as nat));
                value = 2 * value + b as u32;
                if bit == 7 {
                    byte = byte + 1;
                    bit = 0;
                } else {
                    bit = bit + 1;
                }
            } else {
                value = 2 * value;
            }
            i = i + 1;
        }
        proof {
            lemma_peek_bound(self@, num as nat);
        }
        value
    }

    /// Drops the next `num` bits.
    pub fn consume_bits(&mut self, num: u32)
        requires
            old(self).wf(),
            num <= 16,
        ensures
            final(self).wf(),
            final(self)@ == old(self)@.skip(num as nat),
    {
        let _ = self.get_bits(num);
    }
}

} // verus!
