//! What bit streams read of the bytes that were written.
use vstd::prelude::*;
use vstd::arithmetic::power2::pow2;
use crate::bits::{lemma_peek_bound, unstuffed, words_reversed, BitStream};

verus! {

/// Behind `m` bits, a stream goes on with the bits that stand there.
pub proof fn skipping_goes_on(s: BitStream, m: nat, i: nat)
    requires
        s.pos <= 8 * s.bytes.len(),
    ensures
        s.skip(m).bytes == s.bytes,
        s.skip(m).pos <= 8 * s.bytes.len(),
        s.pos + m <= 8 * s.bytes.len() ==> s.skip(m).pos == s.pos + m,
        s.skip(m).bit(i) == s.bit(m + i),
{
}

/// A number of bits is made up of its first ones and of those behind them.
pub proof fn numbers_are_made_up_of_parts(s: BitStream, m: nat, n: nat)
    requires
        s.pos <= 8 * s.bytes.len(),
    ensures
        s.peek(m + n) == s.peek(m) * pow2(n) + s.skip(m).peek(n),
    decreases n,
{
    vstd::arithmetic::power2::lemma2_to64();
    if n == 0 {
        assert(s.peek(m) * 1 == s.peek(m));
    } else {
        let k = (n - 1) as nat;
        numbers_are_made_up_of_parts(s, m, k);
        skipping_goes_on(s, m, k);
        vstd::arithmetic::power2::lemma_pow2_unfold(n);
        assert(2 * (s.peek(m) * pow2(k)) == s.peek(m) * (2 * pow2(k))) by (nonlinear_arith);
    }
}

/// Eight bits from the start of a byte on are that byte.
pub proof fn eight_bits_are_a_byte(s: BitStream, i: int)
    requires
        0 <= i < s.bytes.len(),
        s.pos == 8 * i,
    ensures
        s.peek(8) == s.bytes[i],
{
    let b = s.bytes[i];
    assert forall|k: nat| k < 8 implies #[trigger] s.bit(k) == ((b >> ((7 - k) as u8)) & 1) as nat by {
        let at = s.pos + k;
        assert(at as int / 8 == i && at as int % 8 == k);
    }
    reveal_with_fuel(BitStream::peek, 9);
    assert(b == 128 * ((b >> 7) & 1) + 64 * ((b >> 6) & 1) + 32 * ((b >> 5) & 1) + 16 * ((b >> 4) & 1)
        + 8 * ((b >> 3) & 1) + 4 * ((b >> 2) & 1) + 2 * ((b >> 1) & 1) + ((b >> 0) & 1))
        by (bit_vector);
    assert(s.bit(0) == ((b >> 7) & 1) as nat);
    assert(s.bit(1) == ((b >> 6) & 1) as nat);
    assert(s.bit(2) == ((b >> 5) & 1) as nat);
    assert(s.bit(3) == ((b >> 4) & 1) as nat);
    assert(s.bit(4) == ((b >> 3) & 1) as nat);
    assert(s.bit(5) == ((b >> 2) & 1) as nat);
    assert(s.bit(6) == ((b >> 1) & 1) as nat);
    assert(s.bit(7) == ((b >> 0) & 1) as nat);
}

/// The bits of a number that starts with a byte.
proof fn lemma_byte_first(s: BitStream, i: int, n: nat)
    requires
        0 <= i < s.bytes.len(),
        s.pos == 8 * i,
    ensures
        s.peek(8 + n) == s.bytes[i] * pow2(n) + (BitStream {
            bytes: s.bytes,
            pos: (8 * (i + 1)) as nat,
        }).peek(n),
{
    numbers_are_made_up_of_parts(s, 8, n);
    eight_bits_are_a_byte(s, i);
}

/// Behind the bytes there are zeros.
pub proof fn zeros_follow_the_bytes(s: BitStream, n: nat)
    requires
        s.pos >= 8 * s.bytes.len(),
    ensures
        s.peek(n) == 0,
    decreases n,
{
    if n > 0 {
        zeros_follow_the_bytes(s, (n - 1) as nat);
    }
}

/// The number of a little-endian word of 32 bits.
pub open spec fn little_endian_word(data: Seq<u8>, at: int) -> int {
    data[at] + 0x100 * data[at + 1] + 0x1_0000 * data[at + 2] + 0x100_0000 * data[at + 3]
}

/// Little-endian words of 32 bits are read one after the other, each from its most significant bit
/// on.
pub proof fn words_are_read_as_numbers(data: Seq<u8>, word: int)
    requires
        0 <= word,
        4 * word + 4 <= data.len(),
    ensures
        words_reversed(data).len() == 4 * (data.len() / 4),
        (BitStream { bytes: words_reversed(data), pos: (32 * word) as nat }).peek(32)
            == little_endian_word(data, 4 * word),
{
    let bytes = words_reversed(data);
    let s0 = BitStream { bytes, pos: (32 * word) as nat };
    let s1 = BitStream { bytes, pos: (8 * (4 * word + 1)) as nat };
    let s2 = BitStream { bytes, pos: (8 * (4 * word + 2)) as nat };
    let s3 = BitStream { bytes, pos: (8 * (4 * word + 3)) as nat };
    vstd::arithmetic::power2::lemma2_to64();
    lemma_byte_first(s0, 4 * word, 24);
    lemma_byte_first(s1, 4 * word + 1, 16);
    lemma_byte_first(s2, 4 * word + 2, 8);
    eight_bits_are_a_byte(s3, 4 * word + 3);
    assert(bytes[4 * word] == data[4 * word + 3]);
    assert(bytes[4 * word + 1] == data[4 * word + 2]);
    assert(bytes[4 * word + 2] == data[4 * word + 1]);
    assert(bytes[4 * word + 3] == data[4 * word]);
}

/// Entropy-coded bytes as JPEG stores them: a zero follows every `ff`.
pub open spec fn stuffed(bytes: Seq<u8>) -> Seq<u8>
    decreases bytes.len(),
{
    if bytes.len() == 0 {
        seq![]
    } else if bytes[0] == 0xff {
        seq![0xffu8, 0u8] + stuffed(bytes.skip(1))
    } else {
        seq![bytes[0]] + stuffed(bytes.skip(1))
    }
}

/// The bytes of a scan are read back as they were before they were stored, up to the marker that
/// follows them, whatever is behind it.
pub proof fn stored_bytes_are_read_back(bytes: Seq<u8>, marker: u8, rest: Seq<u8>)
    requires
        marker != 0,
    ensures
        unstuffed(stuffed(bytes) + seq![0xffu8, marker] + rest) == bytes,
        unstuffed(stuffed(bytes)) == bytes,
    decreases bytes.len(),
{
    let tail = seq![0xffu8, marker] + rest;
    let data = stuffed(bytes) + seq![0xffu8, marker] + rest;
    assert(data =~= stuffed(bytes) + tail);
    if bytes.len() == 0 {
        assert(data =~= tail);
        assert(data[0] == 0xff && data[1] == marker);
        assert(unstuffed(data) =~= bytes);
        assert(unstuffed(stuffed(bytes)) =~= bytes);
    } else {
        let others = bytes.skip(1);
        stored_bytes_are_read_back(others, marker, rest);
        let behind = stuffed(others) + seq![0xffu8, marker] + rest;
        if bytes[0] == 0xff {
            assert(data.skip(2) =~= behind);
            assert(stuffed(bytes).skip(2) =~= stuffed(others));
            assert(data[0] == 0xff && data[1] == 0);
            assert(unstuffed(data) =~= seq![0xffu8] + others);
            assert(unstuffed(stuffed(bytes)) =~= seq![0xffu8] + others);
        } else {
            assert(data.skip(1) =~= behind);
            assert(stuffed(bytes).skip(1) =~= stuffed(others));
            assert(data[0] == bytes[0]);
            assert(unstuffed(data) =~= seq![bytes[0]] + others);
            assert(unstuffed(stuffed(bytes)) =~= seq![bytes[0]] + others);
        }
        assert(bytes =~= seq![bytes[0]] + others);
    }
}

} // verus!
