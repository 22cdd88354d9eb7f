//! Huffman codes of lossless JPEG.
use vstd::prelude::*;
use vstd::arithmetic::power2::pow2;
use crate::bits::{BitPump, BitStream};
use crate::text::with_number;
use crate::text::decimal;
use crate::text::push_with;

verus! {

/// A Huffman code as a table: what a code word followed by anything, taken as a number of `nbits`
/// bits, stands for. An entry holds the length of the code word and the category it codes, which
/// is the number of bits of the difference that follows. `(0, 0)` stands where no word matches.
pub struct HuffCode {
    pub nbits: nat,
    pub lookup: Seq<(u8, u8)>,
}

/// The number of code words of the first `n` lengths.
pub open spec fn code_count(counts: Seq<u8>, n: nat) -> nat
    decreases n,
{
    if n == 0 {
        0
    } else {
        code_count(counts, (n - 1) as nat) + counts[n - 1] as nat
    }
}

/// The longest length up to `n` that has a code word, 0 if none has.
pub open spec fn longest_code(counts: Seq<u8>, n: nat) -> nat
    decreases n,
{
    if n == 0 || counts[n - 1] != 0 {
        n
    } else {
        longest_code(counts, (n - 1) as nat)
    }
}

/// The lengths of the code words of the first `n` lengths, in order.
pub open spec fn code_lengths(counts: Seq<u8>, n: nat) -> Seq<u8>
    decreases n,
{
    if n == 0 {
        seq![]
    } else {
        code_lengths(counts, (n - 1) as nat) + Seq::new(counts[n - 1] as nat, |i: int| n as u8)
    }
}

/// The table entries that the first `k` code words fill: a word of `l` bits is the start of
/// 2^(nbits - l) numbers, and the words follow each other without gaps.
pub open spec fn filled(lengths: Seq<u8>, values: Seq<u8>, nbits: nat, k: nat) -> Seq<(u8, u8)>
    decreases k,
{
    if k == 0 {
        seq![]
    } else {
        filled(lengths, values, nbits, (k - 1) as nat) + Seq::new(
            pow2((nbits - lengths[k - 1]) as nat),
            |i: int| (lengths[k - 1], values[k - 1]),
        )
    }
}

/// The entries that the code of a DHT segment fills.
pub open spec fn code_entries(counts: Seq<u8>, values: Seq<u8>) -> Seq<(u8, u8)> {
    filled(
        code_lengths(counts, 16),
        values,
        longest_code(counts, 16),
        code_count(counts, 16),
    )
}

/// The code of a DHT segment.
pub open spec fn huff_code(counts: Seq<u8>, values: Seq<u8>) -> HuffCode {
    let nbits = longest_code(counts, 16);
    let entries = code_entries(counts, values);
    HuffCode {
        nbits,
        lookup: entries + Seq::new(
            (pow2(nbits) - entries.len()) as nat,
            |i: int| (0u8, 0u8),
        ),
    }
}

/// Every used value names a category up to 16.
pub open spec fn categories_valid(values: Seq<u8>, n: nat) -> bool {
    forall|i: int| 0 <= i < n ==> #[trigger] values[i] <= 16
}

/// The difference of category `n` at the head of a stream: `n` bits, which count up from
/// -(2^n - 1) while the first is 0 and from 2^(n - 1) while it is 1. Category 16 has no bits and
/// stands for -32768.
pub open spec fn difference(s: BitStream, n: u8) -> int {
    if n == 0 {
        0
    } else if n == 16 {
        -32768
    } else {
        let v = s.peek(n as nat);
        if v < pow2((n - 1) as nat) {
            v - (pow2(n as nat) - 1)
        } else {
            v as int
        }
    }
}

/// The stream behind a difference of category `n`.
pub open spec fn after_difference(s: BitStream, n: u8) -> BitStream {
    if n == 16 {
        s
    } else {
        s.skip(n as nat)
    }
}

impl HuffCode {
    pub open spec fn wf(self) -> bool {
        &&& self.nbits <= 16
        &&& self.lookup.len() == pow2(self.nbits)
        &&& forall|i: int|
            0 <= i < self.lookup.len() ==> (#[trigger] self.lookup[i]).0 <= 16 && self.lookup[i].1
                <= 16
    }

    /// The code word at the head of a stream: its length and its category.
    pub open spec fn symbol(self, s: BitStream) -> (u8, u8) {
        self.lookup[s.peek(self.nbits) as int]
    }

    /// The difference at the head of a stream and the stream behind it; `None` where no code word
    /// matches.
    pub open spec fn decode(self, s: BitStream) -> Option<(int, BitStream)> {
        let symbol = self.symbol(s);
        if symbol.0 == 0 {
            None
        } else {
            let rest = s.skip(symbol.0 as nat);
            Some((difference(rest, symbol.1), after_difference(rest, symbol.1)))
        }
    }
}

/// What is said where no code word matches.
pub open spec fn no_code_message() -> Seq<char> {
    "ljpeg: no Huffman code matches"@
}

pub proof fn lemma_difference_range(s: BitStream, n: u8)
    requires
        n <= 16,
    ensures
        -32768 <= difference(s, n) <= 32767,
{
    vstd::arithmetic::power2::lemma2_to64();
    if 0 < n < 16 {
        crate::bits::lemma_peek_bound(s, n as nat);
        if n < 15 {
            vstd::arithmetic::power2::lemma_pow2_strictly_increases(n as nat, 15);
        }
    }
}

proof fn lemma_code_lengths(counts: Seq<u8>, n: nat)
    requires
        n <= counts.len(),
        n <= 16,
    ensures
        code_lengths(counts, n).len() == code_count(counts, n),
        forall|i: int| 0 <= i < code_count(counts, n) ==> 1 <= #[trigger] code_lengths(counts, n)[i]
            <= longest_code(counts, n),
    decreases n,
{
    if n > 0 {
        lemma_code_lengths(counts, (n - 1) as nat);
        lemma_longest(counts, n);
        lemma_longest(counts, (n - 1) as nat);
    }
}

proof fn lemma_longest(counts: Seq<u8>, n: nat)
    ensures
        longest_code(counts, n) <= n,
    decreases n,
{
    if n > 0 && counts[n - 1] == 0 {
        lemma_longest(counts, (n - 1) as nat);
    }
}

proof fn lemma_filled(lengths: Seq<u8>, values: Seq<u8>, nbits: nat, k: nat)
    requires
        k <= lengths.len(),
        k <= values.len(),
        forall|i: int| 0 <= i < k ==> #[trigger] lengths[i] <= 16,
        categories_valid(values, k),
    ensures
        forall|i: int|
            0 <= i < filled(lengths, values, nbits, k).len() ==> (#[trigger] filled(
                lengths,
                values,
                nbits,
                k,
            )[i]).0 <= 16 && filled(lengths, values, nbits, k)[i].1 <= 16,
    decreases k,
{
    if k > 0 {
        assert(lengths[k - 1] <= 16 && values[k - 1] <= 16);
        lemma_filled(lengths, values, nbits, (k - 1) as nat);
        let before = filled(lengths, values, nbits, (k - 1) as nat);
        let all = filled(lengths, values, nbits, k);
        assert forall|i: int| 0 <= i < all.len() implies (#[trigger] all[i]).0 <= 16 && all[i].1
            <= 16 by {
            if i < before.len() {
                assert(all[i] == before[i]);
            }
        }
    }
}

proof fn lemma_filled_grows(lengths: Seq<u8>, values: Seq<u8>, nbits: nat, j: nat, k: nat)
    requires
        j <= k,
    ensures
        filled(lengths, values, nbits, j).len() <= filled(lengths, values, nbits, k).len(),
    decreases k,
{
    if j < k {
        lemma_filled_grows(lengths, values, nbits, j, (k - 1) as nat);
    }
}

/// 2^n.
pub fn power_of_two(n: u8) -> (p: usize)
    requires
        n <= 16,
    ensures
        p == pow2(n as nat),
        p <= 65536,
{
    proof {
        vstd::arithmetic::power2::lemma2_to64();
        if n < 16 {
            vstd::arithmetic::power2::lemma_pow2_strictly_increases(n as nat, 16);
        }
        vstd::bits::lemma_u32_shl_is_mul(1u32, n as u32);
    }
    (1u32 << (n as u32)) as usize
}

/// A Huffman code, ready for decoding.
#[derive(Debug)]
pub struct HuffTable {
    nbits: u8,
    lookup: Vec<(u8, u8)>,
}

impl View for HuffTable {
    type V = HuffCode;

    closed spec fn view(&self) -> HuffCode {
        HuffCode { nbits: self.nbits as nat, lookup: self.lookup@ }
    }
}

/// The message for a segment that holds fewer values than code words.
pub open spec fn few_values_message(codes: nat, values: nat) -> Seq<char> {
    "ljpeg: Huffman table has "@ + decimal(codes) + " codes but "@ + decimal(values) + " values"@
}

/// The message for a category above 16.
pub open spec fn category_message(value: nat) -> Seq<char> {
    "ljpeg: Huffman table codes a difference of "@ + decimal(value) + " bits"@
}

/// The message for lengths that no prefix code has.
pub open spec fn overfull_message() -> Seq<char> {
    "ljpeg: Huffman code lengths are not those of a prefix code"@
}

/// What [`HuffTable::new`] makes of a DHT segment.
pub open spec fn huff_table_result(counts: Seq<u8>, values: Seq<u8>) -> Result<HuffCode, Seq<char>> {
    let codes = code_count(counts, 16);
    if codes > values.len() {
        Err(few_values_message(codes, values.len()))
    } else if !categories_valid(values, codes) {
        let first = choose|i: int|
            0 <= i < codes && #[trigger] values[i] > 16 && categories_valid(values, i as nat);
        Err(category_message(values[first] as nat))
    } else if code_entries(counts, values).len() > pow2(longest_code(counts, 16)) {
        Err(overfull_message())
    } else {
        Ok(huff_code(counts, values))
    }
}

/// The table of a segment that defines no code.
pub open spec fn no_codes() -> HuffCode {
    HuffCode { nbits: 0, lookup: seq![(0u8, 0u8)] }
}

impl HuffTable {
    /// The table without code words.
    pub fn empty() -> (table: HuffTable)
        ensures
            table@ == no_codes(),
            table@.wf(),
    {
        proof {
            vstd::arithmetic::power2::lemma2_to64();
        }
        let lookup: Vec<(u8, u8)> = vec![(0u8, 0u8)];
        assert(lookup@ =~= seq![(0u8, 0u8)]);
        HuffTable { nbits: 0, lookup }
    }

    /// The table of a DHT segment: the number of code words of each length from 1 to 16, and the
    /// categories that the words stand for.
    pub fn new(counts: [u8; 16], values: &[u8]) -> (res: Result<HuffTable, String>)
        ensures
            match (res, huff_table_result(counts@, values@)) {
                (Ok(table), Ok(code)) => table@ == code && code.wf(),
                (Err(text), Err(message)) => text@ == message,
                _ => false,
            },
    {
        let mut codes: usize = 0;
        let mut nbits: u8 = 0;
        let mut lengths: Vec<u8> = Vec::new();
        let mut n: usize = 0;
        while n < 16
            invariant
                n <= 16,
                codes == code_count(counts@, n as nat),
                codes <= 255 * n,
                nbits == longest_code(counts@, n as nat),
                lengths@ == code_lengths(counts@, n as nat),
            decreases 16 - n,
        {
            let count: u8 = counts[n];
            let ghost before = lengths@;
            let mut i: u8 = 0;
            while i < count
                invariant
                    i <= count,
                    n < 16,
                    lengths@ =~= before + Seq::new(i as nat, |j: int| (n + 1) as u8),
                decreases count - i,
            {
                lengths.push((n + 1) as u8);
                i = i + 1;
            }
            if count != 0 {
                nbits = (n + 1) as u8;
            }
            codes = codes + count as usize;
            n = n + 1;
            assert(lengths@ =~= code_lengths(counts@, n as nat));
        }
        if codes > values.len() {
            let mut text: String = with_number("ljpeg: Huffman table has ", codes, " codes but ");
            push_with(&mut text, values.len(), " values");
            return Err(text);
        }
        let mut k: usize = 0;
        while k < codes
            invariant
                k <= codes <= values@.len(),
                codes == code_count(counts@, 16),
                categories_valid(values@, k as nat),
            decreases codes - k,
        {
            if values[k] > 16 {
                proof {
                    let first = choose|i: int|
                        0 <= i < codes && #[trigger] values@[i] > 16 && categories_valid(
                            values@,
                            i as nat,
                        );
                    assert(values@[k as int] > 16 && categories_valid(values@, k as nat));
                    assert(0 <= first < codes && values@[first] > 16 && categories_valid(
                        values@,
                        first as nat,
                    ));
                    assert(first == k);
                }
                return Err(
                    with_number("ljpeg: Huffman table codes a difference of ", values[k] as usize, " bits"),
                );
            }
            k = k + 1;
        }
        proof {
            lemma_code_lengths(counts@, 16);
            lemma_longest(counts@, 16);
        }
        let size: usize = power_of_two(nbits);
        let mut lookup: Vec<(u8, u8)> = Vec::new();
        let ghost all = code_lengths(counts@, 16);
        k = 0;
        while k < codes
            invariant
                k <= codes <= values@.len(),
                codes == code_count(counts@, 16),
                nbits == longest_code(counts@, 16),
                nbits <= 16,
                size == pow2(nbits as nat),
                size <= 65536,
                all == code_lengths(counts@, 16),
                all == lengths@,
                all.len() == codes,
                forall|i: int| 0 <= i < codes ==> 1 <= #[trigger] all[i] <= nbits,
                categories_valid(values@, codes as nat),
                lookup@ == filled(all, values@, nbits as nat, k as nat),
                lookup@.len() <= size,
            decreases codes - k,
        {
            let length: u8 = lengths[k];
            let value: u8 = values[k];
            let block: usize = power_of_two(nbits - length);
            let ghost before = lookup@;
            if block > size - lookup.len() {
                proof {
                    lemma_filled_grows(all, values@, nbits as nat, (k + 1) as nat, codes as nat);
                }
                return Err("ljpeg: Huffman code lengths are not those of a prefix code".to_string());
            }
            let mut i: usize = 0;
            while i < block
                invariant
                    i <= block,
                    lookup@ =~= before + Seq::new(i as nat, |j: int| (length, value)),
                decreases block - i,
            {
                lookup.push((length, value));
                i = i + 1;
            }
            k = k + 1;
            assert(lookup@ =~= filled(all, values@, nbits as nat, k as nat));
        }
        let ghost entries = lookup@;
        while lookup.len() < size
            invariant
                entries.len() <= lookup@.len() <= size,
                lookup@ =~= entries + Seq::new(
                    (lookup@.len() - entries.len()) as nat,
                    |j: int| (0u8, 0u8),
                ),
            decreases size - lookup@.len(),
        {
            lookup.push((0u8, 0u8));
        }
        proof {
            assert(lookup@ =~= huff_code(counts@, values@).lookup);
            lemma_filled(all, values@, nbits as nat, codes as nat);
        }
        Ok(HuffTable { nbits, lookup })
    }

    /// Takes a code word: its length and its category, `(0, 0)` where none matches.
    pub fn huff_len(&self, pump: &mut BitPump) -> (symbol: (u8, u8))
        requires
            self@.wf(),
            old(pump).wf(),
        ensures
            symbol == self@.symbol(old(pump)@),
            symbol.0 <= 16,
            symbol.1 <= 16,
            final(pump).wf(),
            final(pump)@ == old(pump)@.skip(symbol.0 as nat),
    {
        let code: u32 = pump.peek_bits(self.nbits as u32);
        assert(code < self@.lookup.len());
        let symbol: (u8, u8) = self.lookup[code as usize];
        assert(symbol == self@.lookup[code as int]);
        pump.consume_bits(symbol.0 as u32);
        symbol
    }

    /// Takes the difference of the category that a code word named.
    pub fn huff_diff(&self, pump: &mut BitPump, symbol: (u8, u8)) -> (diff: i32)
        requires
            old(pump).wf(),
            symbol.1 <= 16,
        ensures
            diff == difference(old(pump)@, symbol.1),
            -32768 <= diff <= 32767,
            final(pump).wf(),
            final(pump)@ == after_difference(old(pump)@, symbol.1),
    {
        let n: u8 = symbol.1;
        proof {
            lemma_difference_range(pump@, n);
        }
        if n == 0 {
            let _ = pump.get_bits(0);
            return 0;
        }
        if n == 16 {
            return -32768;
        }
        let half: usize = power_of_two(n - 1);
        let full: usize = power_of_two(n);
        let value: u32 = pump.get_bits(n as u32);
        if (value as usize) < half {
            value as i32 - (full as i32 - 1)
        } else {
            value as i32
        }
    }

    /// Takes a code word and the difference that follows it.
    pub fn huff_decode(&self, pump: &mut BitPump) -> (res: Result<i32, String>)
        requires
            self@.wf(),
            old(pump).wf(),
        ensures
            final(pump).wf(),
            match self@.decode(old(pump)@) {
                Some((diff, rest)) => res == Ok::<i32, String>(diff as i32) && -32768 <= diff
                    <= 32767 && final(pump)@ == rest,
                None => res matches Err(text) && text@ == no_code_message(),
            },
    {
        let symbol: (u8, u8) = self.huff_len(pump);
        if symbol.0 == 0 {
            return Err("ljpeg: no Huffman code matches".to_string());
        }
        Ok(self.huff_diff(pump, symbol))
    }
}

} // verus!
