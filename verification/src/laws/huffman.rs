//! What Huffman codes read of the differences that were written.
use vstd::prelude::*;
use vstd::arithmetic::power2::pow2;
use crate::bits::{lemma_peek_bound, BitStream};
use crate::laws::bits::numbers_are_made_up_of_parts;
use crate::ljpeg::huffman::{after_difference, code_count, code_entries, code_lengths, difference, filled,
    huff_table_result, longest_code, no_codes};

verus! {

/// The number of code words that are shorter than `l` bits, of which there are as many of each
/// length as a table states.
pub open spec fn shorter_words(counts: Seq<u8>, l: nat) -> nat
    decreases l,
{
    if l <= 1 {
        0
    } else {
        shorter_words(counts, (l - 1) as nat) + counts[l - 2] as nat
    }
}

/// The first code word of `l` bits: the number behind the last word that is a bit shorter, with a
/// zero behind it.
pub open spec fn first_word(counts: Seq<u8>, l: nat) -> nat
    decreases l,
{
    if l <= 1 {
        0
    } else {
        2 * (first_word(counts, (l - 1) as nat) + counts[l - 2] as nat)
    }
}

proof fn lemma_counts(counts: Seq<u8>, l: nat)
    requires
        1 <= l,
    ensures
        code_count(counts, (l - 1) as nat) == shorter_words(counts, l),
    decreases l,
{
    if l > 1 {
        lemma_counts(counts, (l - 1) as nat);
    }
}

proof fn lemma_count_grows(counts: Seq<u8>, m: nat, n: nat)
    requires
        m <= n,
    ensures
        code_count(counts, m) <= code_count(counts, n),
    decreases n,
{
    if m < n {
        lemma_count_grows(counts, m, (n - 1) as nat);
    }
}

/// The words of `l` bits stand behind the shorter ones.
proof fn lemma_length_at(counts: Seq<u8>, l: nat, j: int, n: nat)
    requires
        1 <= l <= n <= 16,
        counts.len() == 16,
        0 <= j < counts[l - 1],
    ensures
        code_lengths(counts, n).len() == code_count(counts, n),
        code_count(counts, (l - 1) as nat) + j < code_count(counts, n),
        code_lengths(counts, n)[code_count(counts, (l - 1) as nat) + j] == l,
    decreases n,
{
    lemma_lengths_len(counts, n);
    lemma_lengths_len(counts, (n - 1) as nat);
    if l < n {
        lemma_length_at(counts, l, j, (n - 1) as nat);
    }
}

proof fn lemma_lengths_len(counts: Seq<u8>, n: nat)
    ensures
        code_lengths(counts, n).len() == code_count(counts, n),
    decreases n,
{
    if n > 0 {
        lemma_lengths_len(counts, (n - 1) as nat);
    }
}

/// A length that has words is not above the longest.
proof fn lemma_longest_holds(counts: Seq<u8>, l: nat, n: nat)
    requires
        1 <= l <= n,
    ensures
        counts[l - 1] != 0 ==> l <= longest_code(counts, n),
        longest_code(counts, n) <= n,
        longest_code(counts, n) > 0 ==> counts[longest_code(counts, n) - 1] != 0,
    decreases n,
{
    assert(longest_code(counts, 0) == 0);
    if counts[n - 1] == 0 && n > 1 {
        if l < n {
            lemma_longest_holds(counts, l, (n - 1) as nat);
        } else {
            lemma_longest_holds(counts, 1, (n - 1) as nat);
        }
    }
}

/// No word is longer than the longest.
proof fn lemma_no_longer(counts: Seq<u8>, n: nat)
    ensures
        code_count(counts, n) == code_count(counts, longest_code(counts, n)),
    decreases n,
{
    if n > 0 && counts[n - 1] == 0 {
        lemma_no_longer(counts, (n - 1) as nat);
    }
}

/// What the first words fill stays when more is filled.
proof fn lemma_filled_prefix(lengths: Seq<u8>, values: Seq<u8>, nbits: nat, j: nat, k: nat)
    requires
        j <= k,
    ensures
        filled(lengths, values, nbits, j).len() <= filled(lengths, values, nbits, k).len(),
        forall|i: int|
            0 <= i < filled(lengths, values, nbits, j).len() ==> #[trigger] filled(
                lengths,
                values,
                nbits,
                k,
            )[i] == filled(lengths, values, nbits, j)[i],
    decreases k,
{
    if j < k {
        lemma_filled_prefix(lengths, values, nbits, j, (k - 1) as nat);
    }
}

/// The words before word number `j` of `l` bits fill what numbers below that word start with.
proof fn lemma_filled_len(counts: Seq<u8>, values: Seq<u8>, nbits: nat, l: nat, j: nat)
    requires
        counts.len() == 16,
        1 <= l <= nbits <= 16,
        j <= counts[l - 1],
    ensures
        filled(code_lengths(counts, 16), values, nbits, shorter_words(counts, l) + j).len() == (
        first_word(counts, l) + j) * pow2((nbits - l) as nat),
    decreases l, j,
{
    let lengths = code_lengths(counts, 16);
    lemma_counts(counts, l);
    vstd::arithmetic::power2::lemma2_to64();
    let p = pow2((nbits - l) as nat);
    if j > 0 {
        let m = (j - 1) as nat;
        lemma_filled_len(counts, values, nbits, l, m);
        lemma_length_at(counts, l, m as int, 16);
        let k = (shorter_words(counts, l) + j) as nat;
        assert(lengths[k - 1] == l);
        assert((k - 1) as nat == shorter_words(counts, l) + m);
        assert((first_word(counts, l) + j) * p == (first_word(counts, l) + m) * p + p)
            by (nonlinear_arith)
            requires
                m == j - 1,
        ;
    } else if l > 1 {
        let before = counts[l - 2] as nat;
        lemma_filled_len(counts, values, nbits, (l - 1) as nat, before);
        vstd::arithmetic::power2::lemma_pow2_unfold((nbits - l + 1) as nat);
        let q = first_word(counts, (l - 1) as nat) + before;
        assert(q * (2 * p) == (2 * q) * p) by (nonlinear_arith);
    } else {
        assert((first_word(counts, l) + j) * p == 0) by (nonlinear_arith)
            requires
                first_word(counts, l) + j == 0,
        ;
    }
}

/// The longest number that starts with the bits of a stream.
proof fn lemma_start(s: BitStream, l: nat, nbits: nat)
    requires
        s.pos <= 8 * s.bytes.len(),
        l <= nbits,
    ensures
        s.peek(l) * pow2((nbits - l) as nat) <= s.peek(nbits) < (s.peek(l) + 1) * pow2(
            (nbits - l) as nat,
        ),
{
    let n = (nbits - l) as nat;
    numbers_are_made_up_of_parts(s, l, n);
    lemma_peek_bound(s.skip(l), n);
    assert((s.peek(l) + 1) * pow2(n) == s.peek(l) * pow2(n) + pow2(n)) by (nonlinear_arith);
}

/// A code word at the head of a stream is known by its bits, and stands for its value: the words of
/// a length are numbers one after the other, from the first one of that length on, and the values
/// belong to the words by their lengths and numbers.
pub proof fn code_words_stand_for_their_values(
    counts: Seq<u8>,
    values: Seq<u8>,
    s: BitStream,
    l: nat,
    j: nat,
)
    requires
        counts.len() == 16,
        huff_table_result(counts, values) is Ok,
        s.pos <= 8 * s.bytes.len(),
        1 <= l <= 16,
        j < counts[l - 1],
        s.peek(l) == first_word(counts, l) + j,
    ensures
        (huff_table_result(counts, values)->Ok_0).symbol(s) == (
            l as u8,
            values[(shorter_words(counts, l) + j) as int],
        ),
{
    let code = huff_table_result(counts, values)->Ok_0;
    let nbits = longest_code(counts, 16);
    let lengths = code_lengths(counts, 16);
    lemma_longest_holds(counts, l, 16);
    lemma_counts(counts, l);
    lemma_length_at(counts, l, j as int, 16);
    lemma_filled_len(counts, values, nbits, l, j);
    lemma_filled_len(counts, values, nbits, l, j + 1);
    let k = shorter_words(counts, l) + j;
    lemma_filled_prefix(lengths, values, nbits, k + 1, code_count(counts, 16));
    lemma_start(s, l, nbits);
    let i = s.peek(nbits) as int;
    let before = filled(lengths, values, nbits, k);
    let all = filled(lengths, values, nbits, k + 1);
    assert(((k + 1) - 1) as nat == k);
    assert(before.len() <= i < all.len());
    assert(all[i] == (lengths[k as int], values[k as int]));
    assert(code_entries(counts, values)[i] == all[i]);
    assert(code.lookup[i] == code_entries(counts, values)[i]);
}

/// The bits at the head of a stream are none of the code words of `l` bits.
pub open spec fn is_no_word(counts: Seq<u8>, s: BitStream, l: nat) -> bool {
    s.peek(l) < first_word(counts, l) || s.peek(l) >= first_word(counts, l) + counts[l - 1]
}

proof fn lemma_behind_words(counts: Seq<u8>, values: Seq<u8>, nbits: nat, s: BitStream, l: nat)
    requires
        counts.len() == 16,
        1 <= l <= nbits <= 16,
        s.pos <= 8 * s.bytes.len(),
        forall|n: nat| 1 <= n <= 16 ==> #[trigger] is_no_word(counts, s, n),
    ensures
        s.peek(nbits) >= (first_word(counts, l) + counts[l - 1]) * pow2((nbits - l) as nat),
    decreases l,
{
    let p = pow2((nbits - l) as nat);
    let first = first_word(counts, l);
    let word = s.peek(l);
    lemma_start(s, l, nbits);
    assert(s.peek(nbits) >= first * p) by {
        if l > 1 {
            lemma_behind_words(counts, values, nbits, s, (l - 1) as nat);
            vstd::arithmetic::power2::lemma_pow2_unfold((nbits - l + 1) as nat);
            let q = first_word(counts, (l - 1) as nat) + counts[l - 2];
            assert(q * (2 * p) == (2 * q) * p) by (nonlinear_arith);
        } else {
            assert(first * p == 0) by (nonlinear_arith)
                requires
                    first == 0,
            ;
        }
    }
    assert(word >= first) by (nonlinear_arith)
        requires
            first * p <= s.peek(nbits),
            s.peek(nbits) < (word + 1) * p,
    ;
    assert(is_no_word(counts, s, l));
    let behind = first + counts[l - 1];
    assert(word * p >= behind * p) by (nonlinear_arith)
        requires
            word >= behind,
            p >= 0,
    ;
}

/// Where the head of a stream is no code word of any length, nothing is decoded.
pub proof fn other_bits_stand_for_nothing(counts: Seq<u8>, values: Seq<u8>, s: BitStream)
    requires
        counts.len() == 16,
        huff_table_result(counts, values) is Ok,
        s.pos <= 8 * s.bytes.len(),
        forall|l: nat| 1 <= l <= 16 ==> #[trigger] is_no_word(counts, s, l),
    ensures
        (huff_table_result(counts, values)->Ok_0).decode(s) is None,
{
    let code = huff_table_result(counts, values)->Ok_0;
    let nbits = longest_code(counts, 16);
    lemma_longest_holds(counts, 1, 16);
    lemma_no_longer(counts, 16);
    lemma_peek_bound(s, nbits);
    vstd::arithmetic::power2::lemma2_to64();
    let i = s.peek(nbits) as int;
    let entries = code_entries(counts, values);
    if nbits > 0 {
        lemma_behind_words(counts, values, nbits, s, nbits);
        lemma_filled_len(counts, values, nbits, nbits, counts[nbits - 1] as nat);
        lemma_counts(counts, nbits);
        assert(code_count(counts, nbits) == shorter_words(counts, nbits) + counts[nbits - 1]);
        assert(i >= entries.len());
    } else {
        assert(code_count(counts, 16) == 0);
        assert(entries.len() == 0);
    }
    assert(code.lookup[i] == (0u8, 0u8));
}

/// The bits of a difference that is not zero, of which there are as many as its magnitude has: the
/// number itself, or what is one less than its magnitude short of all ones.
pub open spec fn is_difference(s: BitStream, n: u8, d: int) -> bool {
    if n == 0 {
        d == 0
    } else if n == 16 {
        d == -32768
    } else {
        &&& n < 16
        &&& d > 0 ==> pow2((n - 1) as nat) <= d < pow2(n as nat) && s.peek(n as nat) == d
        &&& d <= 0 ==> pow2((n - 1) as nat) <= -d < pow2(n as nat) && s.peek(n as nat) == pow2(
            n as nat,
        ) - 1 + d
    }
}

/// A difference that was written is read back, and the stream goes on behind its bits.
pub proof fn differences_are_read_back(s: BitStream, n: u8, d: int)
    requires
        is_difference(s, n, d),
        s.pos + n <= 8 * s.bytes.len(),
    ensures
        difference(s, n) == d,
        after_difference(s, n) == (BitStream {
            bytes: s.bytes,
            pos: (s.pos + if n == 16 {
                0
            } else {
                n as int
            }) as nat,
        }),
{
    if 0 < n < 16 {
        vstd::arithmetic::power2::lemma_pow2_unfold(n as nat);
    }
}

/// A difference that was written as the code word of its number of bits, followed by those bits, is
/// read back, and the stream goes on behind them.
pub proof fn coded_differences_are_read_back(
    counts: Seq<u8>,
    values: Seq<u8>,
    s: BitStream,
    l: nat,
    j: nat,
    d: int,
)
    requires
        counts.len() == 16,
        huff_table_result(counts, values) is Ok,
        1 <= l <= 16,
        j < counts[l - 1],
        s.pos + l + values[(shorter_words(counts, l) + j) as int] <= 8 * s.bytes.len(),
        s.peek(l) == first_word(counts, l) + j,
        is_difference(
            (BitStream { bytes: s.bytes, pos: s.pos + l }),
            values[(shorter_words(counts, l) + j) as int],
            d,
        ),
    ensures
        ({
            let n = values[(shorter_words(counts, l) + j) as int];
            let end = s.pos + l + if n == 16 {
                0
            } else {
                n as int
            };
            (huff_table_result(counts, values)->Ok_0).decode(s) == Some(
                (d, BitStream { bytes: s.bytes, pos: end as nat }),
            )
        }),
{
    code_words_stand_for_their_values(counts, values, s, l, j);
    let n = values[(shorter_words(counts, l) + j) as int];
    differences_are_read_back(BitStream { bytes: s.bytes, pos: s.pos + l }, n, d);
    assert(s.skip(l) == (BitStream { bytes: s.bytes, pos: s.pos + l }));
}

/// A table is accepted where it has a value for every word, no value stands for more than 16 bits, and
/// the words of its greatest length do not run over: then no word is the start of another.
pub proof fn prefix_codes_are_accepted(counts: Seq<u8>, values: Seq<u8>, longest: nat)
    requires
        counts.len() == 16,
        1 <= longest <= 16,
        counts[longest - 1] != 0,
        forall|l: nat| longest < l <= 16 ==> counts[#[trigger] (l - 1)] == 0,
    ensures
        ({
            let words = shorter_words(counts, longest) + counts[longest - 1];
            huff_table_result(counts, values) is Ok <==> {
                &&& words <= values.len()
                &&& forall|i: int| 0 <= i < words ==> #[trigger] values[i] <= 16
                &&& first_word(counts, longest) + counts[longest - 1] <= pow2(longest)
            }
        }),
{
    let nbits = longest_code(counts, 16);
    lemma_longest_holds(counts, longest, 16);
    assert(nbits == longest) by {
        if nbits > longest {
            let l = nbits;
            assert(counts[l - 1] == 0);
        }
    }
    lemma_no_longer(counts, 16);
    lemma_counts(counts, longest);
    lemma_filled_len(counts, values, nbits, longest, counts[longest - 1] as nat);
    vstd::arithmetic::power2::lemma2_to64();
    let last = first_word(counts, longest) + counts[longest - 1];
    assert(last * pow2(0) == last);
    assert(code_count(counts, 16) == shorter_words(counts, longest) + counts[longest - 1]);
}

/// A table that no segment has defined decodes nothing.
pub proof fn undefined_tables_decode_nothing(s: BitStream)
    ensures
        no_codes().decode(s) is None,
{
    assert(s.peek(0) == 0);
}

} // verus!
