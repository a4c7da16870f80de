//! Bit packing of schematic cells.
//!
//! Entries go into 64-bit words without gaps: the bits of one entry may lie
//! across the border of two words. (Chunk storage of later game versions
//! leaves the last bits of a word unused instead; reading one convention as
//! the other gives no error, only nonsense.)
//!
//! An entry never has fewer than two bits, even for a palette of one.

use vstd::arithmetic::power2;
use vstd::prelude::*;

verus! {

/// Bit `k` of a word.
pub open spec fn bit(word: u64, k: int) -> bool {
    (word >> (k as u64)) & 1 == 1
}

/// Bit `k` of a run of words, counted from the lowest bit of the first.
pub open spec fn stream_bit(longs: Seq<i64>, k: int) -> bool {
    bit(longs[k / 64] as u64, k % 64)
}

/// Whether the words reach as far as entry `i` does.
pub open spec fn entry_present(longs: Seq<i64>, bits: u32, i: int) -> bool {
    (i + 1) * bits <= 64 * longs.len()
}

/// Whether `value` is the entry whose bits start at `start`.
pub open spec fn reads_at(longs: Seq<i64>, bits: u32, start: int, value: u32) -> bool {
    forall|j: int|
        0 <= j < 64 ==> #[trigger] bit(value as u64, j) == (j < bits && stream_bit(
            longs,
            start + j,
        ))
}

/// `entries` are the first `count` entries of the words: those that the words
/// reach are read off them, and the others are 0.
pub open spec fn unpacked(longs: Seq<i64>, bits: u32, count: nat, entries: Seq<u32>) -> bool {
    &&& entries.len() == count
    &&& forall|i: int|
        0 <= i < count ==> if entry_present(longs, bits, i) {
            reads_at(longs, bits, i * bits, #[trigger] entries[i])
        } else {
            entries[i] == 0
        }
}

/// The words hold the low `bits` of every value, one after the other, and
/// nothing else.
pub open spec fn packed(values: Seq<u32>, bits: u32, longs: Seq<i64>) -> bool {
    &&& longs.len() == words_for(values.len(), bits)
    &&& forall|k: int|
        0 <= k < 64 * longs.len() ==> #[trigger] stream_bit(longs, k) == carries(values, bits, k)
}

/// Bit `k` of the values laid end to end.
pub open spec fn carries(values: Seq<u32>, bits: u32, k: int) -> bool {
    k < values.len() * bits && bit(values[k / (bits as int)] as u64, k % (bits as int))
}

/// Whether `value` needs no more than `bits` bits.
pub open spec fn fits(value: u32, bits: u32) -> bool {
    (value as u64) >> (bits as u64) == 0
}

/// How many words hold `count` entries.
pub open spec fn words_for(count: nat, bits: u32) -> nat {
    (count * bits as nat + 63) / 64
}

/// Two words with the same bits are the same.
pub proof fn lemma_bits_decide(left: u64, right: u64)
    requires
        forall|j: int| 0 <= j < 64 ==> #[trigger] bit(left, j) == bit(right, j),
    ensures
        left == right,
{
    lemma_bits_from(left, right, 0);
    assert(left >> 0u64 == left) by (bit_vector);
    assert(right >> 0u64 == right) by (bit_vector);
}

proof fn lemma_bits_from(left: u64, right: u64, from: u64)
    requires
        from <= 64,
        forall|j: int| 0 <= j < 64 ==> #[trigger] bit(left, j) == bit(right, j),
    ensures
        from < 64 ==> left >> from == right >> from,
    decreases 64 - from,
{
    if from == 63 {
        assert(bit(left, 63) == bit(right, 63));
        assert(left >> 63u64 == right >> 63u64) by (bit_vector)
            requires
                ((left >> 63u64) & 1 == 1) == ((right >> 63u64) & 1 == 1),
        ;
    } else if from < 63 {
        let next = (from + 1) as u64;
        lemma_bits_from(left, right, next);
        assert(bit(left, from as int) == bit(right, from as int));
        assert(left >> from == right >> from) by (bit_vector)
            requires
                from < 63,
                next == from + 1,
                left >> next == right >> next,
                ((left >> from) & 1 == 1) == ((right >> from) & 1 == 1),
        ;
    }
}

/// How many bits number `len` entries: two at least, and one more for every
/// halving that brings `len` down to four.
pub open spec fn entry_bits(len: nat) -> nat
    decreases len,
{
    if len <= 4 {
        2
    } else {
        1 + entry_bits((len + 1) / 2)
    }
}

/// The bits are enough for every entry, and one fewer would not be.
pub proof fn lemma_entry_bits(len: nat)
    ensures
        entry_bits(len) >= 2,
        len <= power2::pow2(entry_bits(len)),
        entry_bits(len) > 2 ==> power2::pow2((entry_bits(len) - 1) as nat) < len,
    decreases len,
{
    power2::lemma2_to64();
    if len > 4 {
        let half = (len + 1) / 2;
        lemma_entry_bits(half);
        let bits = entry_bits(half);
        power2::lemma_pow2_unfold(bits + 1);
        power2::lemma_pow2_unfold(bits);
    }
}

/// How many bits an entry has, for a palette of the given size.
pub fn bits_per_entry(palette_len: usize) -> (bits: u32)
    ensures
        bits == entry_bits(palette_len as nat),
        2 <= bits <= 64,
        palette_len <= power2::pow2(bits as nat),
        bits > 2 ==> power2::pow2((bits - 1) as nat) < palette_len,
{
    let mut rest: usize = palette_len;
    let mut bits: u32 = 2;
    proof {
        lemma_entry_bits(palette_len as nat);
        if entry_bits(palette_len as nat) > 64 {
            power2::lemma2_to64();
            let below = (entry_bits(palette_len as nat) - 1) as nat;
            if below > 64 {
                power2::lemma_pow2_strictly_increases(64, below);
            }
        }
    }
    while rest > 4
        invariant
            entry_bits(palette_len as nat) == bits - 2 + entry_bits(rest as nat),
            entry_bits(palette_len as nat) <= 64,
            2 <= bits,
        decreases rest,
    {
        proof {
            lemma_entry_bits(((rest + 1) / 2) as nat);
        }
        rest = rest / 2 + rest % 2;
        bits = bits + 1;
    }
    bits
}

/// How many words hold `count` entries.
///
/// A caller checks the length of its input with this: [`unpack`] reads
/// whatever is missing as 0.
pub fn required_longs(count: usize, bits: u32) -> (longs: usize)
    requires
        count * bits + 63 <= u64::MAX,
        words_for(count as nat, bits) <= usize::MAX,
    ensures
        longs == words_for(count as nat, bits),
{
    let total: u64 = count as u64 * bits as u64;
    ((total + 63) / 64) as usize
}

/// One entry that lies within a word.
proof fn lemma_entry_within(word: u64, start: u64, bits: u64, mask: u64)
    requires
        1 <= bits <= 32,
        start + bits <= 64,
        mask == ((1u64 << bits) - 1) as u64,
    ensures
        ((word >> start) & mask) <= u32::MAX,
        forall|j: int|
            0 <= j < 64 ==> #[trigger] bit((word >> start) & mask, j) == (j < bits && bit(
                word,
                start + j,
            )),
{
    assert(((word >> start) & mask) <= 0xffff_ffffu64) by (bit_vector)
        requires
            1 <= bits <= 32,
            mask == ((1u64 << bits) - 1) as u64,
    ;
    assert forall|j: int| 0 <= j < 64 implies #[trigger] bit((word >> start) & mask, j) == (j < bits
        && bit(word, start + j)) by {
        let k = j as u64;
        let at = (start + j) as u64;
        if j < bits {
            assert(((((word >> start) & mask) >> k) & 1 == 1) == ((word >> at) & 1 == 1))
                by (bit_vector)
                requires
                    1 <= bits <= 32,
                    k < bits,
                    start + bits <= 64,
                    at == start + k,
                    mask == ((1u64 << bits) - 1) as u64,
            ;
        } else {
            assert((((word >> start) & mask) >> k) & 1 == 0) by (bit_vector)
                requires
                    1 <= bits <= 32,
                    bits <= k < 64,
                    mask == ((1u64 << bits) - 1) as u64,
            ;
        }
    }
}

/// One entry that lies across two words.
proof fn lemma_entry_across(low: u64, high: u64, start: u64, bits: u64, mask: u64, shift: u64)
    requires
        1 <= bits <= 32,
        start < 64 < start + bits,
        shift == 64 - start,
        mask == ((1u64 << bits) - 1) as u64,
    ensures
        (((low >> start) | (high << shift)) & mask) <= u32::MAX,
        forall|j: int|
            0 <= j < 64 ==> #[trigger] bit(((low >> start) | (high << shift)) & mask, j) == (j
                < bits && (if start + j < 64 {
                bit(low, start + j)
            } else {
                bit(high, start + j - 64)
            })),
{
    let whole = ((low >> start) | (high << shift)) & mask;
    assert(whole <= 0xffff_ffffu64) by (bit_vector)
        requires
            1 <= bits <= 32,
            mask == ((1u64 << bits) - 1) as u64,
            whole == ((low >> start) | (high << shift)) & mask,
    ;
    assert forall|j: int| 0 <= j < 64 implies #[trigger] bit(whole, j) == (j < bits && (if start + j
        < 64 {
        bit(low, start + j)
    } else {
        bit(high, start + j - 64)
    })) by {
        let k = j as u64;
        if j >= bits {
            assert((whole >> k) & 1 == 0) by (bit_vector)
                requires
                    1 <= bits <= 32,
                    bits <= k < 64,
                    mask == ((1u64 << bits) - 1) as u64,
                    whole == ((low >> start) | (high << shift)) & mask,
            ;
        } else if start + j < 64 {
            let at = (start + j) as u64;
            assert(((whole >> k) & 1 == 1) == ((low >> at) & 1 == 1)) by (bit_vector)
                requires
                    1 <= bits <= 32,
                    k < bits,
                    start < 64,
                    at == start + k,
                    at < 64,
                    shift == 64 - start,
                    start + bits > 64,
                    mask == ((1u64 << bits) - 1) as u64,
                    whole == ((low >> start) | (high << shift)) & mask,
            ;
        } else {
            let at = (start + j - 64) as u64;
            assert(((whole >> k) & 1 == 1) == ((high >> at) & 1 == 1)) by (bit_vector)
                requires
                    1 <= bits <= 32,
                    k < bits,
                    start < 64,
                    start + k >= 64,
                    at == start + k - 64,
                    shift == 64 - start,
                    mask == ((1u64 << bits) - 1) as u64,
                    whole == ((low >> start) | (high << shift)) & mask,
            ;
        }
    }
}

/// Reads `count` entries out of a run of words.
///
/// An entry that the words do not reach reads as 0, and so does one that they
/// reach only in part.
#[verifier::rlimit(40)]
pub fn unpack(longs: &[i64], bits: u32, count: usize) -> (entries: Vec<u32>)
    requires
        1 <= bits <= 32,
    ensures
        unpacked(longs@, bits, count as nat, entries@),
{
    let width: u64 = bits as u64;
    assert((1u64 << width) >= 1) by (bit_vector)
        requires
            1 <= width <= 32,
    ;
    let mask: u64 = (1u64 << width) - 1;
    let mut entries: Vec<u32> = Vec::new();
    let mut i: usize = 0;
    while i < count
        invariant
            1 <= bits <= 32,
            width == bits,
            mask == ((1u64 << width) - 1) as u64,
            i <= count,
            entries@.len() == i,
            forall|k: int|
                0 <= k < i ==> if entry_present(longs@, bits, k) {
                    reads_at(longs@, bits, k * bits, #[trigger] entries@[k])
                } else {
                    entries@[k] == 0
                },
        decreases count - i,
    {
        assert(i * bits <= 0xffff_ffff_ffff_ffff * 32) by (nonlinear_arith)
            requires
                i <= 0xffff_ffff_ffff_ffff,
                bits <= 32,
        ;
        let offset: u128 = i as u128 * bits as u128;
        let start_long: u128 = offset / 64;
        let start_bit: u64 = (offset % 64) as u64;
        let second: bool = start_bit + width > 64;
        let last_long: u128 = if second {
            start_long + 1
        } else {
            start_long
        };
        assert((i + 1) * bits == offset + bits) by (nonlinear_arith)
            requires
                offset == i * bits,
        ;
        if last_long >= longs.len() as u128 {
            assert(!entry_present(longs@, bits, i as int));
            entries.push(0);
        } else {
            assert(entry_present(longs@, bits, i as int));
            let value: u64;
            if second {
                let shift: u64 = 64 - start_bit;
                let low: u64 = longs[start_long as usize] as u64;
                let high: u64 = longs[start_long as usize + 1] as u64;
                value = ((low >> start_bit) | (high << shift)) & mask;
                proof {
                    lemma_entry_across(low, high, start_bit, width, mask, shift);
                    assert forall|j: int| 0 <= j < 64 implies #[trigger] bit(value, j) == (j < bits
                        && stream_bit(longs@, offset + j)) by {
                        if j < bits {
                            if start_bit + j < 64 {
                                assert((offset + j) / 64 == start_long && (offset + j) % 64
                                    == start_bit + j);
                            } else {
                                assert((offset + j) / 64 == start_long + 1 && (offset + j) % 64
                                    == start_bit + j - 64);
                            }
                        }
                    }
                }
            } else {
                let word: u64 = longs[start_long as usize] as u64;
                value = (word >> start_bit) & mask;
                proof {
                    lemma_entry_within(word, start_bit, width, mask);
                    assert forall|j: int| 0 <= j < 64 implies #[trigger] bit(value, j) == (j < bits
                        && stream_bit(longs@, offset + j)) by {
                        if j < bits {
                            assert((offset + j) / 64 == start_long && (offset + j) % 64 == start_bit
                                + j);
                        }
                    }
                }
            }
            let entry: u32 = value as u32;
            assert(entry as u64 == value);
            assert(reads_at(longs@, bits, i * bits, entry));
            entries.push(entry);
        }
        i = i + 1;
    }
    entries
}

proof fn lemma_or_low(word: u64, value: u64, start: u64)
    requires
        start < 64,
    ensures
        forall|p: int|
            0 <= p < 64 ==> #[trigger] bit(word | (value << start), p) == (bit(word, p) || (p
                >= start && bit(value, p - start))),
{
    assert forall|p: int| 0 <= p < 64 implies #[trigger] bit(word | (value << start), p) == (bit(
        word,
        p,
    ) || (p >= start && bit(value, p - start))) by {
        let k = p as u64;
        if p >= start {
            let from = (p - start) as u64;
            assert((((word | (value << start)) >> k) & 1 == 1) == ((word >> k) & 1 == 1 || (value
                >> from) & 1 == 1)) by (bit_vector)
                requires
                    start < 64,
                    k < 64,
                    k >= start,
                    from == k - start,
            ;
        } else {
            assert((((word | (value << start)) >> k) & 1 == 1) == ((word >> k) & 1 == 1))
                by (bit_vector)
                requires
                    start < 64,
                    k < start,
            ;
        }
    }
}

proof fn lemma_or_shifted(word: u64, value: u64, low_bits: u64)
    requires
        low_bits < 64,
    ensures
        forall|p: int|
            0 <= p < 64 ==> #[trigger] bit(word | (value >> low_bits), p) == (bit(word, p) || (p
                + low_bits < 64 && bit(value, p + low_bits))),
{
    assert forall|p: int| 0 <= p < 64 implies #[trigger] bit(word | (value >> low_bits), p) == (bit(
        word,
        p,
    ) || (p + low_bits < 64 && bit(value, p + low_bits))) by {
        let k = p as u64;
        if p + low_bits < 64 {
            let from = (p + low_bits) as u64;
            assert((((word | (value >> low_bits)) >> k) & 1 == 1) == ((word >> k) & 1 == 1 || (value
                >> from) & 1 == 1)) by (bit_vector)
                requires
                    low_bits < 64,
                    k < 64,
                    from == k + low_bits,
                    from < 64,
            ;
        } else {
            assert((((word | (value >> low_bits)) >> k) & 1 == 1) == ((word >> k) & 1 == 1))
                by (bit_vector)
                requires
                    low_bits < 64,
                    k < 64,
                    k + low_bits >= 64,
            ;
        }
    }
}

spec fn word_bit(words: Seq<u64>, k: int) -> bool {
    bit(words[k / 64], k % 64)
}

/// What the words hold once the first `upto` values are in.
spec fn packed_to(values: Seq<u32>, bits: u32, words: Seq<u64>, upto: int) -> bool {
    forall|k: int|
        0 <= k < 64 * words.len() ==> #[trigger] word_bit(words, k) == carries(
            values.take(upto),
            bits,
            k,
        )
}

/// Writing one more value into the words.
proof fn lemma_pack_step(
    values: Seq<u32>,
    bits: u32,
    before: Seq<u64>,
    after: Seq<u64>,
    value: u64,
    i: int,
)
    requires
        1 <= bits <= 32,
        0 <= i < values.len(),
        packed_to(values, bits, before, i),
        before.len() == after.len() == words_for(values.len(), bits),
        forall|j: int|
            0 <= j < 64 ==> #[trigger] bit(value, j) == (j < bits && bit(values[i] as u64, j)),
        forall|k: int|
            0 <= k < 64 * before.len() ==> #[trigger] word_bit(after, k) == (word_bit(before, k) || (
            0 <= k - i * bits < 64 && bit(value, k - i * bits))),
    ensures
        packed_to(values, bits, after, i + 1),
{
    let b = bits as int;
    assert forall|k: int| 0 <= k < 64 * after.len() implies #[trigger] word_bit(after, k)
        == carries(values.take(i + 1), bits, k) by {
        assert(word_bit(before, k) == carries(values.take(i), bits, k));
        assert((i + 1) * b == i * b + b) by (nonlinear_arith);
        if k < i * b {
            assert(k / b < i) by (nonlinear_arith)
                requires
                    0 <= k < i * b,
                    b > 0,
            ;
            assert(k / b >= 0) by (nonlinear_arith)
                requires
                    0 <= k,
                    b > 0,
            ;
            assert(values.take(i)[k / b] == values.take(i + 1)[k / b]);
        } else if k < i * b + b {
            assert(k / b == i && k % b == k - i * b) by (nonlinear_arith)
                requires
                    i * b <= k < i * b + b,
                    b > 0,
            ;
            assert(values.take(i + 1)[i] == values[i]);
            assert(bit(value, k - i * b) == (k - i * b < bits && bit(values[i] as u64, k - i * b)));
        } else {
            if k - i * b < 64 {
                assert(!bit(value, k - i * b));
            }
        }
    }
}

/// Lays the values end to end, each in `bits` bits.
#[verifier::rlimit(60)]
pub fn pack(values: &[u32], bits: u32) -> (longs: Vec<i64>)
    requires
        1 <= bits <= 32,
        values@.len() * bits + 63 <= u64::MAX,
        words_for(values@.len(), bits) <= usize::MAX,
    ensures
        packed(values@, bits, longs@),
{
    let width: u64 = bits as u64;
    assert((1u64 << width) >= 1) by (bit_vector)
        requires
            1 <= width <= 32,
    ;
    let mask: u64 = (1u64 << width) - 1;
    let count: usize = required_longs(values.len(), bits);
    let mut words: Vec<u64> = vec![0u64; count];
    let mut i: usize = 0;
    proof {
        assert forall|k: int| 0 <= k < 64 * words@.len() implies #[trigger] word_bit(words@, k)
            == carries(values@.take(0), bits, k) by {
            let p = (k % 64) as u64;
            assert((0u64 >> p) & 1 == 0) by (bit_vector);
            assert(words@[k / 64] == 0);
            let none = values@.take(0).len();
            assert(none * bits == 0) by (nonlinear_arith)
                requires
                    none == 0,
            ;
        }
    }
    while i < values.len()
        invariant
            1 <= bits <= 32,
            width == bits,
            mask == ((1u64 << width) - 1) as u64,
            values@.len() * bits + 63 <= u64::MAX,
            i <= values@.len(),
            words@.len() == count == words_for(values@.len(), bits),
            packed_to(values@, bits, words@, i as int),
        decreases values@.len() - i,
    {
        let ghost before = words@;
        proof {
            assert(i * bits + bits <= values@.len() * bits) by (nonlinear_arith)
                requires
                    i + 1 <= values@.len(),
                    bits >= 1,
            ;
        }
        let raw: u64 = values[i] as u64;
        let value: u64 = raw & mask;
        let offset: u64 = i as u64 * width;
        let start_long: usize = (offset / 64) as usize;
        let start_bit: u64 = offset % 64;
        proof {
            lemma_entry_within(raw, 0, width, mask);
            assert(raw >> 0u64 == raw) by (bit_vector);
            lemma_or_low(before[start_long as int], value, start_bit);
        }
        words[start_long] = words[start_long] | (value << start_bit);
        if start_bit + width > 64 {
            let low_bits: u64 = 64 - start_bit;
            proof {
                lemma_or_shifted(before[start_long + 1], value, low_bits);
            }
            words[start_long + 1] = words[start_long + 1] | (value >> low_bits);
        }
        proof {
            let b = bits as int;
            assert forall|k: int| 0 <= k < 64 * before.len() implies #[trigger] word_bit(words@, k)
                == (word_bit(before, k) || (0 <= k - i * b < 64 && bit(value, k - i * b))) by {
                let w = k / 64;
                let p = k % 64;
                assert(offset == i * b);
                let q = k - offset;
                if w == start_long {
                    assert(q == p - start_bit);
                } else if w == start_long + 1 {
                    assert(q == p + 64 - start_bit);
                    if 0 <= q < 64 {
                        assert(bit(value, q) == (q < bits && bit(values@[i as int] as u64, q)));
                    }
                } else if 0 <= q < 64 {
                    assert(w > start_long + 1 || w < start_long);
                    assert(false);
                }
            }
            lemma_pack_step(values@, bits, before, words@, value, i as int);
        }
        i = i + 1;
    }
    assert(values@.take(i as int) == values@);
    let mut longs: Vec<i64> = Vec::new();
    let mut at: usize = 0;
    while at < words.len()
        invariant
            at <= words@.len(),
            longs@.len() == at,
            forall|w: int| 0 <= w < at ==> (#[trigger] longs@[w]) as u64 == words@[w],
        decreases words@.len() - at,
    {
        let word: u64 = words[at];
        assert((word as i64) as u64 == word) by (bit_vector);
        longs.push(word as i64);
        at = at + 1;
    }
    proof {
        assert forall|k: int| 0 <= k < 64 * longs@.len() implies #[trigger] stream_bit(longs@, k)
            == carries(values@, bits, k) by {
            assert(longs@[k / 64] as u64 == words@[k / 64]);
            assert(word_bit(words@, k) == carries(values@, bits, k));
        }
    }
    longs
}

/// A value below `2^bits` needs no more than `bits` bits.
pub proof fn lemma_small_fits(value: u32, bits: u32)
    requires
        bits <= 32,
        value < power2::pow2(bits as nat),
    ensures
        fits(value, bits),
{
    vstd::bits::lemma_u64_shr_is_div(value as u64, bits as u64);
    power2::lemma_pow2_pos(bits as nat);
    assert((value as nat) / power2::pow2(bits as nat) == 0) by (nonlinear_arith)
        requires
            0 <= value < power2::pow2(bits as nat),
    ;
}

/// Reading back what was packed gives the values again, where they fit.
pub proof fn lemma_pack_then_unpack(
    values: Seq<u32>,
    bits: u32,
    longs: Seq<i64>,
    entries: Seq<u32>,
)
    requires
        1 <= bits <= 32,
        forall|i: int| 0 <= i < values.len() ==> fits(#[trigger] values[i], bits),
        packed(values, bits, longs),
        unpacked(longs, bits, values.len(), entries),
    ensures
        entries == values,
{
    let b = bits as int;
    assert forall|i: int| 0 <= i < values.len() implies entries[i] == values[i] by {
        assert((i + 1) * b <= values.len() * b) by (nonlinear_arith)
            requires
                i + 1 <= values.len(),
                b >= 1,
        ;
        assert((i + 1) * b == i * b + b) by (nonlinear_arith);
        assert(0 <= i * b) by (nonlinear_arith)
            requires
                i >= 0,
                b >= 1,
        ;
        assert(entry_present(longs, bits, i));
        assert(reads_at(longs, bits, i * bits, entries[i]));
        assert(fits(values[i], bits));
        assert forall|j: int| 0 <= j < 64 implies #[trigger] bit(entries[i] as u64, j) == bit(
            values[i] as u64,
            j,
        ) by {
            if j < bits {
                assert(stream_bit(longs, i * b + j) == carries(values, bits, i * b + j));
                assert((i * b + j) / b == i && (i * b + j) % b == j) by (nonlinear_arith)
                    requires
                        0 <= j < b,
                ;
            } else {
                let v = values[i] as u64;
                let w = bits as u64;
                let k = j as u64;
                assert((v >> k) & 1 == 0) by (bit_vector)
                    requires
                        v >> w == 0,
                        w <= k < 64,
                ;
            }
        }
        lemma_bits_decide(entries[i] as u64, values[i] as u64);
    }
    assert(entries =~= values);
}

} // verus!
