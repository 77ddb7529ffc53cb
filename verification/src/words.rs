//! Select and masking within a single byte or a 64-bit word.

use vstd::arithmetic::power2::pow2;
use vstd::prelude::*;

use crate::bits::{
    byte_bit, byte_bits, count, is_nth, lemma_count_none, lemma_count_split, lemma_count_step,
    lemma_is_nth_shift, word_bit, word_bits,
};

verus! {

/// `u8::count_ones` returns the number of ones in the binary representation of its argument.
pub assume_specification[ u8::count_ones ](byte: u8) -> (ones: u32)
    ensures
        ones == count(byte_bits(byte), true),
;

/// `u64::count_ones` returns the number of ones in the binary representation of its argument.
pub assume_specification[ u64::count_ones ](word: u64) -> (ones: u32)
    ensures
        ones == count(word_bits(word), true),
;

/// Clears every bit at or above `width`.
#[inline]
pub fn mask_to(word: u64, width: usize) -> (masked: u64)
    requires
        width <= 64,
    ensures
        word_bits(masked).take(width as int) == word_bits(word).take(width as int),
        forall|i: int| width <= i < 64 ==> !word_bits(masked)[i],
        masked as nat == word as nat % pow2(width as nat),
{
    if width == 64 {
        proof {
            vstd::arithmetic::power2::lemma2_to64();
        }
        word
    } else {
        let w: u64 = width as u64;
        assert((1u64 << w) >= 1u64) by (bit_vector)
            requires
                w < 64,
        ;
        let mask: u64 = (1u64 << w) - 1;
        let masked: u64 = word & mask;
        proof {
            vstd::bits::lemma_u64_pow2_no_overflow(width as nat);
            vstd::bits::lemma_u64_shl_is_mul(1, w);
            vstd::bits::lemma_u64_low_bits_mask_is_mod(word, width as nat);
            assert forall|i: int| 0 <= i < 64 implies #[trigger] word_bit(masked, i) == (i < width
                && word_bit(word, i)) by {
                let j = i as u64;
                assert((masked >> j) & 1u64 == if j < w {
                    (word >> j) & 1u64
                } else {
                    0u64
                }) by (bit_vector)
                    requires
                        j < 64,
                        w < 64,
                        mask == (1u64 << w) - 1,
                        masked == word & mask,
                ;
            }
        }
        masked
    }
}

/// Whether `rest` is `byte` with its bits below `from` cleared.
spec fn is_cleared_below(rest: u8, byte: u8, from: int) -> bool {
    forall|i: int| 0 <= i < 8 ==> #[trigger] byte_bit(rest, i) == (from <= i && byte_bit(byte, i))
}

/// With the bits of `byte` below `from` cleared and something left, the lowest bit left is the
/// first set bit of `byte` at or after `from`.
proof fn lemma_lowest_left(rest: u8, byte: u8, from: int)
    requires
        0 <= from <= 8,
        is_cleared_below(rest, byte, from),
        rest != 0,
    ensures
        from <= rest.trailing_zeros(),
        is_nth(
            byte_bits(byte),
            true,
            count(byte_bits(byte).take(from), true) as int,
            rest.trailing_zeros() as int,
        ),
{
    let bits = byte_bits(byte);
    let low = rest.trailing_zeros() as int;
    vstd::std_specs::bits::axiom_u8_trailing_zeros(rest);
    assert(byte_bit(rest, low));
    lemma_count_split(bits.take(low), true, from);
    assert(bits.take(low).take(from) =~= bits.take(from));
    assert forall|i: int| 0 <= i < bits.take(low).skip(from).len() implies #[trigger] bits.take(
        low,
    ).skip(from)[i] != true by {
        let j = (from + i) as u8;
        assert((rest >> j) & 1u8 == 0u8);
        assert(!byte_bit(rest, from + i));
    }
    lemma_count_none(bits.take(low).skip(from), true);
}

/// With the bits of `byte` below `from` cleared and nothing left, all its set bits are below
/// `from`.
proof fn lemma_none_left(byte: u8, from: int)
    requires
        0 <= from <= 8,
        is_cleared_below(0, byte, from),
    ensures
        count(byte_bits(byte), true) == count(byte_bits(byte).take(from), true),
{
    let bits = byte_bits(byte);
    lemma_count_split(bits, true, from);
    assert forall|i: int| 0 <= i < bits.skip(from).len() implies #[trigger] bits.skip(from)[i]
        != true by {
        let j = (from + i) as u8;
        assert((0u8 >> j) & 1u8 == 0u8) by (bit_vector);
        assert(!byte_bit(0, from + i));
    }
    lemma_count_none(bits.skip(from), true);
}

/// Returns the index of the `nth` set bit of `byte`, or 8 where `byte` holds exactly `nth` set
/// bits.
///
/// `byte & (byte - 1)` clears the lowest set bit, so `nth` of those leave the target lowest.
#[inline]
pub fn select_in_byte(byte: u8, nth: usize) -> (pos: usize)
    requires
        nth <= count(byte_bits(byte), true),
    ensures
        nth < count(byte_bits(byte), true) ==> is_nth(
            byte_bits(byte),
            true,
            nth as int,
            pos as int,
        ),
        nth == count(byte_bits(byte), true) ==> pos == 8,
{
    let ghost bits = byte_bits(byte);
    let mut rest: u8 = byte;
    let mut cleared: usize = 0;
    let ghost mut from: int = 0;
    while cleared < nth
        invariant
            bits == byte_bits(byte),
            cleared <= nth <= count(bits, true),
            0 <= from <= 8,
            is_cleared_below(rest, byte, from),
            count(bits.take(from), true) == cleared,
        decreases nth - cleared,
    {
        let ghost before = rest;
        let ghost low = rest.trailing_zeros() as u8;
        let ghost above = (8 - low) as u8;
        proof {
            if rest == 0 {
                lemma_none_left(byte, from);
            }
            vstd::std_specs::bits::axiom_u8_trailing_zeros(rest);
            lemma_lowest_left(rest, byte, from);
        }
        rest = rest & (rest - 1);
        cleared = cleared + 1;
        proof {
            assert forall|i: int| 0 <= i < 8 implies #[trigger] byte_bit(rest, i) == (low + 1 <= i
                && byte_bit(byte, i)) by {
                let j = i as u8;
                assert((rest >> j) & 1u8 == if low < j {
                    (before >> j) & 1u8
                } else {
                    0u8
                }) by (bit_vector)
                    requires
                        j < 8,
                        low < 8,
                        before > 0,
                        (before >> low) & 1u8 == 1u8,
                        above == 8 - low,
                        before << above == 0u8,
                        rest == before & ((before - 1) as u8),
                ;
                assert(byte_bit(before, i) == (from <= i && byte_bit(byte, i)));
            }
            lemma_count_step(bits, true, low as int);
            from = low + 1;
        }
    }
    proof {
        vstd::std_specs::bits::axiom_u8_trailing_zeros(rest);
        if rest == 0 {
            lemma_none_left(byte, from);
        } else {
            lemma_lowest_left(rest, byte, from);
            let low = rest.trailing_zeros() as int;
            lemma_count_split(bits, true, low + 1);
            lemma_count_step(bits, true, low);
        }
    }
    rest.trailing_zeros() as usize
}

/// Returns the index of the `nth` set bit of `word`, which must hold more than `nth` set bits.
///
/// Narrows a byte at a time first, so [`select_in_byte`] loops at most seven times.
#[inline]
pub fn select_in_word(word: u64, nth: usize) -> (pos: usize)
    requires
        nth < count(word_bits(word), true),
    ensures
        is_nth(word_bits(word), true, nth as int, pos as int),
{
    let ghost bits = word_bits(word);
    let mut remaining: usize = nth;
    let mut rest: u64 = word;
    let mut shift: usize = 0;
    assert(word >> 0u64 == word) by (bit_vector);
    loop
        invariant
            bits == word_bits(word),
            nth < count(bits, true),
            shift <= 56,
            shift % 8 == 0,
            rest == word >> (shift as u64),
            count(bits.take(shift as int), true) + remaining == nth,
        decreases 64 - shift,
    {
        let byte: u8 = (rest & 0xFF) as u8;
        let ghost part = byte_bits(byte);
        proof {
            let s = shift as u64;
            assert forall|i: int| 0 <= i < 8 implies #[trigger] byte_bit(byte, i) == word_bit(
                word,
                shift + i,
            ) by {
                let j = i as u8;
                let k = (shift + i) as u64;
                assert(((byte >> j) & 1u8 == 1u8) == ((word >> k) & 1u64 == 1u64)) by (bit_vector)
                    requires
                        j < 8,
                        s <= 56,
                        k == s + j,
                        rest == word >> s,
                        byte == (rest & 0xFF) as u8,
                ;
            }
            assert(part =~= bits.subrange(shift as int, shift + 8));
            assert(bits.take(shift + 8).take(shift as int) =~= bits.take(shift as int));
            assert(bits.take(shift + 8).skip(shift as int) =~= part);
            lemma_count_split(bits.take(shift + 8), true, shift as int);
        }
        let ones: usize = byte.count_ones() as usize;
        if remaining < ones {
            let pos: usize = select_in_byte(byte, remaining);
            proof {
                lemma_is_nth_shift(bits, part, true, shift as int, remaining as int, pos as int);
            }
            return shift + pos;
        }
        proof {
            let s = shift as u64;
            let t = (shift + 8) as u64;
            assert(rest >> 8u64 == word >> t) by (bit_vector)
                requires
                    s <= 56,
                    t == s + 8,
                    rest == word >> s,
            ;
            if shift == 56 {
                assert(bits.take(64) =~= bits);
            }
        }
        remaining = remaining - ones;
        rest = rest >> 8u64;
        shift = shift + 8;
    }
}

} // verus!
