//! Reading an unaligned run of bits out of packed bytes.

use vstd::bytes::u64_from_le_bytes;
use vstd::prelude::*;
use vstd::slice::slice_subrange;

use crate::bits::{bit_at, byte_bit, packed_bits, word_bit, word_bits};
use crate::words::mask_to;

verus! {

/// Bit `i` of a double-width word, counted from the least significant end.
spec fn wide_bit(wide: u128, i: int) -> bool {
    (wide >> (i as u128)) & 1u128 == 1u128
}

/// A little-endian word holds the bits of its eight bytes in order.
proof fn lemma_le_word_bit(chunk: Seq<u8>, i: int)
    requires
        chunk.len() == 8,
        0 <= i < 64,
    ensures
        word_bit(vstd::bytes::spec_u64_from_le_bytes(chunk), i) == bit_at(chunk, i),
{
    let word = vstd::bytes::spec_u64_from_le_bytes(chunk);
    vstd::bytes::lemma_auto_spec_u64_to_from_le_bytes();
    vstd::bytes::spec_u64_to_le_bytes_to_open(word);
    assert(vstd::bytes::spec_u64_to_le_bytes(word) == chunk);
    let low = (8 * (i / 8)) as u64;
    let byte = chunk[i / 8];
    assert(word >> 0u64 == word) by (bit_vector);
    assert(byte == ((word >> low) & 0xff) as u8);
    let j = (i % 8) as u8;
    let k = i as u64;
    assert(((word >> k) & 1u64 == 1u64) == ((byte >> j) & 1u8 == 1u8)) by (bit_vector)
        requires
            k < 64,
            j < 8,
            k == low + j,
            byte == ((word >> low) & 0xff) as u8,
    ;
}

/// Folding the next byte into a wide word puts its bits above those already there.
proof fn lemma_fold_byte(wide: u128, byte: u8, low: u128, i: int)
    requires
        low <= 64,
        0 <= i < 72,
        !wide_bit(wide, i) || i < low,
    ensures
        wide_bit(wide | ((byte as u128) << low), i) == if low <= i < low + 8 {
            byte_bit(byte, i - low)
        } else {
            wide_bit(wide, i)
        },
{
    let k = i as u128;
    let folded = wide | ((byte as u128) << low);
    if low <= i < low + 8 {
        let j = (i - low) as u8;
        assert(((folded >> k) & 1u128 == 1u128) == ((byte >> j) & 1u8 == 1u8)) by (bit_vector)
            requires
                low <= 64,
                j < 8,
                k == low + j,
                (wide >> k) & 1u128 != 1u128,
                folded == wide | ((byte as u128) << low),
        ;
    } else {
        assert((folded >> k) & 1u128 == (wide >> k) & 1u128) by (bit_vector)
            requires
                low <= 64,
                k < 72,
                k < low || low + 8 <= k,
                folded == wide | ((byte as u128) << low),
        ;
    }
}

/// Reads `width` bits starting at absolute bit `at`, returned in the low bits with the rest zero.
/// Bits past the last byte read as zero.
///
/// An unaligned 64 bits straddles nine bytes: the common path takes the first eight as one
/// little-endian word and folds the ninth in across the shift. Within nine bytes of the end the
/// slower path assembles whatever is there.
#[inline]
pub fn load_bits(bytes: &[u8], at: usize, width: usize) -> (word: u64)
    requires
        0 < width <= 64,
    ensures
        word_bits(word).take(width as int) == packed_bits(bytes@, at as int, width as nat),
        forall|i: int| width <= i < 64 ==> !word_bits(word)[i],
{
    let first: usize = at / 8;
    let shift: u64 = (at % 8) as u64;
    let word: u64;
    if first + 8 < bytes.len() {
        let chunk: &[u8] = slice_subrange(bytes, first, first + 8);
        let lo: u64 = u64_from_le_bytes(chunk);
        let straddle: u8 = bytes[first + 8];
        // A shift by 64 overflows, so the aligned case needs its own arm.
        if shift == 0 {
            word = lo;
        } else {
            word = (lo >> shift) | ((straddle as u64) << (64 - shift));
        }
        proof {
            assert forall|i: int| 0 <= i < 64 implies #[trigger] word_bit(word, i) == bit_at(
                bytes@,
                at + i,
            ) by {
                let from = shift + i;
                assert((at + i) / 8 == first + from / 8);
                assert((at + i) % 8 == from % 8);
                if from < 64 {
                    lemma_le_word_bit(chunk@, from);
                    assert(chunk@[from / 8] == bytes@[first + from / 8]);
                }
                if shift != 0 {
                    let up = (64 - shift) as u64;
                    let k = i as u64;
                    let f = from as u64;
                    if from < 64 {
                        assert((word >> k) & 1u64 == (lo >> f) & 1u64) by (bit_vector)
                            requires
                                f < 64,
                                f == shift + k,
                                0 < shift < 8,
                                up == 64 - shift,
                                word == (lo >> shift) | ((straddle as u64) << up),
                        ;
                    } else {
                        let j = (from - 64) as u8;
                        assert(((word >> k) & 1u64 == 1u64) == ((straddle >> j) & 1u8 == 1u8))
                            by (bit_vector)
                            requires
                                k < 64,
                                64 + j == shift + k,
                                0 < shift < 8,
                                up == 64 - shift,
                                word == (lo >> shift) | ((straddle as u64) << up),
                        ;
                    }
                }
            }
        }
    } else {
        let mut raw: u128 = 0;
        let mut i: usize = 0;
        proof {
            assert forall|k: int| 0 <= k < 72 implies !#[trigger] wide_bit(raw, k) by {
                let j = k as u128;
                assert((0u128 >> j) & 1u128 == 0u128) by (bit_vector);
            }
        }
        while i < 9 && first + i < bytes.len()
            invariant
                first == at / 8,
                i <= 9,
                forall|k: int|
                    0 <= k < 72 ==> #[trigger] wide_bit(raw, k) == (k < 8 * i && bit_at(
                        bytes@,
                        8 * first + k,
                    )),
            decreases 9 - i,
        {
            let byte: u8 = bytes[first + i];
            let low: u128 = 8 * (i as u128);
            proof {
                assert forall|k: int| 0 <= k < 72 implies #[trigger] wide_bit(
                    raw | ((byte as u128) << low),
                    k,
                ) == (k < 8 * (i + 1) && bit_at(bytes@, 8 * first + k)) by {
                    lemma_fold_byte(raw, byte, low, k);
                    assert(wide_bit(raw, k) == (k < 8 * i && bit_at(bytes@, 8 * first + k)));
                }
            }
            raw = raw | ((byte as u128) << low);
            i = i + 1;
        }
        word = #[verifier::truncate] ((raw >> shift) as u64);
        proof {
            assert forall|k: int| 0 <= k < 64 implies #[trigger] word_bit(word, k) == bit_at(
                bytes@,
                at + k,
            ) by {
                let from = shift + k;
                let j = k as u64;
                let f = from as u128;
                assert(wide_bit(raw, from) == (from < 8 * i && bit_at(bytes@, 8 * first + from)));
                assert(((word >> j) & 1u64 == 1u64) == ((raw >> f) & 1u128 == 1u128))
                    by (bit_vector)
                    requires
                        j < 64,
                        shift < 8,
                        f == shift + j,
                        word == (raw >> shift) as u64,
                ;
            }
        }
    }
    mask_to(word, width)
}

} // verus!
