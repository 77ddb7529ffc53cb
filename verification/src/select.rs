//! Windowed rank/select over a packed bit buffer.
//!
//! Decoding an Elias-Fano upper bit array needs the `nth` set bit and the `nth` unset bit within
//! a half-open bit range, so a sample can give a lower bound and the scan can start from it.
//!
//! Both read the backing bytes directly, so a lookup allocates nothing.

use vortex_buffer::BitBuffer;
use vstd::prelude::*;
use vstd::slice::slice_subrange;

use crate::bits::{
    bit_at, count, is_nth, is_select, lemma_count_none, lemma_count_pointwise, lemma_count_split,
    lemma_is_nth_below_count, lemma_is_nth_pointwise, lemma_is_nth_shift, packed_bits, word_bit,
    word_bits,
};
use crate::buffer::{backing_bytes, buffer_bits, len_of};
use crate::load::load_bits;
use crate::words::{mask_to, select_in_word};

verus! {

/// Why a bit range is no window of a buffer.
#[derive(Clone, Copy, Debug, PartialEq, Eq, Structural)]
pub enum WindowError {
    /// The start lies past the end.
    StartExceedsEnd,
    /// The end lies past the last bit of the buffer.
    EndExceedsLen,
}

/// Tests that `[start, end)` is a window of `buf`, which the select functions ask for.
pub fn check_window(buf: &BitBuffer, start: usize, end: usize) -> (checked: Result<(), WindowError>)
    ensures
        match checked {
            Ok(()) => start <= end <= len_of(*buf),
            Err(WindowError::StartExceedsEnd) => end < start,
            Err(WindowError::EndExceedsLen) => start <= end && len_of(*buf) < end,
        },
{
    if start > end {
        Err(WindowError::StartExceedsEnd)
    } else if end > buf.len() {
        Err(WindowError::EndExceedsLen)
    } else {
        Ok(())
    }
}

/// Returns the position of the `nth` set bit within the bit range `[start, end)` of `buf`,
/// relative to `start`, or `None` if the range holds `nth` set bits or fewer.
#[inline]
pub fn select_range(buf: &BitBuffer, start: usize, end: usize, nth: usize) -> (found: Option<usize>)
    requires
        start <= end <= len_of(*buf),
    ensures
        is_select(buffer_bits(*buf).subrange(start as int, end as int), true, nth as int, found),
{
    select_in_range(buf, start, end, nth, false)
}

/// Returns the position of the `nth` unset bit within the bit range `[start, end)` of `buf`,
/// relative to `start`, or `None` if the range holds `nth` unset bits or fewer.
///
/// The complement of [`select_range`]: a bucket boundary in the upper array is a zero, so this is
/// what turns a high part into a rank.
#[inline]
pub fn select_zero_range(buf: &BitBuffer, start: usize, end: usize, nth: usize) -> (found: Option<
    usize,
>)
    requires
        start <= end <= len_of(*buf),
    ensures
        is_select(buffer_bits(*buf).subrange(start as int, end as int), false, nth as int, found),
{
    select_in_range(buf, start, end, nth, true)
}

/// [`select_range`] for any `start` and `end`: says why where they are no window of `buf`.
pub fn checked_select_range(buf: &BitBuffer, start: usize, end: usize, nth: usize) -> (result:
    Result<Option<usize>, WindowError>)
    ensures
        match result {
            Ok(found) => start <= end <= len_of(*buf) && is_select(
                buffer_bits(*buf).subrange(start as int, end as int),
                true,
                nth as int,
                found,
            ),
            Err(WindowError::StartExceedsEnd) => end < start,
            Err(WindowError::EndExceedsLen) => start <= end && len_of(*buf) < end,
        },
{
    match check_window(buf, start, end) {
        Ok(()) => Ok(select_range(buf, start, end, nth)),
        Err(error) => Err(error),
    }
}

/// [`select_zero_range`] for any `start` and `end`: says why where they are no window of `buf`.
pub fn checked_select_zero_range(buf: &BitBuffer, start: usize, end: usize, nth: usize) -> (result:
    Result<Option<usize>, WindowError>)
    ensures
        match result {
            Ok(found) => start <= end <= len_of(*buf) && is_select(
                buffer_bits(*buf).subrange(start as int, end as int),
                false,
                nth as int,
                found,
            ),
            Err(WindowError::StartExceedsEnd) => end < start,
            Err(WindowError::EndExceedsLen) => start <= end && len_of(*buf) < end,
        },
{
    match check_window(buf, start, end) {
        Ok(()) => Ok(select_zero_range(buf, start, end, nth)),
        Err(error) => Err(error),
    }
}

/// A word that holds a chunk in its low bits, set where the chunk has a wanted bit, and no other
/// bits selects as the chunk does.
proof fn lemma_word_stands_for_chunk(word: u64, chunk: Seq<bool>, want: bool)
    requires
        chunk.len() <= 64,
        forall|i: int|
            0 <= i < 64 ==> #[trigger] word_bit(word, i) == (i < chunk.len() && chunk[i] == want),
    ensures
        count(word_bits(word), true) == count(chunk, want),
        forall|nth: int, pos: int| #[trigger]
            is_nth(word_bits(word), true, nth, pos) ==> is_nth(chunk, want, nth, pos),
{
    let bits = word_bits(word);
    let width = chunk.len() as int;
    let low = bits.take(width);
    lemma_count_split(bits, true, width);
    lemma_count_none(bits.skip(width), true);
    assert forall|i: int| 0 <= i < low.len() implies (low[i] == true) == (#[trigger] chunk[i]
        == want) by {
        assert(word_bit(word, i) == (chunk[i] == want));
    }
    lemma_count_pointwise(low, true, chunk, want);
    assert forall|nth: int, pos: int| #[trigger] is_nth(bits, true, nth, pos) implies is_nth(
        chunk,
        want,
        nth,
        pos,
    ) by {
        assert(word_bit(word, pos));
        assert(low.take(pos) =~= bits.take(pos));
        lemma_is_nth_pointwise(low, true, chunk, want, nth, pos);
    }
}

/// Shared lookup behind [`select_range`] (`zeros == false`) and [`select_zero_range`]
/// (`zeros == true`).
fn select_in_range(buf: &BitBuffer, start: usize, end: usize, nth: usize, zeros: bool) -> (found:
    Option<usize>)
    requires
        start <= end <= len_of(*buf),
    ensures
        is_select(buffer_bits(*buf).subrange(start as int, end as int), !zeros, nth as int, found),
{
    let bytes: &[u8] = backing_bytes(buf);
    let offset: usize = buf.offset();
    assert(buffer_bits(*buf).subrange(start as int, end as int) =~= packed_bits(
        bytes@,
        offset + start,
        (end - start) as nat,
    ));
    select_in_bytes(bytes, offset, start, end, nth, zeros)
}

/// Returns the position, relative to `start`, of the `nth` set bit (or unset bit, with `zeros`)
/// among bits `[start, end)` of the bit string that begins `offset` bits into `bytes`, or `None`
/// if there are `nth` such bits or fewer.
///
/// Walks the window a 64-bit word at a time, taking the bits of each word off the rank until one
/// holds the target.
pub fn select_in_bytes(
    bytes: &[u8],
    offset: usize,
    start: usize,
    end: usize,
    nth: usize,
    zeros: bool,
) -> (found: Option<usize>)
    requires
        start <= end,
    ensures
        is_select(
            packed_bits(bytes@, offset + start, (end - start) as nat),
            !zeros,
            nth as int,
            found,
        ),
{
    let ghost window = packed_bits(bytes@, offset + start, (end - start) as nat);
    let total: usize = end - start;

    let mut remaining: usize = nth;
    let mut pos: usize = 0;
    assert(window.take(0) =~= Seq::<bool>::empty());
    while pos < total
        invariant
            start <= end,
            total == end - start,
            pos <= total,
            window == packed_bits(bytes@, offset + start, (end - start) as nat),
            count(window.take(pos as int), !zeros) + remaining == nth,
        decreases total - pos,
    {
        let width: usize = if total - pos < 64 {
            total - pos
        } else {
            64
        };
        // The word begins `offset + start + pos` bits into the backing bytes, a sum that need not
        // fit a `usize`: the whole bytes of it are skipped first.
        let from: usize = start + pos;
        let skip: usize = offset / 8 + from / 8;
        let clamped: usize = if skip < bytes.len() {
            skip
        } else {
            bytes.len()
        };
        let tail: &[u8] = slice_subrange(bytes, clamped, bytes.len());
        let at: usize = offset % 8 + from % 8;
        let mut word: u64 = load_bits(tail, at, width);
        let ghost chunk = window.subrange(pos as int, pos + width);
        proof {
            assert forall|i: int| 0 <= i < 64 implies #[trigger] word_bit(word, i) == (i < width
                && chunk[i]) by {
                if i < width {
                    assert(word_bits(word).take(width as int)[i] == bit_at(tail@, at + i));
                    assert(offset + from + i == 8 * skip + at + i);
                    assert((8 * skip + at + i) / 8 == skip + (at + i) / 8);
                    assert((8 * skip + at + i) % 8 == (at + i) % 8);
                    assert(chunk[i] == bit_at(bytes@, offset + start + (pos + i)));
                } else {
                    assert(!word_bits(word)[i]);
                }
            }
        }
        if zeros {
            let ghost ones = word;
            // Complementing turns the padding above `width` into ones, so mask it off again.
            word = mask_to(!word, width);
            proof {
                assert forall|i: int| 0 <= i < 64 implies #[trigger] word_bit(word, i) == (i < width
                    && !chunk[i]) by {
                    let j = i as u64;
                    assert((!ones >> j) & 1u64 == 1u64 <==> (ones >> j) & 1u64 != 1u64)
                        by (bit_vector)
                        requires
                            j < 64,
                    ;
                    if i < width {
                        assert(word_bits(word).take(width as int)[i] == word_bit(!ones, i));
                    } else {
                        assert(!word_bits(word)[i]);
                    }
                    assert(word_bit(ones, i) == (i < width && chunk[i]));
                }
            }
        }
        proof {
            lemma_word_stands_for_chunk(word, chunk, !zeros);
            lemma_count_split(window.take(pos + width), !zeros, pos as int);
            assert(window.take(pos + width).take(pos as int) =~= window.take(pos as int));
            assert(window.take(pos + width).skip(pos as int) =~= chunk);
        }
        let matching: usize = word.count_ones() as usize;
        if remaining < matching {
            let in_word: usize = select_in_word(word, remaining);
            proof {
                lemma_is_nth_shift(
                    window,
                    chunk,
                    !zeros,
                    pos as int,
                    remaining as int,
                    in_word as int,
                );
                lemma_is_nth_below_count(window, !zeros, nth as int, pos + in_word);
            }
            return Some(pos + in_word);
        }
        remaining = remaining - matching;
        pos = pos + width;
    }
    assert(window.take(pos as int) =~= window);
    None
}

} // verus!
