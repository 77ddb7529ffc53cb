//! What holds of select as a whole.
//!
//! The laws on bit strings are stated over the model that the executable contracts use. Those on
//! buffers, bytes and words go past the model: they speak of the binary digits of the stored
//! numbers and of how often a digit occurs, so they fix what the model itself means.

use vortex_buffer::BitBuffer;
use vstd::arithmetic::power2::pow2;
use vstd::prelude::*;

use crate::bits::{
    bit_at, byte_bit, byte_bits, complement, count, is_nth, is_select, lemma_count_monotone,
    lemma_count_none, lemma_count_pointwise, lemma_count_split, lemma_count_step,
    lemma_is_nth_below_count, lemma_is_nth_pointwise, lemma_is_nth_shift, packed_bits, positions,
    word_bit, word_bits,
};
use crate::buffer::{backing_bytes_of, buffer_bits, len_of, offset_of};

verus! {

/// A later rank lies at a later position.
pub proof fn law_select_increasing(
    bits: Seq<bool>,
    want: bool,
    nth_a: int,
    pos_a: int,
    nth_b: int,
    pos_b: int,
)
    requires
        is_nth(bits, want, nth_a, pos_a),
        is_nth(bits, want, nth_b, pos_b),
    ensures
        nth_a < nth_b <==> pos_a < pos_b,
{
    lemma_count_step(bits, want, pos_a);
    lemma_count_step(bits, want, pos_b);
    if pos_a < pos_b {
        lemma_count_monotone(bits, want, pos_a + 1, pos_b);
    }
    if pos_b < pos_a {
        lemma_count_monotone(bits, want, pos_b + 1, pos_a);
    }
}

/// A select has one answer: equal bits and equal ranks give equal results.
pub proof fn law_select_unique(
    bits: Seq<bool>,
    want: bool,
    nth: int,
    a: Option<usize>,
    b: Option<usize>,
)
    requires
        is_select(bits, want, nth, a),
        is_select(bits, want, nth, b),
    ensures
        a == b,
{
    if let (Some(p), Some(q)) = (a, b) {
        law_select_increasing(bits, want, nth, p as int, nth, q as int);
        law_select_increasing(bits, want, nth, q as int, nth, p as int);
    }
}

/// Select agrees with collecting the positions one bit at a time, over the whole range of ranks:
/// there are as many positions as the count, and the `nth` of them is the `nth` wanted bit.
pub proof fn law_select_agrees_with_positions(bits: Seq<bool>, want: bool)
    ensures
        positions(bits, want).len() == count(bits, want),
        forall|nth: int|
            0 <= nth < count(bits, want) ==> is_nth(
                bits,
                want,
                nth,
                #[trigger] positions(bits, want)[nth],
            ),
    decreases bits.len(),
{
    if bits.len() > 0 {
        let init = bits.drop_last();
        let before = positions(init, want);
        law_select_agrees_with_positions(init, want);
        assert forall|nth: int| 0 <= nth < count(bits, want) implies is_nth(
            bits,
            want,
            nth,
            #[trigger] positions(bits, want)[nth],
        ) by {
            if nth < count(init, want) {
                assert(positions(bits, want)[nth] == before[nth]);
                assert(is_nth(init, want, nth, before[nth]));
                assert(bits.take(before[nth]) =~= init.take(before[nth]));
            } else {
                assert(bits.take(bits.len() - 1) =~= init);
            }
        }
    }
}

/// Every rank below the count has a position, so a select that owes an answer has one to give.
pub proof fn law_select_exists(bits: Seq<bool>, want: bool, nth: int)
    requires
        0 <= nth < count(bits, want),
    ensures
        exists|pos: int| is_nth(bits, want, nth, pos),
{
    law_select_agrees_with_positions(bits, want);
    assert(is_nth(bits, want, nth, positions(bits, want)[nth]));
}

/// Select undoes rank: asked for the rank of a wanted bit, it answers that bit's position.
pub proof fn law_select_undoes_rank(bits: Seq<bool>, want: bool, pos: int, found: Option<usize>)
    requires
        0 <= pos < bits.len(),
        bits[pos] == want,
        is_select(bits, want, count(bits.take(pos), want) as int, found),
    ensures
        found is Some,
        found->0 == pos,
{
    let nth = count(bits.take(pos), want) as int;
    lemma_is_nth_below_count(bits, want, nth, pos);
    law_select_increasing(bits, want, nth, pos, nth, found->0 as int);
    law_select_increasing(bits, want, nth, found->0 as int, nth, pos);
}

/// Selecting unset bits is selecting set bits of the complement.
pub proof fn law_zeros_are_ones_of_complement(bits: Seq<bool>, nth: int, found: Option<usize>)
    ensures
        is_select(bits, false, nth, found) <==> is_select(complement(bits), true, nth, found),
{
    lemma_count_pointwise(bits, false, complement(bits), true);
    if let Some(pos) = found {
        lemma_is_nth_pointwise(bits, false, complement(bits), true, nth, pos as int);
    }
}

/// The set and the unset bits of a window make up its length.
pub proof fn law_counts_make_up_length(bits: Seq<bool>)
    ensures
        count(bits, true) + count(bits, false) == bits.len(),
    decreases bits.len(),
{
    if bits.len() > 0 {
        law_counts_make_up_length(bits.drop_last());
    }
}

/// The ranks that are present are those below the count: the last of them, if there is any, has an
/// answer, and the first absent rank is the count itself.
pub proof fn law_first_absent_rank_is_count(
    bits: Seq<bool>,
    want: bool,
    last: Option<usize>,
    absent: Option<usize>,
)
    requires
        0 < count(bits, want) ==> is_select(bits, want, count(bits, want) - 1, last),
        is_select(bits, want, count(bits, want) as int, absent),
    ensures
        0 < count(bits, want) ==> last is Some,
        absent is None,
{
}

/// An empty window holds nothing, whatever it is asked for.
pub proof fn law_empty_window(bits: Seq<bool>, want: bool, nth: int, found: Option<usize>)
    requires
        bits.len() == 0,
        0 <= nth,
        is_select(bits, want, nth, found),
    ensures
        found is None,
{
}

/// In a window of equal bits the `nth` of them is at position `nth`, and no other bit exists at
/// any rank.
pub proof fn law_uniform_window(
    bits: Seq<bool>,
    fill: bool,
    nth: int,
    same: Option<usize>,
    other: Option<usize>,
)
    requires
        0 <= nth,
        forall|i: int| 0 <= i < bits.len() ==> #[trigger] bits[i] == fill,
        is_select(bits, fill, nth, same),
        is_select(bits, !fill, nth, other),
    ensures
        same is Some <==> nth < bits.len(),
        same matches Some(pos) ==> pos == nth,
        other is None,
{
    lemma_count_none(bits, !fill);
    law_counts_make_up_length(bits);
    if let Some(pos) = same {
        let prefix = bits.take(pos as int);
        lemma_count_none(prefix, !fill);
        law_counts_make_up_length(prefix);
    }
}

/// A scan may start from a later bit: once the wanted bits between `start` and `mid` are taken off
/// the rank, the window that starts at `mid` gives the same bit.
pub proof fn law_scan_from_lower_bound(
    bits: Seq<bool>,
    want: bool,
    start: int,
    mid: int,
    end: int,
    nth: int,
    whole: Option<usize>,
    rest: Option<usize>,
)
    requires
        0 <= start <= mid <= end <= bits.len(),
        0 <= nth,
        is_select(
            bits.subrange(start, end),
            want,
            count(bits.subrange(start, mid), want) + nth,
            whole,
        ),
        is_select(bits.subrange(mid, end), want, nth, rest),
    ensures
        whole is Some <==> rest is Some,
        rest matches Some(pos) ==> whole->0 == mid - start + pos,
{
    let window = bits.subrange(start, end);
    let tail = bits.subrange(mid, end);
    lemma_count_split(window, want, mid - start);
    assert(window.take(mid - start) =~= bits.subrange(start, mid));
    assert(window.skip(mid - start) =~= tail);
    assert(window.subrange(mid - start, mid - start + tail.len()) =~= tail);
    let rank = count(bits.subrange(start, mid), want) + nth;
    if let Some(pos) = rest {
        let there = mid - start + pos;
        lemma_is_nth_shift(window, tail, want, mid - start, nth, pos as int);
        law_select_increasing(window, want, rank, there, rank, whole->0 as int);
        law_select_increasing(window, want, rank, whole->0 as int, rank, there);
    }
}

/// A window may stop early: a rank that is present before `mid` has the same position whether the
/// window ends at `mid` or later.
pub proof fn law_end_beyond_answer(
    bits: Seq<bool>,
    want: bool,
    start: int,
    mid: int,
    end: int,
    nth: int,
    long: Option<usize>,
    short: Option<usize>,
)
    requires
        0 <= start <= mid <= end <= bits.len(),
        nth < count(bits.subrange(start, mid), want),
        is_select(bits.subrange(start, end), want, nth, long),
        is_select(bits.subrange(start, mid), want, nth, short),
    ensures
        long is Some,
        long == short,
{
    let window = bits.subrange(start, end);
    let head = bits.subrange(start, mid);
    lemma_count_split(window, want, mid - start);
    assert(window.take(mid - start) =~= head);
    let pos = short->0 as int;
    assert(window.take(pos) =~= head.take(pos));
    law_select_increasing(window, want, nth, pos, nth, long->0 as int);
    law_select_increasing(window, want, nth, long->0 as int, nth, pos);
}

/// A word is known by its bits.
pub proof fn law_word_known_by_bits(a: u64, b: u64)
    requires
        word_bits(a) == word_bits(b),
    ensures
        a == b,
{
    if a != b {
        let diff = a ^ b;
        let low = diff.trailing_zeros() as u64;
        vstd::std_specs::bits::axiom_u64_trailing_zeros(diff);
        assert(diff != 0) by (bit_vector)
            requires
                diff == a ^ b,
                a != b,
        ;
        assert(((a >> low) & 1u64 == 1u64) != ((b >> low) & 1u64 == 1u64)) by (bit_vector)
            requires
                low < 64,
                diff == a ^ b,
                (diff >> low) & 1u64 == 1u64,
        ;
        assert(word_bits(a)[low as int] == word_bit(a, low as int));
        assert(word_bits(b)[low as int] == word_bit(b, low as int));
    }
}

/// The bits of a byte are its binary digits: bit `i` is set exactly when `byte / 2^i` is odd.
pub proof fn law_byte_bits_are_binary_digits(byte: u8, i: int)
    requires
        0 <= i < 8,
    ensures
        byte_bits(byte).len() == 8,
        byte_bits(byte)[i] <==> (byte as nat / pow2(i as nat)) % 2 == 1,
        byte_bit(byte, i) <==> (byte as nat / pow2(i as nat)) % 2 == 1,
{
    let shifted = byte >> (i as u8);
    vstd::bits::lemma_u8_shr_is_div(byte, i as u8);
    assert(shifted & 1u8 == shifted % 2) by (bit_vector);
}

/// The bits of a word are its binary digits: bit `i` is set exactly when `word / 2^i` is odd.
pub proof fn law_word_bits_are_binary_digits(word: u64, i: int)
    requires
        0 <= i < 64,
    ensures
        word_bits(word).len() == 64,
        word_bits(word)[i] <==> (word as nat / pow2(i as nat)) % 2 == 1,
        word_bit(word, i) <==> (word as nat / pow2(i as nat)) % 2 == 1,
{
    let shifted = word >> (i as u64);
    vstd::bits::lemma_u64_shr_is_div(word, i as u64);
    assert(shifted & 1u64 == shifted % 2) by (bit_vector);
}

/// A count is the number of occurrences among the bits.
pub proof fn law_count_is_occurrences(bits: Seq<bool>, want: bool)
    ensures
        count(bits, want) == bits.to_multiset().count(want),
    decreases bits.len(),
{
    broadcast use vstd::seq_lib::group_to_multiset_ensures;

    if bits.len() == 0 {
        assert(!bits.contains(want));
    } else {
        law_count_is_occurrences(bits.drop_last(), want);
        assert(bits =~= bits.drop_last().push(bits.last()));
    }
}

/// Packed bits are binary digits of the bytes, eight to a byte, from the first byte on and from
/// the least significant digit on; past the last byte they are unset.
pub proof fn law_packed_bits_are_binary_digits(bytes: Seq<u8>, from: int, len: nat)
    requires
        0 <= from,
    ensures
        packed_bits(bytes, from, len) == Seq::new(
            len,
            |i: int|
                from + i < 8 * bytes.len() && (bytes[(from + i) / 8] as nat / pow2(
                    ((from + i) % 8) as nat,
                )) % 2 == 1,
        ),
{
    let digits = Seq::new(
        len,
        |i: int|
            from + i < 8 * bytes.len() && (bytes[(from + i) / 8] as nat / pow2(
                ((from + i) % 8) as nat,
            )) % 2 == 1,
    );
    assert forall|i: int| 0 <= i < len implies #[trigger] packed_bits(bytes, from, len)[i]
        == digits[i] by {
        assert(packed_bits(bytes, from, len)[i] == bit_at(bytes, from + i));
        if from + i < 8 * bytes.len() {
            law_byte_bits_are_binary_digits(bytes[(from + i) / 8], (from + i) % 8);
        }
    }
    assert(packed_bits(bytes, from, len) =~= digits);
}

/// The bits of a buffer, whatever its length and however many bytes back it: bit `i` is the binary
/// digit at `offset + i` of the backing bytes.
pub proof fn law_buffer_bits_are_backing_digits(buf: BitBuffer)
    ensures
        buffer_bits(buf) == Seq::new(
            len_of(buf) as nat,
            |i: int|
                offset_of(buf) + i < 8 * backing_bytes_of(buf).len() && (backing_bytes_of(
                    buf,
                )[(offset_of(buf) + i) / 8] as nat / pow2(((offset_of(buf) + i) % 8) as nat)) % 2
                    == 1,
        ),
{
    law_packed_bits_are_binary_digits(
        backing_bytes_of(buf),
        offset_of(buf) as int,
        len_of(buf) as nat,
    );
    assert(buffer_bits(buf) =~= Seq::new(
        len_of(buf) as nat,
        |i: int|
            offset_of(buf) + i < 8 * backing_bytes_of(buf).len() && (backing_bytes_of(
                buf,
            )[(offset_of(buf) + i) / 8] as nat / pow2(((offset_of(buf) + i) % 8) as nat)) % 2 == 1,
    ));
}

/// Select does not depend on where a buffer starts in its bytes: two buffers of one length whose
/// backing digits agree, each from its own offset on, hold the same bits, and a select over the
/// same window of both has the same answer.
pub proof fn law_select_independent_of_offset(
    a: BitBuffer,
    b: BitBuffer,
    start: int,
    end: int,
    want: bool,
    nth: int,
    found_a: Option<usize>,
    found_b: Option<usize>,
)
    requires
        0 <= start <= end <= len_of(a),
        len_of(a) == len_of(b),
        Seq::new(
            len_of(a) as nat,
            |i: int|
                offset_of(a) + i < 8 * backing_bytes_of(a).len() && (backing_bytes_of(
                    a,
                )[(offset_of(a) + i) / 8] as nat / pow2(((offset_of(a) + i) % 8) as nat)) % 2 == 1,
        ) == Seq::new(
            len_of(b) as nat,
            |i: int|
                offset_of(b) + i < 8 * backing_bytes_of(b).len() && (backing_bytes_of(
                    b,
                )[(offset_of(b) + i) / 8] as nat / pow2(((offset_of(b) + i) % 8) as nat)) % 2 == 1,
        ),
        is_select(buffer_bits(a).subrange(start, end), want, nth, found_a),
        is_select(buffer_bits(b).subrange(start, end), want, nth, found_b),
    ensures
        buffer_bits(a) == buffer_bits(b),
        found_a == found_b,
{
    law_buffer_bits_are_backing_digits(a);
    law_buffer_bits_are_backing_digits(b);
    assert(buffer_bits(a) =~= buffer_bits(b));
    law_select_unique(buffer_bits(a).subrange(start, end), want, nth, found_a, found_b);
}

/// A select in terms of occurrences: the answer is the position of a wanted bit with exactly `nth`
/// wanted ones before it, and there is none exactly where no more than `nth` occur.
pub proof fn law_select_by_occurrences(
    bits: Seq<bool>,
    want: bool,
    nth: int,
    found: Option<usize>,
)
    ensures
        is_select(bits, want, nth, found) <==> match found {
            Some(pos) => pos < bits.len() && bits[pos as int] == want && bits.take(
                pos as int,
            ).to_multiset().count(want) == nth,
            None => bits.to_multiset().count(want) <= nth,
        },
{
    law_count_is_occurrences(bits, want);
    if let Some(pos) = found {
        law_count_is_occurrences(bits.take(pos as int), want);
        if is_nth(bits, want, nth, pos as int) {
            lemma_is_nth_below_count(bits, want, nth, pos as int);
        }
    }
}

/// What a select over packed bytes answers, from the bytes alone: take the binary digits of the
/// window, each at `offset + start` plus its position; the answer is the position of a wanted
/// digit with exactly `nth` wanted ones before it, or none where no more than `nth` occur.
pub proof fn law_select_reads_digits_of_bytes(
    bytes: Seq<u8>,
    offset: int,
    start: int,
    end: int,
    want: bool,
    nth: int,
    found: Option<usize>,
)
    requires
        0 <= offset,
        0 <= start <= end,
    ensures
        is_select(packed_bits(bytes, offset + start, (end - start) as nat), want, nth, found)
            <==> ({
            let window = Seq::new(
                (end - start) as nat,
                |i: int|
                    offset + start + i < 8 * bytes.len() && (bytes[(offset + start + i) / 8] as nat
                        / pow2(((offset + start + i) % 8) as nat)) % 2 == 1,
            );
            match found {
                Some(pos) => pos < end - start && window[pos as int] == want && window.take(
                    pos as int,
                ).to_multiset().count(want) == nth,
                None => window.to_multiset().count(want) <= nth,
            }
        }),
{
    let window = Seq::new(
        (end - start) as nat,
        |i: int|
            offset + start + i < 8 * bytes.len() && (bytes[(offset + start + i) / 8] as nat / pow2(
                ((offset + start + i) % 8) as nat,
            )) % 2 == 1,
    );
    law_packed_bits_are_binary_digits(bytes, offset + start, (end - start) as nat);
    assert(packed_bits(bytes, offset + start, (end - start) as nat) =~= window);
    law_select_by_occurrences(window, want, nth, found);
}

/// What a select over a window of a buffer answers, from the backing bytes, the offset and the
/// length alone: as for packed bytes, whatever the size of the buffer and of the window.
pub proof fn law_select_reads_digits_of_buffer(
    buf: BitBuffer,
    start: int,
    end: int,
    want: bool,
    nth: int,
    found: Option<usize>,
)
    requires
        0 <= start <= end <= len_of(buf),
    ensures
        is_select(buffer_bits(buf).subrange(start, end), want, nth, found) <==> ({
            let window = Seq::new(
                (end - start) as nat,
                |i: int|
                    offset_of(buf) + start + i < 8 * backing_bytes_of(buf).len() && (
                    backing_bytes_of(buf)[(offset_of(buf) + start + i) / 8] as nat / pow2(
                        ((offset_of(buf) + start + i) % 8) as nat,
                    )) % 2 == 1,
            );
            match found {
                Some(pos) => pos < end - start && window[pos as int] == want && window.take(
                    pos as int,
                ).to_multiset().count(want) == nth,
                None => window.to_multiset().count(want) <= nth,
            }
        }),
{
    let window = Seq::new(
        (end - start) as nat,
        |i: int|
            offset_of(buf) + start + i < 8 * backing_bytes_of(buf).len() && (backing_bytes_of(
                buf,
            )[(offset_of(buf) + start + i) / 8] as nat / pow2(
                ((offset_of(buf) + start + i) % 8) as nat,
            )) % 2 == 1,
    );
    law_buffer_bits_are_backing_digits(buf);
    assert forall|i: int| 0 <= i < end - start implies #[trigger] window[i] == buffer_bits(
        buf,
    ).subrange(start, end)[i] by {
        assert(offset_of(buf) + (start + i) == offset_of(buf) + start + i);
    }
    assert(buffer_bits(buf).subrange(start, end) =~= window);
    law_select_by_occurrences(window, want, nth, found);
}

/// Nothing wanted lies before the first answer, and nothing wanted is left out by giving none.
pub proof fn law_first_answer(bits: Seq<bool>, want: bool, found: Option<usize>)
    requires
        is_select(bits, want, 0, found),
    ensures
        match found {
            Some(pos) => pos < bits.len() && bits[pos as int] == want && forall|i: int|
                0 <= i < pos ==> #[trigger] bits[i] != want,
            None => forall|i: int| 0 <= i < bits.len() ==> #[trigger] bits[i] != want,
        },
{
    let stop = match found {
        Some(pos) => pos as int,
        None => bits.len() as int,
    };
    assert forall|i: int| 0 <= i < stop implies #[trigger] bits[i] != want by {
        lemma_count_step(bits, want, i);
        lemma_count_monotone(bits, want, i + 1, stop);
        assert(bits.take(bits.len() as int) =~= bits);
    }
}

/// The answer to the next rank is the next wanted bit: it lies later and nothing wanted lies
/// between. Where the next rank has no answer, nothing wanted is left; where a rank has none, the
/// next has none.
pub proof fn law_next_answer(
    bits: Seq<bool>,
    want: bool,
    nth: int,
    found: Option<usize>,
    next: Option<usize>,
)
    requires
        0 <= nth,
        is_select(bits, want, nth, found),
        is_select(bits, want, nth + 1, next),
    ensures
        match (found, next) {
            (Some(pos), Some(after)) => pos < after < bits.len() && bits[after as int] == want
                && forall|i: int| pos < i < after ==> #[trigger] bits[i] != want,
            (Some(pos), None) => forall|i: int|
                pos < i < bits.len() ==> #[trigger] bits[i] != want,
            (None, _) => next is None,
        },
{
    if let Some(pos) = found {
        let stop = match next {
            Some(after) => after as int,
            None => bits.len() as int,
        };
        if let Some(after) = next {
            law_select_increasing(bits, want, nth, pos as int, nth + 1, after as int);
        }
        lemma_count_step(bits, want, pos as int);
        assert forall|i: int| pos < i < stop implies #[trigger] bits[i] != want by {
            lemma_count_monotone(bits, want, pos + 1, i);
            lemma_count_step(bits, want, i);
            lemma_count_monotone(bits, want, i + 1, stop);
            assert(bits.take(bits.len() as int) =~= bits);
        }
    }
}

/// The `nth` set bit of a word, from the word's value alone: a binary digit that is one, with
/// exactly `nth` ones among the digits below it.
pub proof fn law_select_reads_digits_of_word(word: u64, nth: int, pos: int)
    ensures
        is_nth(word_bits(word), true, nth, pos) <==> ({
            let digits = Seq::new(64, |i: int| (word as nat / pow2(i as nat)) % 2 == 1);
            0 <= pos < 64 && digits[pos] && digits.take(pos).to_multiset().count(true) == nth
        }),
{
    let digits = Seq::new(64, |i: int| (word as nat / pow2(i as nat)) % 2 == 1);
    assert forall|i: int| 0 <= i < 64 implies #[trigger] word_bits(word)[i] == digits[i] by {
        law_word_bits_are_binary_digits(word, i);
    }
    assert(word_bits(word) =~= digits);
    law_count_is_occurrences(digits.take(pos), true);
}

/// The `nth` set bit of a byte, from the byte's value alone: a binary digit that is one, with
/// exactly `nth` ones among the digits below it.
pub proof fn law_select_reads_digits_of_byte(byte: u8, nth: int, pos: int)
    ensures
        is_nth(byte_bits(byte), true, nth, pos) <==> ({
            let digits = Seq::new(8, |i: int| (byte as nat / pow2(i as nat)) % 2 == 1);
            0 <= pos < 8 && digits[pos] && digits.take(pos).to_multiset().count(true) == nth
        }),
{
    let digits = Seq::new(8, |i: int| (byte as nat / pow2(i as nat)) % 2 == 1);
    assert forall|i: int| 0 <= i < 8 implies #[trigger] byte_bits(byte)[i] == digits[i] by {
        law_byte_bits_are_binary_digits(byte, i);
    }
    assert(byte_bits(byte) =~= digits);
    law_count_is_occurrences(digits.take(pos), true);
}

/// A word loaded from packed bytes, from the bytes alone: its binary digits below `width` are
/// those of the bytes from `at` on, and the rest are zero.
pub proof fn law_loaded_word_has_digits_of_bytes(bytes: Seq<u8>, at: int, width: int, word: u64)
    requires
        0 <= at,
        0 < width <= 64,
        word_bits(word).take(width) == packed_bits(bytes, at, width as nat),
        forall|i: int| width <= i < 64 ==> !word_bits(word)[i],
    ensures
        Seq::new(64, |i: int| (word as nat / pow2(i as nat)) % 2 == 1) == Seq::new(
            64,
            |i: int|
                i < width && at + i < 8 * bytes.len() && (bytes[(at + i) / 8] as nat / pow2(
                    ((at + i) % 8) as nat,
                )) % 2 == 1,
        ),
{
    let loaded = Seq::new(64, |i: int| (word as nat / pow2(i as nat)) % 2 == 1);
    let stored = Seq::new(
        64,
        |i: int|
            i < width && at + i < 8 * bytes.len() && (bytes[(at + i) / 8] as nat / pow2(
                ((at + i) % 8) as nat,
            )) % 2 == 1,
    );
    law_packed_bits_are_binary_digits(bytes, at, width as nat);
    assert forall|i: int| 0 <= i < 64 implies #[trigger] loaded[i] == stored[i] by {
        law_word_bits_are_binary_digits(word, i);
        if i < width {
            assert(word_bits(word).take(width)[i] == packed_bits(bytes, at, width as nat)[i]);
        } else {
            assert(!word_bits(word)[i]);
        }
    }
    assert(loaded =~= stored);
}

} // verus!
