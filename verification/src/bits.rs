//! The mathematical model: bit strings as `Seq<bool>`, and the counting that rank and select are
//! defined by.

use vstd::prelude::*;

verus! {

/// Bit `i` of `byte`, counted from the least significant end.
pub open spec fn byte_bit(byte: u8, i: int) -> bool {
    (byte >> (i as u8)) & 1u8 == 1u8
}

/// Bit `i` of `word`, counted from the least significant end.
pub open spec fn word_bit(word: u64, i: int) -> bool {
    (word >> (i as u64)) & 1u64 == 1u64
}

/// The eight bits of `byte`, least significant first.
pub open spec fn byte_bits(byte: u8) -> Seq<bool> {
    Seq::new(8, |i: int| byte_bit(byte, i))
}

/// The sixty-four bits of `word`, least significant first.
pub open spec fn word_bits(word: u64) -> Seq<bool> {
    Seq::new(64, |i: int| word_bit(word, i))
}

/// Bit `i` of a packed byte sequence, least significant bit of the first byte first. A bit past
/// the last byte reads as unset.
pub open spec fn bit_at(bytes: Seq<u8>, i: int) -> bool {
    0 <= i < 8 * bytes.len() && byte_bit(bytes[i / 8], i % 8)
}

/// The `len` bits of a packed byte sequence that start at bit `from`.
pub open spec fn packed_bits(bytes: Seq<u8>, from: int, len: nat) -> Seq<bool> {
    Seq::new(len, |i: int| bit_at(bytes, from + i))
}

/// The number of bits of `bits` that equal `want`.
pub open spec fn count(bits: Seq<bool>, want: bool) -> nat
    decreases bits.len(),
{
    if bits.len() == 0 {
        0
    } else {
        count(bits.drop_last(), want) + if bits.last() == want {
            1nat
        } else {
            0nat
        }
    }
}

/// Whether `pos` is the position of the `nth` bit (from zero) of `bits` that equals `want`: the
/// bit at `pos` does, and exactly `nth` of the bits before it do.
pub open spec fn is_nth(bits: Seq<bool>, want: bool, nth: int, pos: int) -> bool {
    &&& 0 <= pos < bits.len()
    &&& bits[pos] == want
    &&& count(bits.take(pos), want) == nth
}

/// Whether `found` answers a select on `bits`: the position of the `nth` bit that equals `want`
/// where there is one, and `None` exactly where `bits` holds `nth` such bits or fewer.
pub open spec fn is_select(bits: Seq<bool>, want: bool, nth: int, found: Option<usize>) -> bool {
    &&& found is Some <==> nth < count(bits, want)
    &&& found matches Some(pos) ==> is_nth(bits, want, nth, pos as int)
}

/// `bits` with every bit flipped.
pub open spec fn complement(bits: Seq<bool>) -> Seq<bool> {
    Seq::new(bits.len(), |i: int| !bits[i])
}

/// The positions of the bits of `bits` that equal `want`, in increasing order, collected one bit
/// at a time.
pub open spec fn positions(bits: Seq<bool>, want: bool) -> Seq<int>
    decreases bits.len(),
{
    if bits.len() == 0 {
        Seq::empty()
    } else {
        let before = positions(bits.drop_last(), want);
        if bits.last() == want {
            before.push(bits.len() - 1)
        } else {
            before
        }
    }
}

/// Counts add up over a concatenation.
pub proof fn lemma_count_concat(a: Seq<bool>, b: Seq<bool>, want: bool)
    ensures
        count(a + b, want) == count(a, want) + count(b, want),
    decreases b.len(),
{
    if b.len() == 0 {
        assert(a + b =~= a);
    } else {
        assert((a + b).drop_last() =~= a + b.drop_last());
        lemma_count_concat(a, b.drop_last(), want);
    }
}

/// Counts add up over a split at `at`.
pub proof fn lemma_count_split(bits: Seq<bool>, want: bool, at: int)
    requires
        0 <= at <= bits.len(),
    ensures
        count(bits, want) == count(bits.take(at), want) + count(bits.skip(at), want),
{
    assert(bits =~= bits.take(at) + bits.skip(at));
    lemma_count_concat(bits.take(at), bits.skip(at), want);
}

/// One more bit adds one to the count exactly when it is a wanted one.
pub proof fn lemma_count_step(bits: Seq<bool>, want: bool, at: int)
    requires
        0 <= at < bits.len(),
    ensures
        count(bits.take(at + 1), want) == count(bits.take(at), want) + if bits[at] == want {
            1nat
        } else {
            0nat
        },
{
    assert(bits.take(at + 1).drop_last() =~= bits.take(at));
}

/// Prefix counts grow with the prefix.
pub proof fn lemma_count_monotone(bits: Seq<bool>, want: bool, lo: int, hi: int)
    requires
        0 <= lo <= hi <= bits.len(),
    ensures
        count(bits.take(lo), want) <= count(bits.take(hi), want),
{
    lemma_count_split(bits.take(hi), want, lo);
    assert(bits.take(hi).take(lo) =~= bits.take(lo));
}

/// Two bit strings that agree, bit for bit, on which bits are wanted have the same count.
pub proof fn lemma_count_pointwise(a: Seq<bool>, want_a: bool, b: Seq<bool>, want_b: bool)
    requires
        a.len() == b.len(),
        forall|i: int| 0 <= i < a.len() ==> (a[i] == want_a) == (#[trigger] b[i] == want_b),
    ensures
        count(a, want_a) == count(b, want_b),
    decreases a.len(),
{
    if a.len() > 0 {
        assert((a.last() == want_a) == (b.last() == want_b)) by {
            assert(b[b.len() - 1] == b.last());
        }
        assert forall|i: int| 0 <= i < a.drop_last().len() implies (a.drop_last()[i] == want_a) == (
        #[trigger] b.drop_last()[i] == want_b) by {
            assert(b.drop_last()[i] == b[i]);
        }
        lemma_count_pointwise(a.drop_last(), want_a, b.drop_last(), want_b);
    }
}

/// A bit string in which no bit is wanted has count zero.
pub proof fn lemma_count_none(bits: Seq<bool>, want: bool)
    requires
        forall|i: int| 0 <= i < bits.len() ==> #[trigger] bits[i] != want,
    ensures
        count(bits, want) == 0,
    decreases bits.len(),
{
    if bits.len() > 0 {
        lemma_count_none(bits.drop_last(), want);
    }
}

/// A bit string that has an `nth` wanted bit holds more than `nth` of them.
pub proof fn lemma_is_nth_below_count(bits: Seq<bool>, want: bool, nth: int, pos: int)
    requires
        is_nth(bits, want, nth, pos),
    ensures
        nth < count(bits, want),
{
    lemma_count_step(bits, want, pos);
    lemma_count_split(bits, want, pos + 1);
}

/// The `nth` wanted bit of a part starting at `at` is the one that many wanted bits later in the
/// whole.
pub proof fn lemma_is_nth_shift(
    whole: Seq<bool>,
    part: Seq<bool>,
    want: bool,
    at: int,
    nth: int,
    pos: int,
)
    requires
        0 <= at <= whole.len(),
        at + part.len() <= whole.len(),
        part == whole.subrange(at, at + part.len()),
        is_nth(part, want, nth, pos),
    ensures
        is_nth(whole, want, count(whole.take(at), want) + nth, at + pos),
{
    lemma_count_concat(whole.take(at), part.take(pos), want);
    assert(whole.take(at + pos) =~= whole.take(at) + part.take(pos));
}

/// A position is the `nth` wanted one alike in two bit strings that agree, bit for bit, on which
/// bits are wanted.
pub proof fn lemma_is_nth_pointwise(
    a: Seq<bool>,
    want_a: bool,
    b: Seq<bool>,
    want_b: bool,
    nth: int,
    pos: int,
)
    requires
        a.len() == b.len(),
        forall|i: int| 0 <= i < a.len() ==> (a[i] == want_a) == (#[trigger] b[i] == want_b),
    ensures
        is_nth(a, want_a, nth, pos) == is_nth(b, want_b, nth, pos),
{
    if 0 <= pos < a.len() {
        assert((a[pos] == want_a) == (b[pos] == want_b));
        lemma_count_pointwise(a.take(pos), want_a, b.take(pos), want_b);
    }
}

} // verus!
