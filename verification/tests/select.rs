use elias_fano::{
    check_window, checked_select_range, checked_select_zero_range, select_range, select_zero_range,
    WindowError,
};
use vortex_buffer::{BitBuffer, ByteBuffer};

/// A pattern near 50% density, deliberately not byte-periodic.
fn mixed_bytes(len: usize) -> Vec<u8> {
    (0..len)
        .map(|i| (i as u8).wrapping_mul(37) ^ 0x5A)
        .collect()
}

fn bit_buffer(bytes: Vec<u8>, offset: usize, len: usize) -> BitBuffer {
    BitBuffer::new_with_offset(ByteBuffer::copy_from(bytes), len, offset)
}

/// Positions of the bits equal to `want`, one at a time, as the reference answer.
fn naive_positions(buf: &BitBuffer, start: usize, end: usize, want: bool) -> Vec<usize> {
    (start..end)
        .filter(|&i| buf.value(i) == want)
        .map(|i| i - start)
        .collect()
}

/// Both variants must agree with the bit-at-a-time reference across the whole rank range, and
/// both must report `None` one past the last rank.
fn check_against_naive(buf: &BitBuffer, start: usize, end: usize) {
    for (want, select) in [
        (
            true,
            select_range as fn(&BitBuffer, usize, usize, usize) -> Option<usize>,
        ),
        (
            false,
            select_zero_range as fn(&BitBuffer, usize, usize, usize) -> Option<usize>,
        ),
    ] {
        let expected = naive_positions(buf, start, end, want);
        for (nth, &expected_pos) in expected.iter().enumerate() {
            assert_eq!(
                select(buf, start, end, nth),
                Some(expected_pos),
                "want={want} start={start} end={end} nth={nth}"
            );
        }
        assert_eq!(
            select(buf, start, end, expected.len()),
            None,
            "want={want} start={start} end={end} past-the-end rank"
        );
    }
}

fn check_mixed(offset: usize, start: usize, end: usize) {
    let buf = bit_buffer(mixed_bytes((offset + end).div_ceil(8) + 1), offset, end);
    check_against_naive(&buf, start, end);
}

/// 50% density is exactly where confusing ones with zeros is least visible; these make it
/// obvious.
fn check_uniform(fill: u8) {
    for (offset, start, end) in [
        (0usize, 0usize, 8usize),
        (0, 0, 128),
        (3, 2, 5),
        (5, 7, 130),
        (1, 200, 517),
    ] {
        let buf = bit_buffer(vec![fill; (offset + end).div_ceil(8) + 1], offset, end);
        check_against_naive(&buf, start, end);
    }
}

#[test]
fn select_agrees_with_naive_offset_0_from_0_to_128() {
    check_mixed(0, 0, 128);
}

#[test]
fn select_agrees_with_naive_offset_3_from_0_to_100() {
    check_mixed(3, 0, 100);
}

#[test]
fn select_agrees_with_naive_offset_7_from_0_to_50() {
    check_mixed(7, 0, 50);
}

#[test]
fn select_agrees_with_naive_offset_0_from_0_to_1() {
    check_mixed(0, 0, 1);
}

#[test]
fn select_agrees_with_naive_offset_0_from_0_to_64() {
    check_mixed(0, 0, 64);
}

#[test]
fn select_agrees_with_naive_offset_1_from_0_to_64() {
    check_mixed(1, 0, 64);
}

#[test]
fn select_agrees_with_naive_offset_0_from_0_to_65() {
    check_mixed(0, 0, 65);
}

#[test]
fn select_agrees_with_naive_offset_3_from_0_to_256() {
    check_mixed(3, 0, 256);
}

#[test]
fn select_agrees_with_naive_offset_0_from_0_to_512() {
    check_mixed(0, 0, 512);
}

#[test]
fn select_agrees_with_naive_offset_0_from_0_to_513() {
    check_mixed(0, 0, 513);
}

#[test]
fn select_agrees_with_naive_offset_5_from_0_to_1024() {
    check_mixed(5, 0, 1024);
}

// Windows that start partway in, which is the shape a sample lower bound produces.

#[test]
fn select_agrees_with_naive_offset_0_from_1_to_128() {
    check_mixed(0, 1, 128);
}

#[test]
fn select_agrees_with_naive_offset_0_from_63_to_128() {
    check_mixed(0, 63, 128);
}

#[test]
fn select_agrees_with_naive_offset_0_from_64_to_200() {
    check_mixed(0, 64, 200);
}

#[test]
fn select_agrees_with_naive_offset_0_from_65_to_200() {
    check_mixed(0, 65, 200);
}

#[test]
fn select_agrees_with_naive_offset_3_from_70_to_300() {
    check_mixed(3, 70, 300);
}

#[test]
fn select_agrees_with_naive_offset_5_from_511_to_1024() {
    check_mixed(5, 511, 1024);
}

// Sub-word windows, where the only word's valid width is what the zero path must respect.

#[test]
fn select_agrees_with_naive_offset_1_from_0_to_1() {
    check_mixed(1, 0, 1);
}

#[test]
fn select_agrees_with_naive_offset_1_from_2_to_8() {
    check_mixed(1, 2, 8);
}

#[test]
fn select_agrees_with_naive_offset_4_from_3_to_6() {
    check_mixed(4, 3, 6);
}

#[test]
fn select_agrees_with_naive_offset_7_from_0_to_1() {
    check_mixed(7, 0, 1);
}

#[test]
fn select_agrees_with_naive_offset_0_from_9_to_17() {
    check_mixed(0, 9, 17);
}

#[test]
fn select_agrees_with_naive_offset_2_from_71_to_71() {
    check_mixed(2, 71, 71);
}

#[test]
fn select_uniform_density_all_zero() {
    check_uniform(0x00);
}

#[test]
fn select_uniform_density_all_one() {
    check_uniform(0xFF);
}

#[test]
fn select_uniform_density_sparse() {
    check_uniform(0x01);
}

#[test]
fn select_uniform_density_dense() {
    check_uniform(0xFE);
}

#[test]
fn select_degenerate_buffers() {
    // All ones: no zero to find, at any rank.
    let ones = bit_buffer(vec![0xFF; 17], 0, 128);
    assert_eq!(select_zero_range(&ones, 0, 128, 0), None);
    assert_eq!(select_range(&ones, 0, 128, 127), Some(127));

    // All zeros: the nth zero is at position n, and no set bit exists.
    let zeros = bit_buffer(vec![0x00; 17], 0, 128);
    for nth in 0..128 {
        assert_eq!(
            select_zero_range(&zeros, 0, 128, nth),
            Some(nth),
            "nth={nth}"
        );
    }
    assert_eq!(select_zero_range(&zeros, 0, 128, 128), None);
    assert_eq!(select_range(&zeros, 0, 128, 0), None);
}

/// An empty window holds nothing, whatever it is asked for.
#[test]
fn select_empty_window() {
    let buf = bit_buffer(mixed_bytes(16), 0, 128);
    assert_eq!(select_range(&buf, 64, 64, 0), None);
    assert_eq!(select_zero_range(&buf, 64, 64, 0), None);
}

/// The counts a window reports must match `count_range`, and the first absent rank is the one
/// at that count.
#[test]
fn select_count_agrees_with_count_range() {
    let buf = bit_buffer(mixed_bytes(300), 3, 2000);
    for (start, end) in [(0usize, 2000usize), (5, 1999), (7, 8), (64, 583)] {
        let ones = buf.count_range(start, end);
        let zeros = (end - start) - ones;
        if let Some(last) = ones.checked_sub(1) {
            assert!(select_range(&buf, start, end, last).is_some());
        }
        assert_eq!(select_range(&buf, start, end, ones), None);
        if let Some(last) = zeros.checked_sub(1) {
            assert!(select_zero_range(&buf, start, end, last).is_some());
        }
        assert_eq!(select_zero_range(&buf, start, end, zeros), None);
    }
}

#[test]
fn select_exact_positions() {
    // From the low end: 0 1 1 0 1 0 0 1, then 1 1 0 0 0 0 0 0.
    let buf = bit_buffer(vec![0b1001_0110, 0b0000_0011], 0, 16);
    assert_eq!(select_range(&buf, 0, 16, 0), Some(1));
    assert_eq!(select_range(&buf, 0, 16, 3), Some(7));
    assert_eq!(select_range(&buf, 0, 16, 5), Some(9));
    assert_eq!(select_range(&buf, 0, 16, 6), None);
    assert_eq!(select_zero_range(&buf, 0, 16, 1), Some(3));
    assert_eq!(select_zero_range(&buf, 3, 9, 1), Some(2));
    assert_eq!(select_range(&buf, 3, 9, 2), Some(5));
}

#[test]
fn select_does_not_depend_on_offset() {
    // The same 120 bits, once at offset 0 and once shifted up by five.
    let bytes = mixed_bytes(16);
    let mut shifted: Vec<u8> = vec![0; 17];
    for i in 0..128 {
        if (bytes[i / 8] >> (i % 8)) & 1 == 1 {
            shifted[(i + 5) / 8] |= 1 << ((i + 5) % 8);
        }
    }
    let aligned = bit_buffer(bytes, 0, 120);
    let unaligned = bit_buffer(shifted, 5, 120);
    for nth in 0..121 {
        assert_eq!(
            select_range(&aligned, 9, 120, nth),
            select_range(&unaligned, 9, 120, nth)
        );
        assert_eq!(
            select_zero_range(&aligned, 9, 120, nth),
            select_zero_range(&unaligned, 9, 120, nth)
        );
    }
}

#[test]
fn select_whole_bytes_of_offset() {
    let buf = bit_buffer(vec![0xFF, 0xFF, 0x00, 0x10], 19, 13);
    assert_eq!(select_range(&buf, 0, 13, 0), Some(9));
    assert_eq!(select_zero_range(&buf, 0, 13, 9), Some(10));
}

#[test]
fn select_positions_increase() {
    let buf = bit_buffer(mixed_bytes(40), 2, 300);
    let ones = buf.count_range(11, 290);
    for nth in 1..ones {
        assert!(select_range(&buf, 11, 290, nth - 1) < select_range(&buf, 11, 290, nth));
    }
}

#[test]
fn select_undoes_rank() {
    let buf = bit_buffer(mixed_bytes(40), 6, 300);
    for i in 0..300 {
        let rank = buf.count_range(0, i);
        if buf.value(i) {
            assert_eq!(select_range(&buf, 0, 300, rank), Some(i));
        } else {
            assert_eq!(select_zero_range(&buf, 0, 300, i - rank), Some(i));
        }
    }
}

#[test]
fn select_zeros_are_ones_of_complement() {
    let bytes = mixed_bytes(20);
    let flipped: Vec<u8> = bytes.iter().map(|&byte| !byte).collect();
    let buf = bit_buffer(bytes, 3, 150);
    let complement = bit_buffer(flipped, 3, 150);
    for nth in 0..151 {
        assert_eq!(
            select_zero_range(&buf, 4, 149, nth),
            select_range(&complement, 4, 149, nth)
        );
    }
}

#[test]
fn select_scan_from_lower_bound() {
    let buf = bit_buffer(mixed_bytes(100), 1, 700);
    for mid in [20, 84, 85, 300, 650] {
        let skipped = buf.count_range(20, mid);
        for nth in 0..(buf.count_range(mid, 650) + 1) {
            let rest = select_range(&buf, mid, 650, nth);
            let whole = select_range(&buf, 20, 650, skipped + nth);
            assert_eq!(whole, rest.map(|pos| mid - 20 + pos));
        }
    }
}

#[test]
fn select_end_beyond_answer() {
    let buf = bit_buffer(mixed_bytes(100), 1, 700);
    for mid in [21, 84, 300, 699] {
        for nth in 0..buf.count_range(20, mid) {
            assert_eq!(
                select_range(&buf, 20, mid, nth),
                select_range(&buf, 20, 700, nth)
            );
        }
    }
}

#[test]
fn checked_select_rejects_what_is_no_window() {
    let buf = bit_buffer(mixed_bytes(4), 1, 30);
    assert_eq!(check_window(&buf, 4, 3), Err(WindowError::StartExceedsEnd));
    assert_eq!(check_window(&buf, 40, 39), Err(WindowError::StartExceedsEnd));
    assert_eq!(check_window(&buf, 4, 31), Err(WindowError::EndExceedsLen));
    assert_eq!(check_window(&buf, 30, 30), Ok(()));
    assert_eq!(
        checked_select_range(&buf, 4, 3, 0),
        Err(WindowError::StartExceedsEnd)
    );
    assert_eq!(
        checked_select_zero_range(&buf, 0, 31, 0),
        Err(WindowError::EndExceedsLen)
    );
}

#[test]
fn checked_select_answers_as_select_does() {
    let buf = bit_buffer(mixed_bytes(4), 1, 30);
    for nth in 0..31 {
        assert_eq!(
            checked_select_range(&buf, 2, 30, nth),
            Ok(select_range(&buf, 2, 30, nth))
        );
        assert_eq!(
            checked_select_zero_range(&buf, 2, 30, nth),
            Ok(select_zero_range(&buf, 2, 30, nth))
        );
    }
}
