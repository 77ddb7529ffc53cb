use elias_fano::{load_bits, mask_to, select_in_byte, select_in_bytes, select_in_word};

#[test]
fn mask_to_clears_at_and_above_width() {
    assert_eq!(mask_to(u64::MAX, 0), 0);
    assert_eq!(mask_to(u64::MAX, 1), 1);
    assert_eq!(mask_to(0xABCD, 8), 0xCD);
    assert_eq!(mask_to(u64::MAX, 63), u64::MAX >> 1);
    assert_eq!(mask_to(u64::MAX, 64), u64::MAX);
}

#[test]
fn select_in_byte_every_byte() {
    for byte in 0..=255u8 {
        let mut rank: usize = 0;
        for i in 0..8 {
            if (byte >> i) & 1 == 1 {
                assert_eq!(select_in_byte(byte, rank), i, "byte={byte} rank={rank}");
                rank += 1;
            }
        }
        assert_eq!(select_in_byte(byte, rank), 8, "byte={byte} past-the-end rank");
    }
}

#[test]
fn select_in_word_exact_positions() {
    assert_eq!(select_in_word(1, 0), 0);
    assert_eq!(select_in_word(1 << 63, 0), 63);
    assert_eq!(select_in_word(0x8000_0000_0100_0010, 0), 4);
    assert_eq!(select_in_word(0x8000_0000_0100_0010, 1), 24);
    assert_eq!(select_in_word(0x8000_0000_0100_0010, 2), 63);
    for nth in 0..64 {
        assert_eq!(select_in_word(u64::MAX, nth), nth);
    }
}

#[test]
fn load_bits_aligned() {
    let bytes = [1u8, 2, 3, 4, 5, 6, 7, 8, 9];
    assert_eq!(load_bits(&bytes, 0, 64), 0x0807_0605_0403_0201);
    assert_eq!(load_bits(&bytes, 0, 12), 0x201);
    assert_eq!(load_bits(&bytes, 8, 64), 0x0908_0706_0504_0302);
}

#[test]
fn load_bits_straddles_nine_bytes() {
    let bytes = [0u8, 0, 0, 0, 0, 0, 0, 0, 0xFF, 0xAA];
    assert_eq!(load_bits(&bytes, 4, 64), 0xF000_0000_0000_0000);
    assert_eq!(load_bits(&bytes, 7, 64), 0xFE00_0000_0000_0000);
    assert_eq!(load_bits(&bytes, 7, 60), 0x0E00_0000_0000_0000);
}

#[test]
fn load_bits_near_and_past_the_end() {
    let bytes = [0x12u8, 0x34, 0x56];
    assert_eq!(load_bits(&bytes, 4, 12), 0x341);
    assert_eq!(load_bits(&bytes, 4, 64), 0x5_6341);
    assert_eq!(load_bits(&bytes, 20, 8), 0x5);
    assert_eq!(load_bits(&bytes, 24, 64), 0);
    assert_eq!(load_bits(&bytes, usize::MAX, 64), 0);
    assert_eq!(load_bits(&[], 0, 1), 0);
}

#[test]
fn load_bits_agrees_with_single_bits() {
    let bytes: Vec<u8> = (0..24u8).map(|i| i.wrapping_mul(91) ^ 0x3C).collect();
    for at in 0..200usize {
        for width in [1usize, 7, 8, 31, 63, 64] {
            let mut expected: u64 = 0;
            for i in 0..width {
                let byte = bytes.get((at + i) / 8).copied().unwrap_or(0);
                expected |= u64::from((byte >> ((at + i) % 8)) & 1) << i;
            }
            assert_eq!(load_bits(&bytes, at, width), expected, "at={at} width={width}");
        }
    }
}

#[test]
fn words_are_known_by_their_bits() {
    let word: u64 = 0xDEAD_BEEF_0123_4567;
    let mut rebuilt: u64 = 0;
    for nth in 0..(word.count_ones() as usize) {
        rebuilt |= 1 << select_in_word(word, nth);
    }
    assert_eq!(rebuilt, word);
}

#[test]
fn select_in_bytes_exact_positions() {
    let bytes = [0b1001_0110u8, 0b0000_0011];
    assert_eq!(select_in_bytes(&bytes, 0, 0, 16, 4, false), Some(8));
    assert_eq!(select_in_bytes(&bytes, 2, 1, 14, 0, false), Some(1));
    assert_eq!(select_in_bytes(&bytes, 2, 1, 14, 1, true), Some(2));
    assert_eq!(select_in_bytes(&bytes, 2, 1, 14, 4, false), None);
}

#[test]
fn select_in_bytes_past_the_end_reads_unset() {
    let bytes = [0xFFu8];
    assert_eq!(select_in_bytes(&bytes, 0, 4, 200, 10, true), Some(14));
    assert_eq!(select_in_bytes(&bytes, 0, 4, 200, 4, false), None);
}

#[test]
fn select_in_bytes_extreme_window() {
    let bytes = [0xFFu8; 9];
    let end = usize::MAX;
    assert_eq!(select_in_bytes(&bytes, 7, end - 100, end, 99, true), Some(99));
    assert_eq!(select_in_bytes(&bytes, end, end - 100, end, 100, true), None);
    assert_eq!(select_in_bytes(&bytes, end, end - 100, end, 0, false), None);
}
