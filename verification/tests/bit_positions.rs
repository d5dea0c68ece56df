use dirty_bitmap::{BitposIteratorExt, MergedWords, WordStream, Words};

fn collect_positions(inp: &[u64]) -> Vec<u64> {
    let mut stage = Words::new(inp).bit_positions();
    let mut got: Vec<u64> = Vec::new();
    while let Some(position) = stage.next() {
        got.push(position);
    }
    assert_eq!(stage.next(), None);
    got
}

fn bitpos_check(inp: &[u64], out: &[u64]) {
    assert_eq!(collect_positions(inp), out);
}

#[test]
fn bitpos_iterator_works() {
    bitpos_check(&[], &[]);
    bitpos_check(&[0], &[]);
    bitpos_check(&[1], &[0]);
    bitpos_check(&[5], &[0, 2]);
    bitpos_check(&[3 + 32], &[0, 1, 5]);

    bitpos_check(&[1, 1 + 32], &[0, 64, 69]);
}

#[test]
fn last_bit_of_a_word_is_found() {
    bitpos_check(&[1 << 63], &[63]);
    bitpos_check(&[1 << 63, 1], &[63, 64]);
    bitpos_check(&[(1 << 63) | 1], &[0, 63]);
    bitpos_check(&[0, 1 << 63], &[127]);
}

#[test]
fn full_word_yields_every_bit() {
    let expected: Vec<u64> = (0..64).collect();
    bitpos_check(&[u64::MAX], &expected);
    let expected: Vec<u64> = (0..128).collect();
    bitpos_check(&[u64::MAX, u64::MAX], &expected);
}

#[test]
fn zero_words_are_skipped() {
    bitpos_check(&[0, 0, 0, 4], &[194]);
    bitpos_check(&[0, 0, 0, 0], &[]);
    bitpos_check(&[2, 0, 0, 2, 0], &[1, 193]);
}

#[test]
fn positions_ascend_and_name_exactly_the_set_bits() {
    let words: [u64; 5] = [0x8000_0000_0000_0001, 0, 0xdead_beef, u64::MAX, 0x10];
    let got = collect_positions(&words);
    for pair in got.windows(2) {
        assert!(pair[0] < pair[1]);
    }
    let mut expected: Vec<u64> = Vec::new();
    for (i, word) in words.iter().enumerate() {
        for j in 0..64u64 {
            if (word >> j) & 1 == 1 {
                expected.push(i as u64 * 64 + j);
            }
        }
    }
    assert_eq!(got, expected);
}

#[test]
fn exhausted_stage_stays_exhausted() {
    let words: [u64; 1] = [1];
    let mut stage = Words::new(&words).bit_positions();
    assert_eq!(stage.next(), Some(0));
    assert_eq!(stage.next(), None);
    assert_eq!(stage.next(), None);
    assert_eq!(stage.next(), None);
}

#[test]
fn word_stream_hands_out_the_slice_in_order() {
    let words: [u64; 3] = [7, 0, 9];
    let mut stream = Words::new(&words);
    assert_eq!(stream.next_word(), Some(7));
    assert_eq!(stream.next_word(), Some(0));
    assert_eq!(stream.next_word(), Some(9));
    assert_eq!(stream.next_word(), None);
    assert_eq!(stream.next_word(), None);
}

#[test]
fn merged_stream_ors_word_by_word() {
    let first: [u64; 3] = [0b0101, 0, 0xf0];
    let second: [u64; 3] = [0b0011, 8, 0x0f];
    let mut stream = MergedWords::new(&first, &second);
    assert_eq!(stream.next_word(), Some(0b0111));
    assert_eq!(stream.next_word(), Some(8));
    assert_eq!(stream.next_word(), Some(0xff));
    assert_eq!(stream.next_word(), None);
}

#[test]
fn merged_stream_is_as_long_as_the_shorter_bitmap() {
    let first: [u64; 2] = [1, 2];
    let second: [u64; 1] = [4];
    let mut stream = MergedWords::new(&first, &second);
    assert_eq!(stream.next_word(), Some(5));
    assert_eq!(stream.next_word(), None);
}

#[test]
fn positions_of_a_merged_stream() {
    let first: [u64; 2] = [1, 0];
    let second: [u64; 2] = [4, 1 << 10];
    let mut stage = MergedWords::new(&first, &second).bit_positions();
    assert_eq!(stage.next(), Some(0));
    assert_eq!(stage.next(), Some(2));
    assert_eq!(stage.next(), Some(74));
    assert_eq!(stage.next(), None);
}
