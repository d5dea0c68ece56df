use dirty_bitmap::ranges::{merge_adjacent, span_to_range, PageSpan};
use dirty_bitmap::{BitposIteratorExt, MemoryRange, MemoryRangeTable, Words};
use itertools::Itertools;

/// The ranges of a bitmap as `Itertools::coalesce` merges its marked pages.
fn ranges_by_itertools(words: &[u64], start_addr: u64, page_size: u64) -> Vec<MemoryRange> {
    let mut stage = Words::new(words).bit_positions();
    std::iter::from_fn(move || stage.next())
        .map(|b| b..(b + 1))
        .coalesce(|prev, curr| {
            if prev.end == curr.start {
                Ok(prev.start..curr.end)
            } else {
                Err((prev, curr))
            }
        })
        .map(|r| MemoryRange {
            address: start_addr + r.start * page_size,
            length: (r.end - r.start) * page_size,
        })
        .collect()
}

fn ranges_by_library(words: &[u64], start_addr: u64, page_size: u64) -> Vec<MemoryRange> {
    let mut stage = MemoryRangeTable::dirty_range_iter(Words::new(words), start_addr, page_size);
    let mut got: Vec<MemoryRange> = Vec::new();
    while let Some(range) = stage.next() {
        got.push(range);
    }
    got
}

fn next_word(state: &mut u64) -> u64 {
    *state = state.wrapping_mul(6364136223846793005).wrapping_add(1442695040888963407);
    *state ^ (*state >> 29)
}

#[test]
fn streaming_stage_agrees_with_itertools_coalesce() {
    let fixed: [&[u64]; 7] = [
        &[],
        &[0],
        &[1],
        &[u64::MAX],
        &[1 << 63, 1],
        &[0b1011, 0, u64::MAX, u64::MAX, 0x8000_0000_0000_0001],
        &[0x5555_5555_5555_5555, 0xaaaa_aaaa_aaaa_aaaa],
    ];
    for words in fixed {
        let expected = ranges_by_itertools(words, 0x1000, 4096);
        assert_eq!(ranges_by_library(words, 0x1000, 4096), expected);
    }
    let mut state: u64 = 42;
    for round in 0..300u64 {
        let len = (next_word(&mut state) % 80) as usize;
        let mut words: Vec<u64> = Vec::new();
        for _ in 0..len {
            let mut word = next_word(&mut state);
            for _ in 0..(round % 7) {
                word &= next_word(&mut state);
            }
            if round % 11 == 0 {
                word = !word;
            }
            words.push(word);
        }
        let expected = ranges_by_itertools(&words, 0, 4096);
        assert_eq!(ranges_by_library(&words, 0, 4096), expected);
        assert_eq!(MemoryRangeTable::from_bitmap(words.clone(), 0, 4096).as_slice(), expected);
        let streamed = MemoryRangeTable::from_bitmap_iter(Words::new(&words), 0, 4096);
        assert_eq!(streamed.as_slice(), expected);
    }
}

#[test]
fn merge_adjacent_drives_itertools_coalesce() {
    let pages: [u64; 9] = [0, 1, 2, 5, 7, 8, 63, 64, 200];
    let merged: Vec<(u64, u64)> = pages
        .iter()
        .map(|&b| PageSpan { start: b, end: b + 1 })
        .coalesce(merge_adjacent)
        .map(|span| (span.start, span.end))
        .collect();
    assert_eq!(merged, vec![(0, 3), (5, 6), (7, 9), (63, 65), (200, 201)]);
    let ranges: Vec<MemoryRange> = merged
        .iter()
        .map(|&(start, end)| span_to_range(PageSpan { start, end }, 0, 4096))
        .collect();
    let mut words: Vec<u64> = vec![0; 4];
    for p in pages {
        words[(p / 64) as usize] |= 1 << (p % 64);
    }
    assert_eq!(MemoryRangeTable::from_bitmap(words, 0, 4096).as_slice(), ranges);
}
