use dirty_bitmap::ranges::{merge_adjacent, span_to_range, PageSpan};
use dirty_bitmap::{
    bitmap_to_memory_table, bitmap_to_memory_table2, MemoryRange, MemoryRangeTable, MergedWords,
    Words,
};

fn table(ranges: &[(u64, u64)]) -> MemoryRangeTable {
    let mut table = MemoryRangeTable::default();
    for &(address, length) in ranges {
        table.push(MemoryRange { address, length });
    }
    table
}

fn stream_ranges(words: &[u64], start_addr: u64, page_size: u64) -> Vec<MemoryRange> {
    let mut stage = MemoryRangeTable::dirty_range_iter(Words::new(words), start_addr, page_size);
    let mut got: Vec<MemoryRange> = Vec::new();
    while let Some(range) = stage.next() {
        got.push(range);
    }
    assert_eq!(stage.next(), None);
    got
}

/// A small deterministic generator, so that the cases are the same on every run.
fn next_random(state: &mut u64) -> u64 {
    *state ^= *state << 13;
    *state ^= *state >> 7;
    *state ^= *state << 17;
    *state
}

fn random_bitmap(state: &mut u64, len: usize, density: u64) -> Vec<u64> {
    let mut words: Vec<u64> = Vec::new();
    for _ in 0..len {
        let mut word = next_random(state);
        for _ in 0..density {
            word &= next_random(state);
        }
        words.push(word);
    }
    words
}

#[test]
fn default_table_is_empty() {
    assert_eq!(MemoryRangeTable::default().as_slice().len(), 0);
    assert_eq!(MemoryRangeTable::default(), MemoryRangeTable::from_bitmap(Vec::new(), 0, 4096));
}

#[test]
fn push_appends_in_order() {
    let mut t = MemoryRangeTable::default();
    t.push(MemoryRange { address: 4096, length: 8192 });
    t.push(MemoryRange { address: 65536, length: 4096 });
    assert_eq!(
        t.as_slice(),
        &[
            MemoryRange { address: 4096, length: 8192 },
            MemoryRange { address: 65536, length: 4096 },
        ]
    );
    assert_ne!(t, table(&[(65536, 4096), (4096, 8192)]));
    assert_eq!(t, table(&[(4096, 8192), (65536, 4096)]));
}

#[test]
fn from_bitmap_gives_one_range_per_run() {
    let t = MemoryRangeTable::from_bitmap(vec![0b1011], 0x1000, 4096);
    assert_eq!(t, table(&[(0x1000, 8192), (0x1000 + 3 * 4096, 4096)]));
}

#[test]
fn range_address_and_length_follow_base_and_page_size() {
    // pages 2..5 and page 64 are marked
    let t = MemoryRangeTable::from_bitmap(vec![0b11100, 1], 10, 3);
    assert_eq!(t, table(&[(10 + 2 * 3, 3 * 3), (10 + 64 * 3, 3)]));
    let t = MemoryRangeTable::from_bitmap_iter(Words::new(&[0b11100, 1]), 10, 3);
    assert_eq!(t, table(&[(16, 9), (202, 3)]));
}

#[test]
fn run_across_a_word_boundary_is_one_range() {
    let words: Vec<u64> = vec![1 << 63, 1];
    assert_eq!(
        MemoryRangeTable::from_bitmap(words.clone(), 0, 4096),
        table(&[(63 * 4096, 2 * 4096)])
    );
    assert_eq!(
        MemoryRangeTable::from_bitmap_iter(Words::new(&words), 0, 4096),
        table(&[(63 * 4096, 2 * 4096)])
    );
    let words: Vec<u64> = vec![u64::MAX << 60, u64::MAX, 0b111];
    assert_eq!(
        MemoryRangeTable::from_bitmap(words.clone(), 0, 4096),
        table(&[(60 * 4096, (4 + 64 + 3) * 4096)])
    );
    assert_eq!(
        MemoryRangeTable::from_bitmap_iter(Words::new(&words), 0, 4096),
        table(&[(60 * 4096, 71 * 4096)])
    );
}

#[test]
fn zero_bitmap_of_any_length_gives_the_empty_table() {
    for len in [0usize, 1, 2, 7, 100] {
        let zeros: Vec<u64> = vec![0; len];
        assert_eq!(MemoryRangeTable::from_bitmap(zeros.clone(), 0x4000, 4096), table(&[]));
        let streamed = MemoryRangeTable::from_bitmap_iter(Words::new(&zeros), 0x4000, 4096);
        assert_eq!(streamed, table(&[]));
        assert_eq!(bitmap_to_memory_table(&zeros, &zeros), table(&[]));
        assert_eq!(bitmap_to_memory_table2(&zeros, &zeros), table(&[]));
    }
}

#[test]
fn full_bitmap_gives_a_single_range() {
    for len in [1u64, 2, 3, 17] {
        let ones: Vec<u64> = vec![u64::MAX; len as usize];
        let expected = table(&[(0x10_0000, len * 64 * 4096)]);
        assert_eq!(MemoryRangeTable::from_bitmap(ones.clone(), 0x10_0000, 4096), expected);
        let streamed = MemoryRangeTable::from_bitmap_iter(Words::new(&ones), 0x10_0000, 4096);
        assert_eq!(streamed, expected);
        assert_eq!(bitmap_to_memory_table(&ones, &ones), table(&[(0, len * 64 * 4096)]));
        assert_eq!(bitmap_to_memory_table2(&ones, &ones), table(&[(0, len * 64 * 4096)]));
    }
}

#[test]
fn single_marked_page_gives_a_single_page_range() {
    for p in [0u64, 1, 62, 63, 64, 65, 127, 128, 130, 319] {
        let mut words: Vec<u64> = vec![0; 5];
        words[(p / 64) as usize] = 1 << (p % 64);
        let expected = table(&[(0x2000 + p * 512, 512)]);
        assert_eq!(MemoryRangeTable::from_bitmap(words.clone(), 0x2000, 512), expected);
        assert_eq!(MemoryRangeTable::from_bitmap_iter(Words::new(&words), 0x2000, 512), expected);
        let zeros: Vec<u64> = vec![0; 5];
        assert_eq!(bitmap_to_memory_table(&words, &zeros), table(&[(p * 4096, 4096)]));
        assert_eq!(bitmap_to_memory_table2(&zeros, &words), table(&[(p * 4096, 4096)]));
    }
}

#[test]
fn front_doors_merge_the_two_bitmaps() {
    let first: [u64; 2] = [0b0001, 0];
    let second: [u64; 2] = [0b0110, 1 << 5];
    let expected = table(&[(0, 3 * 4096), (69 * 4096, 4096)]);
    assert_eq!(bitmap_to_memory_table(&first, &second), expected);
    assert_eq!(bitmap_to_memory_table2(&first, &second), expected);
    assert_eq!(bitmap_to_memory_table(&second, &first), expected);
    assert_eq!(bitmap_to_memory_table2(&second, &first), expected);
}

#[test]
fn front_doors_take_empty_bitmaps() {
    assert_eq!(bitmap_to_memory_table(&[], &[]), table(&[]));
    assert_eq!(bitmap_to_memory_table2(&[], &[]), table(&[]));
}

#[test]
fn bitmap_functions_are_identical() {
    let mut state: u64 = 0x2545_f491_4f6c_dd1d;
    for _ in 0..256 {
        let len1 = (next_random(&mut state) % 100) as usize;
        let len2 = (next_random(&mut state) % 100) as usize;
        let bitmap1: Vec<u64> = (0..len1).map(|_| next_random(&mut state)).collect();
        let bitmap2: Vec<u64> = (0..len2).map(|_| next_random(&mut state)).collect();

        // Ensure both bitmaps have the same length
        let len = bitmap1.len().min(bitmap2.len());
        let bitmap1 = &bitmap1[..len];
        let bitmap2 = &bitmap2[..len];

        let result1 = bitmap_to_memory_table(bitmap1, bitmap2);
        let result2 = bitmap_to_memory_table2(bitmap1, bitmap2);

        assert_eq!(result1, result2);
    }
}

#[test]
fn eager_and_streaming_paths_agree() {
    let mut state: u64 = 0x9e37_79b9_7f4a_7c15;
    for round in 0..300u64 {
        let len = (next_random(&mut state) % 100) as usize;
        let density = round % 6;
        let first = random_bitmap(&mut state, len, density);
        let second = random_bitmap(&mut state, len, density);
        let eager = bitmap_to_memory_table(&first, &second);
        let streamed = bitmap_to_memory_table2(&first, &second);
        assert_eq!(eager, streamed);

        let merged: Vec<u64> = first.iter().zip(second.iter()).map(|(x, y)| x | y).collect();
        assert_eq!(MemoryRangeTable::from_bitmap(merged.clone(), 0, 4096), eager);
        assert_eq!(MemoryRangeTable::from_bitmap_iter(Words::new(&merged), 0, 4096), eager);
        assert_eq!(
            MemoryRangeTable::from_bitmap_iter(MergedWords::new(&first, &second), 0, 4096),
            eager
        );
        assert_eq!(stream_ranges(&merged, 0, 4096), eager.as_slice());
    }
}

#[test]
fn tables_are_ascending_disjoint_and_maximal() {
    let mut state: u64 = 0x0123_4567_89ab_cdef;
    for round in 0..200u64 {
        let len = (next_random(&mut state) % 60) as usize;
        let words = random_bitmap(&mut state, len, round % 5);
        let base = 0x8000 * (round % 3);
        let page = [1u64, 512, 4096][(round % 3) as usize];
        let t = MemoryRangeTable::from_bitmap(words, base, page);
        for range in t.as_slice() {
            assert!(range.length > 0);
        }
        for pair in t.as_slice().windows(2) {
            assert!(pair[0].address < pair[1].address);
            assert!(pair[0].address + pair[0].length <= pair[1].address);
            assert!(pair[0].address + pair[0].length < pair[1].address);
        }
    }
}

#[test]
fn ranges_paint_back_the_merged_bitmap() {
    let mut state: u64 = 0xfeed_face_cafe_beef;
    for round in 0..200u64 {
        let len = (next_random(&mut state) % 60) as usize;
        let first = random_bitmap(&mut state, len, round % 5);
        let second = random_bitmap(&mut state, len, (round + 2) % 5);
        let merged: Vec<u64> = first.iter().zip(second.iter()).map(|(x, y)| x | y).collect();
        let eager = bitmap_to_memory_table(&first, &second);
        let streamed = bitmap_to_memory_table2(&first, &second);
        for t in [eager, streamed] {
            let mut painted: Vec<u64> = vec![0; len];
            for range in t.as_slice() {
                assert_eq!(range.address % 4096, 0);
                assert_eq!(range.length % 4096, 0);
                let start = range.address / 4096;
                let end = start + range.length / 4096;
                for p in start..end {
                    painted[(p / 64) as usize] |= 1 << (p % 64);
                }
            }
            assert_eq!(painted, merged);
        }
    }
}

#[test]
fn round_trip_with_a_base_address() {
    let words: Vec<u64> = vec![0xf0f0, 0, u64::MAX, 1 | (1 << 63)];
    let base: u64 = 0x7000_0000;
    let page: u64 = 2048;
    let t = MemoryRangeTable::from_bitmap(words.clone(), base, page);
    let mut painted: Vec<u64> = vec![0; words.len()];
    for range in t.as_slice() {
        let start = (range.address - base) / page;
        let end = start + range.length / page;
        for p in start..end {
            painted[(p / 64) as usize] |= 1 << (p % 64);
        }
    }
    assert_eq!(painted, words);
}

#[test]
fn streaming_stage_hands_out_ranges_one_by_one() {
    let words: [u64; 3] = [0b110, 0, 1 | (1 << 63)];
    let mut stage = MemoryRangeTable::dirty_range_iter(Words::new(&words), 0x1000, 4096);
    assert_eq!(stage.next(), Some(MemoryRange { address: 0x1000 + 4096, length: 2 * 4096 }));
    assert_eq!(stage.next(), Some(MemoryRange { address: 0x1000 + 128 * 4096, length: 4096 }));
    assert_eq!(stage.next(), Some(MemoryRange { address: 0x1000 + 191 * 4096, length: 4096 }));
    assert_eq!(stage.next(), None);
    assert_eq!(stage.next(), None);
}

#[test]
fn streaming_stage_on_an_empty_stream() {
    let mut stage = MemoryRangeTable::dirty_range_iter(Words::new(&[]), 0, 4096);
    assert_eq!(stage.next(), None);
    assert_eq!(stage.next(), None);
}

#[test]
fn page_size_zero_gives_empty_ranges_on_both_paths() {
    let words: Vec<u64> = vec![0b101];
    let expected = table(&[(7, 0), (7, 0)]);
    assert_eq!(MemoryRangeTable::from_bitmap(words.clone(), 7, 0), expected);
    assert_eq!(MemoryRangeTable::from_bitmap_iter(Words::new(&words), 7, 0), expected);
}

#[test]
fn ranges_may_reach_the_top_of_the_address_space() {
    // the last marked page ends at address u64::MAX
    let words: Vec<u64> = vec![0b11];
    let base = u64::MAX - 2 * 4096;
    let expected = table(&[(base, 2 * 4096)]);
    assert_eq!(MemoryRangeTable::from_bitmap(words.clone(), base, 4096), expected);
    assert_eq!(MemoryRangeTable::from_bitmap_iter(Words::new(&words), base, 4096), expected);
}

#[test]
fn merge_adjacent_joins_only_touching_spans() {
    let prev = PageSpan { start: 3, end: 5 };
    let joined = merge_adjacent(prev, PageSpan { start: 5, end: 6 });
    match joined {
        Ok(span) => {
            assert_eq!(span.start, 3);
            assert_eq!(span.end, 6);
        }
        Err(_) => panic!("touching spans were not joined"),
    }
    let apart = merge_adjacent(prev, PageSpan { start: 6, end: 7 });
    match apart {
        Ok(_) => panic!("spans with a gap were joined"),
        Err((first, second)) => {
            assert_eq!((first.start, first.end), (3, 5));
            assert_eq!((second.start, second.end), (6, 7));
        }
    }
    let overlapping = merge_adjacent(prev, PageSpan { start: 4, end: 8 });
    assert!(overlapping.is_err());
}

#[test]
fn span_to_range_scales_by_the_page_size() {
    let range = span_to_range(PageSpan { start: 3, end: 10 }, 0x100, 16);
    assert_eq!(range, MemoryRange { address: 0x100 + 48, length: 112 });
    let range = span_to_range(PageSpan { start: 0, end: 1 }, 0, 4096);
    assert_eq!(range, MemoryRange { address: 0, length: 4096 });
}
