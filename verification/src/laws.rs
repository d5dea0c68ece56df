//! What holds of every table that the library builds.

use crate::pages::{
    bit_is_set, dirty, lemma_dirty_bit, lemma_marked_ascend, lemma_marked_has, lemma_marked_index,
    page_count, positions,
};
use crate::runs::{
    coalesce, in_spans, lemma_coalesce_fresh, lemma_no_run, lemma_run_shape, lemma_runs_cover,
    lemma_runs_separated, lemma_single_run, runs, units, Span,
};
use crate::table::{
    addressable, canonical, lemma_range_fits, maximal, nonempty_ranges, pairwise_disjoint,
    range_of, strictly_ascending, table_from, table_of, MemoryRange,
};
use crate::words::merged;
use vstd::prelude::*;

verus! {

/// Page `p`, of `page` bytes and counted from `base`, begins inside a range
/// of the table.
pub open spec fn page_in_table(table: Seq<MemoryRange>, base: u64, page: u64, p: int) -> bool {
    exists|i: int|
        0 <= i < table.len() && (#[trigger] table[i]).address <= base + p * page
            < table[i].address + table[i].length
}

/// Multiplying by a positive page size keeps the order of page numbers.
proof fn lemma_scale_order(a: int, b: int, page: int)
    by (nonlinear_arith)
    requires
        page > 0,
    ensures
        a < b <==> a * page < b * page,
        a <= b <==> a * page <= b * page,
        (b - a) * page == b * page - a * page,
{
}

/// Entry `i` of the table of a bitmap, written without truncation.
proof fn lemma_table_entry(words: Seq<u64>, base: u64, page: u64, i: int)
    requires
        addressable(words, base, page),
        0 <= i < runs(words).len(),
    ensures
        table_of(words, base, page)[i].address == base + runs(words)[i].start * page,
        table_of(words, base, page)[i].length == (runs(words)[i].end - runs(words)[i].start) * page,
        base + runs(words)[i].end * page <= u64::MAX,
{
    lemma_run_shape(words, i);
    let run = runs(words)[i];
    assert(dirty(words, run.end - 1));
    lemma_range_fits(base as int, page as int, run.start, run.end);
}

/// The marked pages come in strictly ascending order.
pub proof fn lemma_positions_ascend(words: Seq<u64>, i: int, j: int)
    requires
        0 <= i < j < positions(words).len(),
    ensures
        positions(words)[i] < positions(words)[j],
{
    lemma_marked_ascend(words, 0, page_count(words), i, j);
}

/// A page is among the positions of a bitmap exactly where the bitmap marks it.
pub proof fn lemma_positions_are_marked_pages(words: Seq<u64>, p: int)
    ensures
        positions(words).contains(p) == dirty(words, p),
{
    if dirty(words, p) {
        let i = lemma_marked_has(words, 0, page_count(words), p);
    }
    if positions(words).contains(p) {
        let i = choose|i: int| 0 <= i < positions(words).len() && positions(words)[i] == p;
        lemma_marked_index(words, 0, page_count(words), i);
    }
}

/// The streaming path and the scanning path build the same table: the
/// marked pages, taken one by one in ascending order and coalesced, are the
/// maximal runs of marked pages.
pub proof fn lemma_streaming_agrees_with_scan(words: Seq<u64>, base: u64, page: u64)
    ensures
        coalesce(units(positions(words))) == runs(words),
        table_from(coalesce(units(positions(words))), base, page) == table_of(words, base, page),
{
    lemma_coalesce_fresh(words, 0);
}

/// The table of a bitmap is canonical: its ranges are nonempty, strictly
/// ascending by address, pairwise disjoint, and no range ends where the next
/// one starts.
pub proof fn lemma_table_is_canonical(words: Seq<u64>, base: u64, page: u64)
    requires
        page > 0,
        addressable(words, base, page),
    ensures
        nonempty_ranges(table_of(words, base, page)),
        strictly_ascending(table_of(words, base, page)),
        pairwise_disjoint(table_of(words, base, page)),
        maximal(table_of(words, base, page)),
        canonical(table_of(words, base, page)),
{
    let table = table_of(words, base, page);
    assert forall|i: int| 0 <= i < table.len() implies (#[trigger] table[i]).length > 0 by {
        lemma_table_entry(words, base, page, i);
        lemma_run_shape(words, i);
        lemma_scale_order(runs(words)[i].start, runs(words)[i].end, page as int);
    }
    assert forall|i: int, j: int| 0 <= i < j < table.len() implies (#[trigger] table[i]).address
        + table[i].length < (#[trigger] table[j]).address by {
        lemma_table_entry(words, base, page, i);
        lemma_table_entry(words, base, page, j);
        lemma_runs_separated(words, i, j);
        lemma_scale_order(runs(words)[i].start, runs(words)[i].end, page as int);
        lemma_scale_order(runs(words)[i].end, runs(words)[j].start, page as int);
    }
    assert(strictly_ascending(table));
    assert(maximal(table));
    assert forall|i: int, j: int|
        0 <= i < table.len() && 0 <= j < table.len() && i != j implies {
        ||| (#[trigger] table[i]).address + table[i].length <= (#[trigger] table[j]).address
        ||| table[j].address + table[j].length <= table[i].address
    } by {
        if i < j {
            assert(table[i].address + table[i].length < table[j].address);
        } else {
            assert(table[j].address + table[j].length < table[i].address);
        }
    }
}

/// The ranges of the table hold exactly the marked pages of the bitmap.
pub proof fn lemma_table_covers_marked_pages(words: Seq<u64>, base: u64, page: u64, p: int)
    requires
        page > 0,
        addressable(words, base, page),
    ensures
        page_in_table(table_of(words, base, page), base, page, p) == dirty(words, p),
{
    let table = table_of(words, base, page);
    lemma_runs_cover(words, p);
    if in_spans(runs(words), p) {
        let all = runs(words);
        let i = choose|i: int| 0 <= i < all.len() && (#[trigger] all[i]).start <= p < all[i].end;
        lemma_table_entry(words, base, page, i);
        lemma_scale_order(runs(words)[i].start, p, page as int);
        lemma_scale_order(p, runs(words)[i].end, page as int);
        lemma_scale_order(runs(words)[i].start, runs(words)[i].end, page as int);
        assert(table[i].address <= base + p * page < table[i].address + table[i].length);
    }
    if page_in_table(table, base, page, p) {
        let i = choose|i: int|
            0 <= i < table.len() && (#[trigger] table[i]).address <= base + p * page
                < table[i].address + table[i].length;
        lemma_table_entry(words, base, page, i);
        lemma_scale_order(runs(words)[i].start, p, page as int);
        lemma_scale_order(p, runs(words)[i].end, page as int);
        lemma_scale_order(runs(words)[i].start, runs(words)[i].end, page as int);
        assert(runs(words)[i].start <= p < runs(words)[i].end);
    }
}

/// Two words with the same bits from bit `k` upwards agree from bit `k`
/// upwards.
proof fn lemma_same_bits_same_word(a: u64, b: u64, k: u64)
    requires
        k < 64,
        forall|j: int| k <= j < 64 ==> bit_is_set(a, j) == bit_is_set(b, j),
    ensures
        a >> k == b >> k,
    decreases 64 - k,
{
    assert(bit_is_set(a, k as int) == bit_is_set(b, k as int));
    if k == 63 {
        assert(a >> 63 == b >> 63) by (bit_vector)
            requires
                ((a >> 63) & 1 == 1) == ((b >> 63) & 1 == 1),
        ;
    } else {
        let k1 = (k + 1) as u64;
        lemma_same_bits_same_word(a, b, k1);
        assert(a >> k == b >> k) by (bit_vector)
            requires
                k < 63,
                k1 == k + 1,
                a >> k1 == b >> k1,
                ((a >> k) & 1 == 1) == ((b >> k) & 1 == 1),
        ;
    }
}

/// A bitmap is determined by its length and its marked pages.
pub proof fn lemma_marked_pages_determine_bitmap(words: Seq<u64>, other: Seq<u64>)
    requires
        words.len() == other.len(),
        forall|p: int| dirty(words, p) == dirty(other, p),
    ensures
        words == other,
{
    assert forall|i: int| 0 <= i < words.len() implies words[i] == other[i] by {
        let a = words[i];
        let b = other[i];
        assert forall|j: int| 0 <= j < 64 implies bit_is_set(a, j) == bit_is_set(b, j) by {
            lemma_dirty_bit(words, i, j);
            lemma_dirty_bit(other, i, j);
        }
        lemma_same_bits_same_word(a, b, 0);
        assert(a == b) by (bit_vector)
            requires
                a >> 0 == b >> 0,
        ;
    }
    assert(words =~= other);
}

/// Round trip: a bitmap of the same length in which exactly the pages of
/// the table's ranges are marked is the bitmap that the table was built from.
pub proof fn lemma_round_trip(words: Seq<u64>, base: u64, page: u64, painted: Seq<u64>)
    requires
        page > 0,
        addressable(words, base, page),
        painted.len() == words.len(),
        forall|p: int|
            dirty(painted, p) == page_in_table(table_of(words, base, page), base, page, p),
    ensures
        painted == words,
{
    assert forall|p: int| dirty(words, p) == dirty(painted, p) by {
        lemma_table_covers_marked_pages(words, base, page, p);
    }
    lemma_marked_pages_determine_bitmap(words, painted);
}

/// A page is marked in the merge of two bitmaps of equal length where it is
/// marked in either.
pub proof fn lemma_merged_marks(first: Seq<u64>, second: Seq<u64>, p: int)
    requires
        first.len() == second.len(),
    ensures
        dirty(merged(first, second), p) == (dirty(first, p) || dirty(second, p)),
{
    if 0 <= p < page_count(first) {
        let a = first[p / 64];
        let b = second[p / 64];
        let j = (p % 64) as u64;
        assert(((a | b) >> j) & 1 == 1 <==> (a >> j) & 1 == 1 || (b >> j) & 1 == 1)
            by (bit_vector);
    }
}

/// A bitmap of zero words, of any length, has the empty table.
pub proof fn lemma_clean_bitmap_has_empty_table(words: Seq<u64>, base: u64, page: u64)
    requires
        forall|i: int| 0 <= i < words.len() ==> words[i] == 0,
    ensures
        table_of(words, base, page) == Seq::<MemoryRange>::empty(),
{
    assert forall|q: int| !dirty(words, q) by {
        if 0 <= q < page_count(words) {
            let j = (q % 64) as u64;
            assert((0u64 >> j) & 1 == 0) by (bit_vector);
        }
    }
    lemma_no_run(words);
    assert(table_of(words, base, page) =~= Seq::<MemoryRange>::empty());
}

/// A bitmap whose marked pages are exactly those of `[first, end)` has the
/// table of one range, from the address of page `first` to that of `end`.
pub proof fn lemma_one_run_has_one_range(
    words: Seq<u64>,
    base: u64,
    page: u64,
    first: int,
    end: int,
)
    requires
        addressable(words, base, page),
        first < end,
        forall|q: int| dirty(words, q) <==> first <= q < end,
    ensures
        base + end * page <= u64::MAX,
        table_of(words, base, page) == seq![
            MemoryRange {
                address: (base + first * page) as u64,
                length: ((end - first) * page) as u64,
            },
        ],
{
    lemma_single_run(words, first, end);
    assert(dirty(words, end - 1));
    assert(table_of(words, base, page) =~= seq![
        range_of(Span { start: first, end }, base, page),
    ]);
}

/// A bitmap of one or more words with every bit set has the table of one
/// range, which starts at `base` and is as long as all its pages.
pub proof fn lemma_full_bitmap_has_one_range(words: Seq<u64>, base: u64, page: u64)
    requires
        addressable(words, base, page),
        words.len() > 0,
        forall|i: int| 0 <= i < words.len() ==> words[i] == u64::MAX,
    ensures
        base + 64 * words.len() * page <= u64::MAX,
        table_of(words, base, page) == seq![
            MemoryRange { address: base, length: (64 * words.len() * page) as u64 },
        ],
{
    assert forall|q: int| dirty(words, q) <==> 0 <= q < page_count(words) by {
        if 0 <= q < page_count(words) {
            let j = (q % 64) as u64;
            assert((0xffff_ffff_ffff_ffffu64 >> j) & 1 == 1) by (bit_vector)
                requires
                    j < 64,
            ;
        }
    }
    lemma_one_run_has_one_range(words, base, page, 0, page_count(words));
    assert(0 * page == 0) by (nonlinear_arith);
    assert(64 * words.len() * page == (page_count(words) - 0) * page) by (nonlinear_arith)
        requires
            page_count(words) == 64 * words.len(),
    ;
}

/// A bitmap with a single marked page `p` has the table of one range: the
/// page itself.
pub proof fn lemma_single_page_has_one_range(words: Seq<u64>, base: u64, page: u64, p: int)
    requires
        addressable(words, base, page),
        forall|q: int| dirty(words, q) <==> q == p,
    ensures
        base + p * page + page <= u64::MAX,
        table_of(words, base, page) == seq![
            MemoryRange { address: (base + p * page) as u64, length: page },
        ],
{
    assert(dirty(words, p));
    lemma_one_run_has_one_range(words, base, page, p, p + 1);
    lemma_range_fits(base as int, page as int, p, p + 1);
    assert((p + 1) * page == p * page + page) by (nonlinear_arith);
}

} // verus!
