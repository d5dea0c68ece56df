//! The range table and its construction from a materialized bitmap.

use crate::laws::lemma_table_is_canonical;
use crate::pages::{countable, dirty, page_count};
use crate::runs::{run_end, runs, runs_from, Span};
use crate::words::{merged, MergedWords, WordStream};
use vstd::prelude::*;

verus! {

/// A contiguous span of guest-physical memory, `[address, address + length)`.
#[derive(Debug, Clone, Default, PartialEq, Eq, Structural)]
pub struct MemoryRange {
    pub address: u64,
    pub length: u64,
}

/// An ordered table of memory ranges.
#[derive(Debug, Clone, PartialEq, Eq)]
pub struct MemoryRangeTable {
    data: Vec<MemoryRange>,
}

/// The memory that a span of pages occupies, for a base address and a page size.
pub open spec fn range_of(span: Span, base: u64, page: u64) -> MemoryRange {
    MemoryRange {
        address: (base + span.start * page) as u64,
        length: ((span.end - span.start) * page) as u64,
    }
}

/// The ranges of the given spans, in the same order.
pub open spec fn table_from(spans: Seq<Span>, base: u64, page: u64) -> Seq<MemoryRange> {
    Seq::new(spans.len(), |i: int| range_of(spans[i], base, page))
}

/// The table that describes a bitmap: one range for each maximal run of
/// marked pages, in ascending order.
pub open spec fn table_of(words: Seq<u64>, base: u64, page: u64) -> Seq<MemoryRange> {
    table_from(runs(words), base, page)
}

/// No range of the table is empty.
pub open spec fn nonempty_ranges(table: Seq<MemoryRange>) -> bool {
    forall|i: int| 0 <= i < table.len() ==> (#[trigger] table[i]).length > 0
}

/// The ranges of the table are strictly ascending by address.
pub open spec fn strictly_ascending(table: Seq<MemoryRange>) -> bool {
    forall|i: int, j: int|
        0 <= i < j < table.len() ==> (#[trigger] table[i]).address < (#[trigger] table[j]).address
}

/// No two ranges of the table share a byte.
pub open spec fn pairwise_disjoint(table: Seq<MemoryRange>) -> bool {
    forall|i: int, j: int|
        0 <= i < table.len() && 0 <= j < table.len() && i != j ==> {
            ||| (#[trigger] table[i]).address + table[i].length <= (#[trigger] table[j]).address
            ||| table[j].address + table[j].length <= table[i].address
        }
}

/// No range of the table ends where the next one starts: no two ranges
/// could be merged into one.
pub open spec fn maximal(table: Seq<MemoryRange>) -> bool {
    forall|i: int|
        0 <= i < table.len() - 1 ==> (#[trigger] table[i]).address + table[i].length
            < table[i + 1].address
}

/// The canonical form of a table: its ranges are nonempty, strictly
/// ascending by address, pairwise disjoint and maximal.
pub open spec fn canonical(table: Seq<MemoryRange>) -> bool {
    &&& nonempty_ranges(table)
    &&& strictly_ascending(table)
    &&& pairwise_disjoint(table)
    &&& maximal(table)
}

/// Every marked page has a 64-bit page number below `u64::MAX` and ends at a
/// 64-bit address, for pages of `page` bytes from address `base`.
pub open spec fn addressable(words: Seq<u64>, base: u64, page: u64) -> bool {
    forall|p: int| #[trigger] dirty(words, p) ==> p < u64::MAX && base + (p + 1) * page <= u64::MAX
}

/// A bitmap all of whose pages, marked or not, have a 64-bit page number and
/// end at a 64-bit address is addressable.
pub proof fn lemma_addressable_by_size(words: Seq<u64>, base: u64, page: u64)
    requires
        page_count(words) <= u64::MAX,
        base + page_count(words) * page <= u64::MAX,
    ensures
        addressable(words, base, page),
        words.len() <= usize::MAX ==> countable(words),
{
    assert forall|p: int| #[trigger] dirty(words, p) implies p < u64::MAX
        && base + (p + 1) * page <= u64::MAX by {
        assert((p + 1) * page <= page_count(words) * page) by (nonlinear_arith)
            requires
                0 <= p + 1 <= page_count(words),
                0 <= page,
        ;
    }
}

/// A span of pages whose end is addressable yields a range without overflow.
pub(crate) proof fn lemma_range_fits(base: int, page: int, start: int, end: int)
    by (nonlinear_arith)
    requires
        0 <= start < end,
        0 <= base,
        0 <= page,
        base + end * page <= u64::MAX,
    ensures
        0 <= base + start * page <= u64::MAX,
        0 <= (end - start) * page <= u64::MAX,
        (end - 1 - start) * page + page == (end - start) * page,
        end == start + 1 ==> (end - start) * page == page,
{
}

/// Whether bit `j` of a word is set, as the scan tests it.
proof fn lemma_bit_test(word: u64, j: u64)
    by (bit_vector)
    requires
        j < 64,
    ensures
        ((word >> j) & 1 != 0) == ((word >> j) & 1 == 1),
{
}

/// What the scan holds after it has looked at every page below `p`: the
/// finished ranges in the table, and the range in progress, if any.
spec fn scanned(
    words: Seq<u64>,
    base: u64,
    page: u64,
    p: int,
    table: Seq<MemoryRange>,
    entry: Option<MemoryRange>,
    done: Seq<Span>,
    first: int,
) -> bool {
    &&& table == table_from(done, base, page)
    &&& match entry {
        None => !dirty(words, p - 1) && done + runs_from(words, p) == runs(words),
        Some(e) => {
            &&& 0 <= first < p
            &&& dirty(words, p - 1)
            &&& e.address == base + first * page
            &&& e.length == (p - first) * page
            &&& done + seq![Span { start: first, end: run_end(words, p) }] + runs_from(words, p)
                == runs(words)
        },
    }
}

/// One step of the scan. Where page `p` is marked, the range in progress
/// grows by a page or a new one starts at `p`; where it is not, the range
/// in progress is finished and joins the table.
proof fn lemma_scan_step(
    words: Seq<u64>,
    base: u64,
    page: u64,
    p: int,
    table: Seq<MemoryRange>,
    entry: Option<MemoryRange>,
    done: Seq<Span>,
    first: int,
)
    requires
        0 <= p <= page_count(words),
        addressable(words, base, page),
        scanned(words, base, page, p, table, entry, done, first),
    ensures
        dirty(words, p) ==> p < u64::MAX && p * page <= u64::MAX && base + p * page <= u64::MAX,
        dirty(words, p) ==> match entry {
            Some(e) => e.length + page <= u64::MAX && scanned(
                words,
                base,
                page,
                p + 1,
                table,
                Some(MemoryRange { address: e.address, length: (e.length + page) as u64 }),
                done,
                first,
            ),
            None => scanned(
                words,
                base,
                page,
                p + 1,
                table,
                Some(MemoryRange { address: (base + p * page) as u64, length: page }),
                done,
                p,
            ),
        },
        !dirty(words, p) ==> match entry {
            Some(e) => scanned(
                words,
                base,
                page,
                p + 1,
                table.push(e),
                None,
                done.push(Span { start: first, end: p }),
                first,
            ) && (p == page_count(words) ==> table.push(e) == table_of(words, base, page)),
            None => scanned(words, base, page, p + 1, table, None, done, first)
                && (p == page_count(words) ==> table == table_of(words, base, page)),
        },
{
    let next = runs_from(words, p + 1);
    if dirty(words, p) {
        assert(run_end(words, p) == run_end(words, p + 1));
        assert(base + (p + 1) * page <= u64::MAX);
        match entry {
            Some(e) => {
                lemma_range_fits(base as int, page as int, first, p + 1);
                assert(runs_from(words, p) == next);
                let grown = MemoryRange { address: e.address, length: (e.length + page) as u64 };
                assert(scanned(words, base, page, p + 1, table, Some(grown), done, first));
            },
            None => {
                lemma_range_fits(base as int, page as int, p, p + 1);
                let span = Span { start: p, end: run_end(words, p + 1) };
                assert(runs_from(words, p) == seq![span] + next);
                assert(done + seq![span] + next =~= done + (seq![span] + next));
                let started = MemoryRange { address: (base + p * page) as u64, length: page };
                assert(scanned(words, base, page, p + 1, table, Some(started), done, p));
            },
        }
    } else {
        assert(run_end(words, p) == p);
        assert(runs_from(words, p) == next);
        match entry {
            Some(e) => {
                let span = Span { start: first, end: p };
                assert(e == range_of(span, base, page));
                assert(table.push(e) =~= table_from(done.push(span), base, page));
                assert(done.push(span) + next =~= done + seq![span] + next);
                let pushed = table.push(e);
                assert(scanned(words, base, page, p + 1, pushed, None, done.push(span), first));
                if p == page_count(words) {
                    assert(next =~= Seq::<Span>::empty());
                    assert(done.push(span) =~= runs(words));
                    assert(table.push(e) == table_of(words, base, page));
                }
            },
            None => {
                assert(scanned(words, base, page, p + 1, table, None, done, first));
                if p == page_count(words) {
                    assert(next =~= Seq::<Span>::empty());
                    assert(done =~= runs(words));
                    assert(table == table_of(words, base, page));
                }
            },
        }
    }
}

impl View for MemoryRangeTable {
    type V = Seq<MemoryRange>;

    closed spec fn view(&self) -> Seq<MemoryRange> {
        self.data@
    }
}

impl Default for MemoryRangeTable {
    fn default() -> (table: Self)
        ensures
            table@ == Seq::<MemoryRange>::empty(),
            canonical(table@),
    {
        MemoryRangeTable { data: Vec::new() }
    }
}

impl MemoryRangeTable {
    /// Builds the table of a materialized bitmap by looking at every page in
    /// turn. Page 0 lies at `start_addr`, and every page is `page_size` bytes.
    ///
    /// The caller sees to it that every marked page ends at a 64-bit address.
    pub fn from_bitmap(bitmap: Vec<u64>, start_addr: u64, page_size: u64) -> (table: Self)
        requires
            addressable(bitmap@, start_addr, page_size),
        ensures
            table@ == table_of(bitmap@, start_addr, page_size),
            page_size > 0 ==> canonical(table@),
    {
        proof {
            if page_size > 0 {
                lemma_table_is_canonical(bitmap@, start_addr, page_size);
            }
        }
        let mut table = MemoryRangeTable::default();
        let mut entry: Option<MemoryRange> = None;
        let ghost words = bitmap@;
        let ghost mut done: Seq<Span> = Seq::empty();
        let ghost mut first: int = 0;
        proof {
            assert(done + runs_from(words, 0) =~= runs(words));
            assert(table@ =~= table_from(done, start_addr, page_size));
        }
        let mut i: usize = 0;
        while i < bitmap.len()
            invariant
                words == bitmap@,
                i <= bitmap.len(),
                addressable(words, start_addr, page_size),
                scanned(words, start_addr, page_size, 64 * i, table@, entry, done, first),
            decreases bitmap.len() - i,
        {
            let block: u64 = bitmap[i];
            let mut j: u64 = 0;
            while j < 64
                invariant
                    words == bitmap@,
                    i < bitmap.len(),
                    block == words[i as int],
                    j <= 64,
                    addressable(words, start_addr, page_size),
                    scanned(words, start_addr, page_size, 64 * i + j, table@, entry, done, first),
                decreases 64 - j,
            {
                let ghost p: int = 64 * i + j;
                let is_page_dirty: bool = ((block >> j) & 1u64) != 0u64;
                proof {
                    lemma_bit_test(block, j);
                    assert(is_page_dirty == dirty(words, p));
                    lemma_scan_step(words, start_addr, page_size, p, table@, entry, done, first);
                }
                if is_page_dirty {
                    if let Some(e) = &mut entry {
                        e.length += page_size;
                    } else {
                        let page_offset: u64 = (i as u64 * 64 + j) * page_size;
                        entry = Some(
                            MemoryRange { address: start_addr + page_offset, length: page_size },
                        );
                        proof {
                            first = p;
                        }
                    }
                } else if let Some(e) = entry.take() {
                    table.push(e);
                    proof {
                        done = done.push(Span { start: first, end: p });
                    }
                }
                j += 1;
            }
            i += 1;
        }
        proof {
            let total = page_count(words);
            lemma_scan_step(words, start_addr, page_size, total, table@, entry, done, first);
        }
        if let Some(e) = entry.take() {
            table.push(e);
        }
        table
    }

    /// Builds the table of a stream of bitmap words by collecting the ranges
    /// that the streaming stages hand out; the words are never materialized.
    /// The table is the one that `from_bitmap` builds of the same words.
    ///
    /// The caller sees to it that the stream holds no more than `usize::MAX`
    /// words and that every marked page ends at a 64-bit address.
    pub fn from_bitmap_iter<W: WordStream>(
        bitmap_iter: W,
        start_addr: u64,
        page_size: u64,
    ) -> (table: Self)
        requires
            countable(bitmap_iter.pending()),
            addressable(bitmap_iter.pending(), start_addr, page_size),
        ensures
            table@ == table_of(bitmap_iter.pending(), start_addr, page_size),
            page_size > 0 ==> canonical(table@),
    {
        proof {
            if page_size > 0 {
                lemma_table_is_canonical(bitmap_iter.pending(), start_addr, page_size);
            }
        }
        let ghost expected = table_of(bitmap_iter.pending(), start_addr, page_size);
        let mut stage = Self::dirty_range_iter(bitmap_iter, start_addr, page_size);
        let mut data: Vec<MemoryRange> = Vec::new();
        assert(data@ + stage.remaining() =~= expected);
        loop
            invariant
                stage.wf(),
                data@ + stage.remaining() == expected,
            ensures
                data@ == expected,
            decreases stage.remaining().len(),
        {
            let ghost before = stage.remaining();
            let ghost collected = data@;
            match stage.next() {
                Some(range) => {
                    data.push(range);
                    assert(data@ + stage.remaining() =~= collected + before) by {
                        assert(before =~= seq![range] + before.drop_first());
                    }
                },
                None => {
                    assert(data@ + stage.remaining() =~= data@);
                    break;
                },
            }
        }
        MemoryRangeTable { data }
    }

    /// The ranges of the table, in order.
    pub fn as_slice(&self) -> (ranges: &[MemoryRange])
        ensures
            ranges@ == self@,
    {
        self.data.as_slice()
    }

    /// Appends a range to the table. The table stays canonical where the
    /// range is not empty and starts above the end of the last one.
    pub fn push(&mut self, range: MemoryRange)
        ensures
            final(self)@ == old(self)@.push(range),
            canonical(old(self)@) && range.length > 0 && (old(self)@.len() > 0
                ==> old(self)@.last().address + old(self)@.last().length < range.address)
                ==> canonical(final(self)@),
    {
        self.data.push(range)
    }
}

/// The table of the pages that either of two bitmaps marks, for 4096-byte
/// pages from address 0; the merged bitmap is materialized and every page of
/// it is looked at.
///
/// The caller sees to it that the bitmaps are of equal length and that every
/// marked page ends at a 64-bit address.
pub fn bitmap_to_memory_table(bitmap1: &[u64], bitmap2: &[u64]) -> (table: MemoryRangeTable)
    requires
        bitmap1.len() == bitmap2.len(),
        addressable(merged(bitmap1@, bitmap2@), 0, 4096),
    ensures
        table@ == table_of(merged(bitmap1@, bitmap2@), 0, 4096),
        canonical(table@),
{
    let mut dirty_bitmap: Vec<u64> = Vec::new();
    let mut i: usize = 0;
    while i < bitmap1.len()
        invariant
            bitmap1.len() == bitmap2.len(),
            i <= bitmap1.len(),
            dirty_bitmap@ == merged(bitmap1@, bitmap2@).take(i as int),
        decreases bitmap1.len() - i,
    {
        dirty_bitmap.push(bitmap1[i] | bitmap2[i]);
        i += 1;
        assert(dirty_bitmap@ =~= merged(bitmap1@, bitmap2@).take(i as int));
    }
    assert(dirty_bitmap@ =~= merged(bitmap1@, bitmap2@));
    MemoryRangeTable::from_bitmap(dirty_bitmap, 0, 4096)
}

/// The same table as `bitmap_to_memory_table` gives, built by streaming: the
/// two bitmaps are merged word by word as the words are needed.
///
/// The caller sees to it that the bitmaps are of equal length and that every
/// marked page ends at a 64-bit address.
pub fn bitmap_to_memory_table2(bitmap1: &[u64], bitmap2: &[u64]) -> (table: MemoryRangeTable)
    requires
        bitmap1.len() == bitmap2.len(),
        addressable(merged(bitmap1@, bitmap2@), 0, 4096),
    ensures
        table@ == table_of(merged(bitmap1@, bitmap2@), 0, 4096),
        canonical(table@),
{
    let dirty_bitmap_iter = MergedWords::new(bitmap1, bitmap2);
    MemoryRangeTable::from_bitmap_iter(dirty_bitmap_iter, 0, 4096)
}

} // verus!
