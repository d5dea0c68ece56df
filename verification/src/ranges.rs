//! A stage that merges consecutive marked pages into maximal spans and hands
//! out the memory range of each span as soon as it is complete.

use crate::bit_positions::{BitposIterator, BitposIteratorExt};
use crate::pages::{countable, dirty};
use crate::runs::{coalesce, lemma_coalesce_fresh, lemma_coalesce_two, unit, units, Span};
use crate::table::{
    addressable, lemma_range_fits, range_of, table_from, table_of, MemoryRange, MemoryRangeTable,
};
use crate::words::WordStream;
use vstd::prelude::*;

verus! {

/// A half-open interval of page numbers, `[start, end)`.
#[derive(Debug, Clone, Copy)]
pub struct PageSpan {
    pub start: u64,
    pub end: u64,
}

impl View for PageSpan {
    type V = Span;

    open spec fn view(&self) -> Span {
        Span { start: self.start as int, end: self.end as int }
    }
}

/// Joins two spans where the first ends at the start of the second, and
/// hands both back where it does not.
pub fn merge_adjacent(prev: PageSpan, curr: PageSpan) -> (joined: Result<
    PageSpan,
    (PageSpan, PageSpan),
>)
    ensures
        joined == if prev.end == curr.start {
            Ok::<PageSpan, (PageSpan, PageSpan)>(PageSpan { start: prev.start, end: curr.end })
        } else {
            Err::<PageSpan, (PageSpan, PageSpan)>((prev, curr))
        },
{
    if prev.end == curr.start {
        Ok(PageSpan { start: prev.start, end: curr.end })
    } else {
        Err((prev, curr))
    }
}

/// The memory range of a nonempty span of pages that ends at a 64-bit address.
pub fn span_to_range(span: PageSpan, start_addr: u64, page_size: u64) -> (range: MemoryRange)
    requires
        span.start < span.end,
        start_addr + span.end * page_size <= u64::MAX,
    ensures
        range == range_of(span@, start_addr, page_size),
        range.address == start_addr + span.start * page_size,
        range.length == (span.end - span.start) * page_size,
{
    proof {
        lemma_range_fits(start_addr as int, page_size as int, span.start as int, span.end as int);
    }
    MemoryRange {
        address: start_addr + span.start * page_size,
        length: (span.end - span.start) * page_size,
    }
}

/// Pulls marked pages from the stage beneath and hands out one memory range
/// for each maximal run of them, in ascending order.
pub struct DirtyRangeIter<W> {
    positions: BitposIterator<W>,
    /// The span that may still grow.
    pending: Option<PageSpan>,
    start_addr: u64,
    page_size: u64,
}

impl<W: WordStream> DirtyRangeIter<W> {
    /// Every word of the stream this stage was built on.
    pub closed spec fn words(&self) -> Seq<u64> {
        self.positions.words()
    }

    /// The address of page 0.
    pub closed spec fn start_addr(&self) -> u64 {
        self.start_addr
    }

    /// The size of a page in bytes.
    pub closed spec fn page_size(&self) -> u64 {
        self.page_size
    }

    /// The span that may still grow, if there is one.
    pub closed spec fn held(&self) -> Seq<Span> {
        match self.pending {
            Some(span) => seq![span@],
            None => Seq::empty(),
        }
    }

    /// The marked pages that the stage beneath has not handed out yet.
    pub closed spec fn upcoming(&self) -> Seq<int> {
        self.positions.remaining()
    }

    /// The state is consistent, and every range to come can be written in
    /// 64-bit fields.
    pub closed spec fn wf(&self) -> bool {
        &&& self.positions.wf()
        &&& addressable(self.positions.words(), self.start_addr, self.page_size)
        &&& match self.pending {
            Some(span) => span.start < span.end && dirty(self.positions.words(), span.end - 1),
            None => true,
        }
    }

    /// The ranges still to be handed out, ascending: the span held back and
    /// the pages to come, coalesced.
    pub open spec fn remaining(&self) -> Seq<MemoryRange> {
        table_from(
            coalesce(self.held() + units(self.upcoming())),
            self.start_addr(),
            self.page_size(),
        )
    }

    /// Hands out the next range, or `None` once every range has been handed out.
    pub fn next(&mut self) -> (range: Option<MemoryRange>)
        requires
            old(self).wf(),
        ensures
            final(self).wf(),
            final(self).words() == old(self).words(),
            final(self).start_addr() == old(self).start_addr(),
            final(self).page_size() == old(self).page_size(),
            match range {
                Some(r) => {
                    &&& old(self).remaining().len() > 0
                    &&& r == old(self).remaining()[0]
                    &&& final(self).remaining() == old(self).remaining().drop_first()
                },
                None => old(self).remaining().len() == 0 && final(self).remaining().len() == 0,
            },
    {
        loop
            invariant
                self.wf(),
                self.words() == old(self).words(),
                self.start_addr == old(self).start_addr,
                self.page_size == old(self).page_size,
                self.remaining() == old(self).remaining(),
            decreases self.positions.remaining().len(),
        {
            let ghost before = units(self.positions.remaining());
            let ghost held = self.held();
            match self.positions.next() {
                Some(bit) => {
                    let ghost later = units(self.positions.remaining());
                    assert(before =~= seq![unit(bit as int)] + later);
                    let curr: PageSpan = PageSpan { start: bit, end: bit + 1 };
                    match self.pending {
                        None => {
                            self.pending = Some(curr);
                            assert(self.held() + later =~= held + before);
                        },
                        Some(prev) => {
                            proof {
                                assert(held + before =~= seq![prev@, curr@] + later);
                                lemma_coalesce_two(prev@, curr@, later);
                            }
                            match merge_adjacent(prev, curr) {
                                Ok(joined) => {
                                    self.pending = Some(joined);
                                },
                                Err((prev, curr)) => {
                                    self.pending = Some(curr);
                                    proof {
                                        let rest = coalesce(seq![curr@] + later);
                                        let base = self.start_addr;
                                        let page = self.page_size;
                                        let all = table_from(seq![prev@] + rest, base, page);
                                        assert(all.drop_first() =~= table_from(rest, base, page));
                                    }
                                    return Some(
                                        span_to_range(prev, self.start_addr, self.page_size),
                                    );
                                },
                            }
                        },
                    }
                },
                None => {
                    proof {
                        assert(held + before =~= held);
                    }
                    return match self.pending.take() {
                        Some(prev) => Some(span_to_range(prev, self.start_addr, self.page_size)),
                        None => None,
                    };
                },
            }
        }
    }
}

impl MemoryRangeTable {
    /// A stage that hands out, one at a time and in ascending order, the
    /// ranges of the table that describes the words of `bitmap`. Neither the
    /// words nor the marked pages are materialized.
    ///
    /// The caller sees to it that the stream holds no more than `usize::MAX`
    /// words and that every marked page ends at a 64-bit address.
    pub fn dirty_range_iter<W: WordStream>(
        bitmap: W,
        start_addr: u64,
        page_size: u64,
    ) -> (stage: DirtyRangeIter<W>)
        requires
            countable(bitmap.pending()),
            addressable(bitmap.pending(), start_addr, page_size),
        ensures
            stage.wf(),
            stage.words() == bitmap.pending(),
            stage.start_addr() == start_addr,
            stage.page_size() == page_size,
            stage.remaining() == table_of(bitmap.pending(), start_addr, page_size),
    {
        let stage = DirtyRangeIter {
            positions: bitmap.bit_positions(),
            pending: None,
            start_addr,
            page_size,
        };
        proof {
            lemma_coalesce_fresh(bitmap.pending(), 0);
            assert(stage.held() + units(stage.upcoming()) =~= units(stage.upcoming()));
        }
        stage
    }
}

} // verus!
