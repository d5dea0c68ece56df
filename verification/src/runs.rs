//! The maximal runs of marked pages of a bitmap, and the coalescing of
//! spans of pages that yields them.

use crate::pages::{dirty, lemma_marked_index, marked, page_count};
use vstd::prelude::*;

verus! {

/// A half-open interval of page numbers, `[start, end)`.
pub struct Span {
    pub start: int,
    pub end: int,
}

/// The first unmarked page at or after `p`.
pub open spec fn run_end(words: Seq<u64>, p: int) -> int
    decreases page_count(words) - p,
{
    if dirty(words, p) {
        run_end(words, p + 1)
    } else {
        p
    }
}

/// The first page of the run of marked pages that holds page `p`.
pub open spec fn run_start(words: Seq<u64>, p: int) -> int
    decreases p,
{
    if dirty(words, p - 1) {
        run_start(words, p - 1)
    } else {
        p
    }
}

/// Page `p` is marked and the page before it is not.
pub open spec fn starts_run(words: Seq<u64>, p: int) -> bool {
    dirty(words, p) && !dirty(words, p - 1)
}

/// The maximal runs of marked pages that start at or after `lo`, ascending.
pub open spec fn runs_from(words: Seq<u64>, lo: int) -> Seq<Span>
    decreases page_count(words) - lo,
{
    if lo >= page_count(words) {
        Seq::empty()
    } else if starts_run(words, lo) {
        seq![Span { start: lo, end: run_end(words, lo) }] + runs_from(words, lo + 1)
    } else {
        runs_from(words, lo + 1)
    }
}

/// The maximal runs of marked pages of the bitmap, ascending.
pub open spec fn runs(words: Seq<u64>) -> Seq<Span> {
    runs_from(words, 0)
}

/// Page `p` lies in one of the spans.
pub open spec fn in_spans(spans: Seq<Span>, p: int) -> bool {
    exists|i: int| 0 <= i < spans.len() && (#[trigger] spans[i]).start <= p < spans[i].end
}

/// The one-page span that holds page `p`.
pub open spec fn unit(p: int) -> Span {
    Span { start: p, end: p + 1 }
}

/// The one-page spans of the given pages, in the same order.
pub open spec fn units(pages: Seq<int>) -> Seq<Span> {
    Seq::new(pages.len(), |i: int| unit(pages[i]))
}

/// Merges each span into its predecessor where the predecessor ends at the
/// span's start; the spans are taken strictly in order.
pub open spec fn coalesce(spans: Seq<Span>) -> Seq<Span>
    decreases spans.len(),
{
    if spans.len() < 2 {
        spans
    } else if spans[0].end == spans[1].start {
        coalesce(seq![Span { start: spans[0].start, end: spans[1].end }] + spans.skip(2))
    } else {
        seq![spans[0]] + coalesce(spans.skip(1))
    }
}

/// `run_end(words, p)` is unmarked, and every page from `p` up to it is marked.
pub(crate) proof fn lemma_run_end(words: Seq<u64>, p: int)
    ensures
        p <= run_end(words, p),
        !dirty(words, run_end(words, p)),
        forall|q: int| p <= q < run_end(words, p) ==> dirty(words, q),
    decreases page_count(words) - p,
{
    if dirty(words, p) {
        lemma_run_end(words, p + 1);
    }
}

/// A stretch of marked pages that an unmarked page follows ends there.
pub(crate) proof fn lemma_run_end_is(words: Seq<u64>, p: int, end: int)
    requires
        p <= end,
        forall|q: int| p <= q < end ==> dirty(words, q),
        !dirty(words, end),
    ensures
        run_end(words, p) == end,
    decreases end - p,
{
    if p < end {
        lemma_run_end_is(words, p + 1, end);
    }
}

/// `run_start(words, p)` starts the run that holds the marked page `p`.
pub(crate) proof fn lemma_run_start(words: Seq<u64>, p: int)
    requires
        dirty(words, p),
    ensures
        run_start(words, p) <= p < run_end(words, run_start(words, p)),
        starts_run(words, run_start(words, p)),
        forall|q: int| run_start(words, p) <= q <= p ==> dirty(words, q),
    decreases p,
{
    if dirty(words, p - 1) {
        lemma_run_start(words, p - 1);
    }
    let first = run_start(words, p);
    lemma_run_end(words, first);
    if run_end(words, first) <= p {
        assert(dirty(words, run_end(words, first)));
    }
}

/// Pages that start no run contribute nothing to `runs_from`.
pub(crate) proof fn lemma_runs_skip(words: Seq<u64>, lo: int, hi: int)
    requires
        lo <= hi,
        forall|q: int| lo <= q < hi ==> !starts_run(words, q),
    ensures
        runs_from(words, lo) == runs_from(words, hi),
    decreases hi - lo,
{
    if lo < hi {
        lemma_runs_skip(words, lo + 1, hi);
    }
}

/// Every element of `runs_from(words, lo)` is a maximal run that starts at
/// or after `lo`.
pub(crate) proof fn lemma_runs_from_index(words: Seq<u64>, lo: int, i: int)
    requires
        0 <= i < runs_from(words, lo).len(),
    ensures
        lo <= runs_from(words, lo)[i].start,
        starts_run(words, runs_from(words, lo)[i].start),
        runs_from(words, lo)[i].end == run_end(words, runs_from(words, lo)[i].start),
    decreases page_count(words) - lo,
{
    if lo < page_count(words) {
        if starts_run(words, lo) {
            if i > 0 {
                lemma_runs_from_index(words, lo + 1, i - 1);
            }
        } else {
            lemma_runs_from_index(words, lo + 1, i);
        }
    }
}

/// The runs of `runs_from(words, lo)` start at ascending pages.
pub(crate) proof fn lemma_runs_from_ascending(words: Seq<u64>, lo: int, i: int, j: int)
    requires
        0 <= i < j < runs_from(words, lo).len(),
    ensures
        runs_from(words, lo)[i].start < runs_from(words, lo)[j].start,
    decreases page_count(words) - lo,
{
    if lo < page_count(words) {
        if starts_run(words, lo) {
            if i > 0 {
                lemma_runs_from_ascending(words, lo + 1, i - 1, j - 1);
            } else {
                lemma_runs_from_index(words, lo + 1, j - 1);
            }
        } else {
            lemma_runs_from_ascending(words, lo + 1, i, j);
        }
    }
}

/// Every page that starts a run at or after `lo` has its run in
/// `runs_from(words, lo)`.
pub(crate) proof fn lemma_runs_from_has(words: Seq<u64>, lo: int, first: int) -> (i: int)
    requires
        lo <= first,
        starts_run(words, first),
    ensures
        0 <= i < runs_from(words, lo).len(),
        runs_from(words, lo)[i] == (Span { start: first, end: run_end(words, first) }),
    decreases first - lo,
{
    if lo == first {
        0
    } else {
        let i = lemma_runs_from_has(words, lo + 1, first);
        if starts_run(words, lo) {
            i + 1
        } else {
            i
        }
    }
}

/// Run `i` of the bitmap is a nonempty stretch of marked pages with an
/// unmarked page, or none, on either side.
pub(crate) proof fn lemma_run_shape(words: Seq<u64>, i: int)
    requires
        0 <= i < runs(words).len(),
    ensures
        0 <= runs(words)[i].start < runs(words)[i].end <= page_count(words),
        forall|q: int| runs(words)[i].start <= q < runs(words)[i].end ==> dirty(words, q),
        !dirty(words, runs(words)[i].start - 1),
        !dirty(words, runs(words)[i].end),
{
    lemma_runs_from_index(words, 0, i);
    lemma_run_end(words, runs(words)[i].start);
    if runs(words)[i].end > page_count(words) {
        assert(dirty(words, page_count(words)));
    }
}

/// An unmarked page lies between any two runs of the bitmap.
pub(crate) proof fn lemma_runs_separated(words: Seq<u64>, i: int, j: int)
    requires
        0 <= i < j < runs(words).len(),
    ensures
        runs(words)[i].end < runs(words)[j].start,
{
    lemma_runs_from_ascending(words, 0, i, j);
    lemma_run_shape(words, i);
    lemma_runs_from_index(words, 0, j);
    let next = runs(words)[j].start;
    if next < runs(words)[i].end {
        assert(dirty(words, next - 1));
    }
}

/// The runs of the bitmap hold exactly its marked pages.
pub(crate) proof fn lemma_runs_cover(words: Seq<u64>, p: int)
    ensures
        in_spans(runs(words), p) == dirty(words, p),
{
    if dirty(words, p) {
        lemma_run_start(words, p);
        let i = lemma_runs_from_has(words, 0, run_start(words, p));
        assert(runs(words)[i].start <= p < runs(words)[i].end);
    }
    if in_spans(runs(words), p) {
        let all = runs(words);
        let i = choose|i: int| 0 <= i < all.len() && (#[trigger] all[i]).start <= p < all[i].end;
        lemma_run_shape(words, i);
    }
}

/// A bitmap whose marked pages are exactly those of `[first, end)` has that
/// one run.
pub(crate) proof fn lemma_single_run(words: Seq<u64>, first: int, end: int)
    requires
        first < end,
        forall|q: int| dirty(words, q) <==> first <= q < end,
    ensures
        runs(words) == seq![Span { start: first, end }],
{
    assert(dirty(words, first));
    lemma_runs_skip(words, 0, first);
    lemma_run_end_is(words, first, end);
    lemma_runs_skip(words, first + 1, page_count(words));
    assert(runs_from(words, page_count(words)) =~= Seq::<Span>::empty());
    assert(runs(words) =~= seq![Span { start: first, end }]);
}

/// A bitmap without a marked page has no run.
pub(crate) proof fn lemma_no_run(words: Seq<u64>)
    requires
        forall|q: int| !dirty(words, q),
    ensures
        runs(words) == Seq::<Span>::empty(),
{
    lemma_runs_skip(words, 0, page_count(words));
    assert(runs_from(words, page_count(words)) =~= Seq::<Span>::empty());
}

/// A span that the next one does not touch leaves the coalescer unchanged.
pub(crate) proof fn lemma_coalesce_apart(span: Span, rest: Seq<Span>)
    requires
        rest.len() == 0 || rest[0].start != span.end,
    ensures
        coalesce(seq![span] + rest) == seq![span] + coalesce(rest),
{
    let all = seq![span] + rest;
    if rest.len() == 0 {
        assert(all =~= seq![span]);
        assert(seq![span] + coalesce(rest) =~= seq![span]);
    } else {
        assert(all.skip(1) =~= rest);
    }
}

/// What the coalescer does with the first two spans of its input.
pub(crate) proof fn lemma_coalesce_two(first: Span, second: Span, rest: Seq<Span>)
    ensures
        coalesce(seq![first, second] + rest) == if first.end == second.start {
            coalesce(seq![Span { start: first.start, end: second.end }] + rest)
        } else {
            seq![first] + coalesce(seq![second] + rest)
        },
{
    let all = seq![first, second] + rest;
    assert(all.skip(2) =~= rest);
    assert(all.skip(1) =~= seq![second] + rest);
}

/// The one-page spans of a marked page followed by later ones.
pub(crate) proof fn lemma_units_first(words: Seq<u64>, lo: int, hi: int)
    requires
        lo < hi,
        dirty(words, lo),
    ensures
        units(marked(words, lo, hi)) == seq![unit(lo)] + units(marked(words, lo + 1, hi)),
{
    assert(units(marked(words, lo, hi)) =~= seq![unit(lo)] + units(marked(words, lo + 1, hi)));
}

/// Coalescing a run in progress, which ends just before page `end`, with the
/// one-page spans of the marked pages from `end` on: the run is extended to
/// its end, and the later runs follow.
pub(crate) proof fn lemma_coalesce_open_run(words: Seq<u64>, start: int, end: int)
    requires
        start < end,
        dirty(words, end - 1),
    ensures
        coalesce(
            seq![Span { start, end }] + units(marked(words, end, page_count(words))),
        ) == seq![Span { start, end: run_end(words, end) }] + runs_from(words, end),
    decreases page_count(words) - end,
{
    let total = page_count(words);
    let open = Span { start, end };
    let later = units(marked(words, end + 1, total));
    if end >= total {
        assert(seq![open] + units(marked(words, end, total)) =~= seq![open]);
        assert(seq![open] + runs_from(words, end) =~= seq![open]);
    } else if dirty(words, end) {
        lemma_units_first(words, end, total);
        assert(seq![open] + (seq![unit(end)] + later) =~= seq![open, unit(end)] + later);
        lemma_coalesce_two(open, unit(end), later);
        lemma_coalesce_open_run(words, start, end + 1);
        assert(run_end(words, end) == run_end(words, end + 1));
        assert(runs_from(words, end) == runs_from(words, end + 1));
    } else {
        assert(marked(words, end, total) == marked(words, end + 1, total));
        if later.len() > 0 {
            lemma_marked_index(words, end + 1, total, 0);
        }
        lemma_coalesce_apart(open, later);
        lemma_coalesce_fresh(words, end + 1);
        assert(run_end(words, end) == end);
        assert(runs_from(words, end) == runs_from(words, end + 1));
    }
}

/// Coalescing the one-page spans of the marked pages from `lo` on, where no
/// run reaches `lo` from below, gives the maximal runs from `lo` on.
pub(crate) proof fn lemma_coalesce_fresh(words: Seq<u64>, lo: int)
    requires
        !dirty(words, lo - 1),
    ensures
        coalesce(units(marked(words, lo, page_count(words)))) == runs_from(words, lo),
    decreases page_count(words) - lo,
{
    let total = page_count(words);
    if lo >= total {
        assert(units(marked(words, lo, total)) =~= Seq::<Span>::empty());
    } else if dirty(words, lo) {
        lemma_units_first(words, lo, total);
        lemma_coalesce_open_run(words, lo, lo + 1);
        assert(run_end(words, lo) == run_end(words, lo + 1));
    } else {
        lemma_coalesce_fresh(words, lo + 1);
    }
}

} // verus!
