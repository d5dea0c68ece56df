//! Which pages a bitmap marks.
//!
//! A bitmap is a sequence of 64-bit words. Bit `j` of word `i`, counted from
//! the least significant bit, stands for page `64 * i + j`.

use vstd::prelude::*;

verus! {

/// Number of pages that a bitmap of these words describes.
pub open spec fn page_count(words: Seq<u64>) -> int {
    64 * (words.len() as int)
}

/// Bit `j` of `word`, counted from the least significant bit.
pub open spec fn bit_is_set(word: u64, j: int) -> bool {
    0 <= j < 64 && (word >> (j as u64)) & 1 == 1
}

/// Page `p` is marked in the bitmap: bit `p % 64` of word `p / 64`.
pub open spec fn dirty(words: Seq<u64>, p: int) -> bool {
    0 <= p < page_count(words) && bit_is_set(words[p / 64], p % 64)
}

/// The marked pages in `[lo, hi)`, ascending.
pub open spec fn marked(words: Seq<u64>, lo: int, hi: int) -> Seq<int>
    decreases hi - lo,
{
    if lo >= hi {
        Seq::empty()
    } else if dirty(words, lo) {
        seq![lo] + marked(words, lo + 1, hi)
    } else {
        marked(words, lo + 1, hi)
    }
}

/// Every marked page of the bitmap, ascending.
pub open spec fn positions(words: Seq<u64>) -> Seq<int> {
    marked(words, 0, page_count(words))
}

/// The words hold no more than `usize::MAX` entries, and every marked page
/// has a 64-bit page number.
pub open spec fn countable(words: Seq<u64>) -> bool {
    &&& words.len() <= usize::MAX
    &&& forall|p: int| #[trigger] dirty(words, p) ==> p <= u64::MAX
}

/// Page `64 * i + j` is bit `j` of word `i`.
pub(crate) proof fn lemma_dirty_bit(words: Seq<u64>, i: int, j: int)
    requires
        0 <= i < words.len(),
        0 <= j < 64,
    ensures
        dirty(words, 64 * i + j) == bit_is_set(words[i], j),
{
}

/// Every element of `marked(words, lo, hi)` is a marked page of `[lo, hi)`.
pub(crate) proof fn lemma_marked_index(words: Seq<u64>, lo: int, hi: int, i: int)
    requires
        0 <= i < marked(words, lo, hi).len(),
    ensures
        lo <= marked(words, lo, hi)[i] < hi,
        dirty(words, marked(words, lo, hi)[i]),
    decreases hi - lo,
{
    if lo < hi {
        if dirty(words, lo) {
            if i > 0 {
                lemma_marked_index(words, lo + 1, hi, i - 1);
            }
        } else {
            lemma_marked_index(words, lo + 1, hi, i);
        }
    }
}

/// Unmarked pages at the front of an interval contribute nothing.
pub(crate) proof fn lemma_marked_skip(words: Seq<u64>, lo: int, mid: int, hi: int)
    requires
        lo <= mid,
        forall|q: int| lo <= q < mid ==> !dirty(words, q),
    ensures
        marked(words, lo, hi) == marked(words, if mid <= hi { mid } else { hi }, hi),
    decreases mid - lo,
{
    if lo < mid && lo < hi {
        lemma_marked_skip(words, lo + 1, mid, hi);
    }
}

/// The elements of `marked(words, lo, hi)` ascend strictly.
pub(crate) proof fn lemma_marked_ascend(words: Seq<u64>, lo: int, hi: int, i: int, j: int)
    requires
        0 <= i < j < marked(words, lo, hi).len(),
    ensures
        marked(words, lo, hi)[i] < marked(words, lo, hi)[j],
    decreases hi - lo,
{
    if lo < hi {
        if dirty(words, lo) {
            if i > 0 {
                lemma_marked_ascend(words, lo + 1, hi, i - 1, j - 1);
            } else {
                lemma_marked_index(words, lo + 1, hi, j - 1);
            }
        } else {
            lemma_marked_ascend(words, lo + 1, hi, i, j);
        }
    }
}

/// Every marked page of `[lo, hi)` is an element of `marked(words, lo, hi)`.
pub(crate) proof fn lemma_marked_has(words: Seq<u64>, lo: int, hi: int, p: int) -> (i: int)
    requires
        lo <= p < hi,
        dirty(words, p),
    ensures
        0 <= i < marked(words, lo, hi).len(),
        marked(words, lo, hi)[i] == p,
    decreases p - lo,
{
    if lo == p {
        0
    } else {
        let i = lemma_marked_has(words, lo + 1, hi, p);
        if dirty(words, lo) {
            i + 1
        } else {
            i
        }
    }
}

} // verus!
