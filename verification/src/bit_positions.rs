//! A stage that turns a stream of bitmap words into the ascending sequence of
//! the pages they mark, skipping each exhausted word in one step.

use crate::pages::{
    countable, dirty, lemma_dirty_bit, lemma_marked_skip, marked, page_count, positions,
};
use crate::words::WordStream;
use vstd::prelude::*;
use vstd::std_specs::bits::axiom_u64_trailing_zeros;

verus! {

/// Pulls words from a stream and hands out the marked pages one at a time.
pub struct BitposIterator<W> {
    underlying_it: W,
    /// How many words have been consumed in full.
    word_pos: usize,
    /// The word being scanned, with the bit at which the scan goes on.
    current_word: Option<(u64, u32)>,
    /// Every word of the stream, those already pulled included.
    words: Ghost<Seq<u64>>,
}

/// Shifting right twice is shifting right by the sum, and clears the word
/// once the sum reaches its width.
proof fn lemma_shift_twice(word: u64, c: u64, j: u64)
    by (bit_vector)
    requires
        c < 64,
        j < 64,
    ensures
        c + j < 64 ==> ((word >> c) >> j) & 1 == (word >> ((c + j) as u64)) & 1,
        c + j >= 64 ==> ((word >> c) >> j) & 1 == 0,
{
}

/// A word that is zero from bit `c` upwards has no bit set at or above `c`.
proof fn lemma_no_bit_above(word: u64, c: u64, j: u64)
    by (bit_vector)
    requires
        c <= j < 64,
        word >> c == 0,
    ensures
        (word >> j) & 1 == 0,
{
}

impl<W: WordStream> BitposIterator<W> {
    /// Every word of the stream this stage was built on.
    pub closed spec fn words(&self) -> Seq<u64> {
        self.words@
    }

    /// The first page that has not been looked at yet.
    pub closed spec fn frontier(&self) -> int {
        64 * self.word_pos + match self.current_word {
            Some((_, bit)) => bit as int,
            None => 0,
        }
    }

    /// The state is consistent: the words already pulled and those still
    /// pending make up the whole stream.
    pub closed spec fn wf(&self) -> bool {
        &&& countable(self.words@)
        &&& match self.current_word {
            Some((word, bit)) => {
                &&& bit <= 64
                &&& self.word_pos < self.words@.len()
                &&& word == self.words@[self.word_pos as int]
                &&& self.underlying_it.pending() == self.words@.skip(self.word_pos + 1)
            },
            None => {
                &&& self.word_pos <= self.words@.len()
                &&& self.underlying_it.pending() == self.words@.skip(self.word_pos as int)
            },
        }
    }

    /// The pages still to be handed out, ascending.
    pub open spec fn remaining(&self) -> Seq<int> {
        marked(self.words(), self.frontier(), page_count(self.words()))
    }

    /// Hands out the next marked page, or `None` once the stream holds none.
    pub fn next(&mut self) -> (position: Option<u64>)
        requires
            old(self).wf(),
        ensures
            final(self).wf(),
            final(self).words() == old(self).words(),
            match position {
                Some(p) => {
                    &&& old(self).remaining().len() > 0
                    &&& p == old(self).remaining()[0]
                    &&& dirty(old(self).words(), p as int)
                    &&& final(self).remaining() == old(self).remaining().drop_first()
                },
                None => old(self).remaining().len() == 0 && final(self).remaining().len() == 0,
            },
    {
        let ghost words = self.words@;
        let ghost total = page_count(words);
        loop
            invariant
                self.wf(),
                self.words@ == words,
                words == old(self).words(),
                total == page_count(words),
                self.remaining() == old(self).remaining(),
            decreases words.len() - self.word_pos,
        {
            if self.current_word.is_none() {
                let ghost before = self.underlying_it.pending();
                self.current_word = match self.underlying_it.next_word() {
                    Some(word) => Some((word, 0)),
                    None => None,
                };
                proof {
                    if self.current_word is Some {
                        assert(before.drop_first() =~= words.skip(self.word_pos + 1));
                    }
                }
            }
            let (word, word_bit): (u64, u32) = match self.current_word {
                Some(current) => current,
                None => {
                    return None;
                },
            };
            let ghost base = 64 * self.word_pos;
            if word != 0 {
                let shifted_word: u64 = if word_bit < 64 {
                    word >> word_bit
                } else {
                    0
                };
                if shifted_word != 0 {
                    let zeroes: u32 = shifted_word.trailing_zeros();
                    proof {
                        axiom_u64_trailing_zeros(shifted_word);
                        lemma_shift_twice(word, word_bit as u64, zeroes as u64);
                        let found = base + word_bit + zeroes;
                        lemma_dirty_bit(words, self.word_pos as int, word_bit + zeroes);
                        assert forall|q: int| base + word_bit <= q < found implies !dirty(
                            words,
                            q,
                        ) by {
                            let j = (q - base - word_bit) as u64;
                            lemma_shift_twice(word, word_bit as u64, j);
                            lemma_dirty_bit(words, self.word_pos as int, q - base);
                        }
                        lemma_marked_skip(words, base + word_bit, found, total);
                        assert(marked(words, found, total).drop_first()
                            =~= marked(words, found + 1, total));
                    }
                    self.current_word = Some((word, zeroes + word_bit + 1));
                    let next_bitpos: u64 = self.word_pos as u64 * 64 + (word_bit + zeroes) as u64;
                    return Some(next_bitpos);
                }
            }
            proof {
                assert forall|q: int| base + word_bit <= q < base + 64 implies !dirty(words, q) by {
                    let j = (q - base) as u64;
                    if word == 0 {
                        assert((0u64 >> j) & 1 == 0) by (bit_vector);
                    } else {
                        lemma_no_bit_above(word, word_bit as u64, j);
                    }
                    lemma_dirty_bit(words, self.word_pos as int, q - base);
                }
                lemma_marked_skip(words, base + word_bit, base + 64, total);
            }
            self.current_word = None;
            self.word_pos += 1;
        }
    }
}

/// Adds `bit_positions` to every stream of words.
pub trait BitposIteratorExt: WordStream + Sized {
    /// The marked pages of the words that the stream still holds, with the
    /// first of these words as word 0.
    ///
    /// The caller sees to it that the stream holds no more than `usize::MAX`
    /// words and that every marked page has a 64-bit page number.
    fn bit_positions(self) -> (stage: BitposIterator<Self>)
        requires
            countable(self.pending()),
        ensures
            stage.wf(),
            stage.words() == self.pending(),
            stage.remaining() == positions(self.pending()),
    {
        let ghost words = self.pending();
        let stage = BitposIterator {
            underlying_it: self,
            word_pos: 0,
            current_word: None,
            words: Ghost(words),
        };
        proof {
            assert(words.skip(0) =~= words);
        }
        stage
    }
}

impl<W: WordStream + Sized> BitposIteratorExt for W {}

} // verus!
