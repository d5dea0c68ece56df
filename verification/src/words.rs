//! Streams of bitmap words: a slice read in place, and two slices merged
//! word by word as they are read.

use vstd::prelude::*;

verus! {

/// A single-pass source of bitmap words.
pub trait WordStream {
    /// The words not yet handed out, in order.
    spec fn pending(&self) -> Seq<u64>;

    /// Hands out the next word, or `None` once the stream is exhausted.
    fn next_word(&mut self) -> (word: Option<u64>)
        ensures
            match word {
                Some(w) => {
                    &&& old(self).pending().len() > 0
                    &&& w == old(self).pending()[0]
                    &&& final(self).pending() == old(self).pending().drop_first()
                },
                None => {
                    &&& old(self).pending().len() == 0
                    &&& final(self).pending() == old(self).pending()
                },
            },
    ;
}

/// The word-by-word OR of two bitmaps, as long as the shorter one.
pub open spec fn merged(first: Seq<u64>, second: Seq<u64>) -> Seq<u64> {
    Seq::new(
        if first.len() <= second.len() {
            first.len()
        } else {
            second.len()
        },
        |i: int| first[i] | second[i],
    )
}

/// The words of a slice, front to back.
pub struct Words<'a> {
    words: &'a [u64],
    next: usize,
}

impl<'a> Words<'a> {
    /// A stream of all the words of `words`.
    pub fn new(words: &'a [u64]) -> (stream: Self)
        ensures
            stream.pending() == words@,
    {
        let stream = Words { words, next: 0 };
        assert(stream.pending() =~= words@);
        stream
    }
}

impl<'a> WordStream for Words<'a> {
    closed spec fn pending(&self) -> Seq<u64> {
        if self.next <= self.words@.len() {
            self.words@.skip(self.next as int)
        } else {
            Seq::empty()
        }
    }

    fn next_word(&mut self) -> (word: Option<u64>) {
        if self.next < self.words.len() {
            let word = self.words[self.next];
            self.next += 1;
            assert(self.pending() =~= old(self).pending().drop_first());
            Some(word)
        } else {
            None
        }
    }
}

/// Two slices merged by OR, one word at a time; nothing is materialized.
pub struct MergedWords<'a> {
    first: &'a [u64],
    second: &'a [u64],
    next: usize,
}

impl<'a> MergedWords<'a> {
    /// A stream of the merged words of `first` and `second`.
    pub fn new(first: &'a [u64], second: &'a [u64]) -> (stream: Self)
        ensures
            stream.pending() == merged(first@, second@),
    {
        let stream = MergedWords { first, second, next: 0 };
        assert(stream.pending() =~= merged(first@, second@));
        stream
    }
}

impl<'a> WordStream for MergedWords<'a> {
    closed spec fn pending(&self) -> Seq<u64> {
        let all = merged(self.first@, self.second@);
        if self.next <= all.len() {
            all.skip(self.next as int)
        } else {
            Seq::empty()
        }
    }

    fn next_word(&mut self) -> (word: Option<u64>) {
        if self.next < self.first.len() && self.next < self.second.len() {
            let word = self.first[self.next] | self.second[self.next];
            self.next += 1;
            assert(self.pending() =~= old(self).pending().drop_first());
            Some(word)
        } else {
            None
        }
    }
}

} // verus!
