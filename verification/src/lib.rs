//! Dirty-page bitmaps turned into tables of contiguous address ranges.

pub mod bit_positions;
pub mod laws;
pub mod pages;
pub mod ranges;
pub mod runs;
pub mod table;
pub mod words;

pub use crate::bit_positions::{BitposIterator, BitposIteratorExt};
pub use crate::ranges::DirtyRangeIter;
pub use crate::table::{
    bitmap_to_memory_table, bitmap_to_memory_table2, MemoryRange, MemoryRangeTable,
};
pub use crate::words::{MergedWords, WordStream, Words};
