//! A fixed-capacity bitset backed by 64-bit words.
//!
//! A [`BitSet`] owns a sequence of `u64` words, each packing 64 consecutive
//! bit positions least-significant bit first, together with the logical bit
//! count requested at construction. Queries (`test`, `count`, `any`, `none`)
//! and mutations (`set`, `flip`, `reset`, `flip_all`) are verified against
//! word-level and bit-level specifications.

mod bitset;
mod popcount;

pub use crate::bitset::BitSet;
pub use crate::popcount::bit_count64;
