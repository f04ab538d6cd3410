use vstd::prelude::*;

pub mod bits;
pub mod seq16;
pub mod seq64;
pub mod rle16;
pub mod block;
pub mod two_level;
pub mod bit_map;
pub mod vec64;
pub mod pop_count;
pub mod laws;

pub use bit_map::BitMap;
pub use bits::SetOp;
pub use block::{Block, Kind, Stats};
pub use pop_count::PopCount;
pub use rle16::Rle16;
pub use seq16::Seq16;
pub use seq64::Seq64;
pub use vec64::Vec64;

verus! {

/// The block type under the name that the 16-bit container goes by.
pub type Vec16 = Block;

} // verus!
