//! A bitmap equality index over fixed-width integers.
//!
//! Each appended value sets one bit in a few compressed bitmaps (one per
//! block of the value's bits); a query intersects the bitmaps that a value
//! selects and reads back the positions that survive.
use vstd::prelude::*;

pub mod bitmap;
pub mod bitmap_index;
pub mod ozbcbitmap;
pub mod storage;
pub mod values;

pub use bitmap::Bitmap;
pub use bitmap_index::{BitmapIndex, BuildOptions, ChunkSize, Error};
pub use ozbcbitmap::OZBCBitmap;
pub use storage::MetaData;
pub use values::{BitValue, TransmuteToUsize};

verus! {

/// The default options for values of type `U`: 8 bits per block and 32 Mi
/// values per chunk for 8-bit values, else 16 bits per block and 16 Mi values
/// per chunk.
pub fn new_default_index_options<U: BitValue>() -> (r: BuildOptions)
    ensures
        U::bit_count() == 8 ==> r.bit_block_size == 8 && r.chunk_size == ChunkSize::M32,
        U::bit_count() != 8 ==> r.bit_block_size == 16 && r.chunk_size == ChunkSize::M16,
{
    if U::bits_per_value() == 8 {
        return BuildOptions::new(8, ChunkSize::M32);
    }
    BuildOptions::new(16, ChunkSize::M16)
}

} // verus!
