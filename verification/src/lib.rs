//! Compressed bitmaps: sets of 32-bit integers kept as sorted runs of values,
//! and treemaps, sets of 64-bit integers kept as a map from the high 32 bits
//! of each value to a bitmap of its low 32 bits. Bitmaps and treemaps read and
//! write the serialization formats of the roaring bitmap family.
use vstd::prelude::*;

pub mod bitmap;
pub mod bitmap64;
pub mod bitset;
pub mod bytes;
pub mod callback;
pub mod containers;
pub mod cursor;
pub mod cursor64;
pub mod encode;
pub mod fuzz_ops;
pub mod fuzz_ops64;
pub mod fuzz_bitvec;
pub mod lazy;
pub mod laws;
pub mod legacy_serialization;
pub mod portable;
pub mod range;
pub mod runs;
pub mod serialization;
pub mod shown;
pub mod treemap;
pub mod treemap_serialization;

pub use bitmap::Bitmap;
pub use bitmap64::Bitmap64;
pub use bitset::Bitset;
pub use cursor::{BitmapChunks, BitmapCursor, BitmapIterator};
pub use cursor64::{Bitmap64Cursor, Bitmap64Iterator};
pub use range::{Bound, RangeInclusive};
pub use serialization::{Frozen, JvmLegacy, Native, Portable};
pub use treemap::Treemap;

verus! {

} // verus!
