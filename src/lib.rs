//! A compressed set of 32-bit unsigned integers (a roaring bitmap).
//!
//! Values are split into a 16-bit key and a 16-bit low part; the low parts
//! that share a key live in one container, encoded as a sorted array, a
//! 65,536-bit vector or a list of runs, whichever is cheapest.
//!
//! - `order`: ascending sequences, the model every part is specified on.
//! - `setop`: the four set operations and the merge of ascending arrays.
//! - `bits`, `runs`: the dense and run encodings of one container.
//! - `container`: one container in any encoding, and the encoding choice.
//! - `chunks`: containers ordered by key, and the members they spell.
//! - `bitmap`: the whole set, `RoaringBitmap`.
//! - `codec`: the portable serialized form.
//! - `laws`: laws relating the operations to one another.
pub mod order;
pub mod setop;
pub mod bits;
pub mod runs;
pub mod container;
pub mod chunks;
pub mod bitmap;
pub mod codec;
pub mod laws;


pub use bitmap::RoaringBitmap;
pub use codec::FormatError;
pub use container::Encoding;
pub use setop::SetOp;
