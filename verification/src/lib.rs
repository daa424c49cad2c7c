//! SBSON: a compact binary document format built for random access.
//!
//! A document is a tree of tagged nodes (maps, arrays and scalar leaves).
//! Container nodes carry a table of offsets, so a reader can descend along a
//! path by reading a handful of bytes per level, without decoding anything
//! outside that path.
//!
//! # Reading
//!
//! [`layout`] is the model of the wire format: functions on byte sequences
//! that say what a reader finds in a node. [`raw_cursor`] computes them over
//! slices. [`Cursor`] pairs a node with the storage that holds its document;
//! [`BorrowedCursor`], [`ArcCursor`] and [`CachedMapCursor`] are cursors over
//! particular kinds of storage.
//!
//! # Writing
//!
//! [`value`] is the tree that a document is made from, [`encoding`] the
//! function from such trees to bytes, and [`serializer`] computes it. Small
//! maps are ordered maps, laid out as a search tree ([`heap_order`],
//! [`sorting`]); large maps are perfect-hash maps ([`chd`], [`hashing`]).
//!
//! # What is proved
//!
//! Every function is verified against its contract: no read leaves its
//! buffer, no arithmetic overflows, and every result is the one that the model
//! gives. Across functions:
//!
//! * [`roundtrip`]: a reader finds every value in its encoding;
//! * [`map_laws`]: in a well-formed map a lookup gives what a linear search
//!   gives, every key leads to its own entry, and a key that is not there is
//!   reported as missing;
//! * [`encoder_laws`] and [`chd_laws`]: the maps that the encoder writes are
//!   well-formed, with their entries in the order of the layout;
//! * [`cursor`]: a sub-cursor lies inside its parent.

pub mod arc_cursor;
pub mod borrowed_cursor;
pub mod bytes;
pub mod cached_map_cursor;
pub mod chd;
pub mod chd_laws;
pub mod cursor;
pub mod encoder_laws;
pub mod encoding;
pub mod hashing;
pub mod heap_order;
pub mod layout;
pub mod map_laws;
pub mod order;
pub mod raw_cursor;
pub mod readback;
pub mod roundtrip;
pub mod serializer;
pub mod sorting;
pub mod storage;
pub mod types;
pub mod value;

pub use crate::arc_cursor::ArcCursor;
pub use crate::borrowed_cursor::BorrowedCursor;
pub use crate::cached_map_cursor::CachedMapCursor;
pub use crate::cursor::Cursor;
pub use crate::types::{CursorError, ElementTypeCode, PathSegment};
