//! A segmented list of shared byte chunks with a seekable, readable cursor.
//!
//! A [`BufList`] stores a logically contiguous byte stream as an ordered
//! sequence of independently owned [`bytes::Bytes`] chunks, so data arriving
//! in pieces (for example from successive socket reads) need never be copied
//! into one contiguous allocation. The list supports appending at the tail
//! and draining from the front.
//!
//! A [`Cursor`] wraps a [`BufList`] and adds random-access read and seek
//! semantics equivalent to a standard in-memory cursor over the concatenated
//! bytes, using a chunk-start index to resolve positions in O(1) for local
//! moves and O(log n) for arbitrary jumps.

pub mod buf_list;
pub mod chunk;
pub mod cursor;
pub mod errors;
