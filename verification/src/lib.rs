//! A piece table: a data structure for incremental editing of a text buffer.
//!
//! The logical text is represented as an ordered sequence of *pieces*, each
//! naming a contiguous span of one of two backing buffers: the immutable
//! original source, and an append-only buffer that collects inserted content.
//! Insertions and deletions only split, shrink, extend or remove piece
//! descriptors; buffer contents are never moved or overwritten.
//!
//! Every operation carries a contract relating it to the logical text, the
//! view of the table as a sequence of elements.

mod iter;
mod piece;
mod table;

pub use iter::Iter;
pub use table::PieceTable;
pub use table::PieceTableError;
