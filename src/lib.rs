//! A piece table: an editable text held as a sequence of pieces, each one a
//! byte range of an append-only buffer. Inserting and deleting never copy the
//! text; materializing it concatenates the bytes that the pieces reference.
//!
//! Positions and lengths are byte offsets into the logical text.
pub mod piece;
mod buffer;
pub mod text;
pub mod table;

pub use piece::Piece;
pub use table::{Location, PieceTable};
pub mod laws;
