//! Pieces: half-open byte ranges of one buffer.
use vstd::prelude::*;

verus! {

/// A section of one buffer, the bytes `[start, end)` of the buffer whose index
/// in the buffer store is `buffer_index`.
#[derive(Clone, Copy, Debug, PartialEq, Eq, Structural)]
pub struct Piece {
    pub buffer_index: usize,
    pub start: usize,
    pub end: usize,
}

impl Piece {
    /// The number of bytes the piece covers.
    pub open spec fn spec_len(self) -> int {
        self.end - self.start
    }

    /// The piece that keeps the first `offset` bytes of `self`.
    pub open spec fn spec_before(self, offset: int) -> Piece {
        Piece { buffer_index: self.buffer_index, start: self.start, end: (self.start + offset) as usize }
    }

    /// The piece that drops the first `offset` bytes of `self`.
    pub open spec fn spec_after(self, offset: int) -> Piece {
        Piece { buffer_index: self.buffer_index, start: (self.start + offset) as usize, end: self.end }
    }

    /// `next` continues `self` in the same buffer, so the two can be one piece.
    pub open spec fn mergeable(self, next: Piece) -> bool {
        self.buffer_index == next.buffer_index && self.end == next.start
    }

    /// Length of the piece in bytes.
    pub fn len(&self) -> (r: usize)
        requires
            self.start <= self.end,
        ensures
            r == self.spec_len(),
    {
        self.end - self.start
    }

    /// The sub-piece running from `start` to `start + offset`.
    pub fn before(&self, offset: usize) -> (r: Piece)
        requires
            self.start <= self.end,
            offset <= self.spec_len(),
        ensures
            r == self.spec_before(offset as int),
    {
        Piece { buffer_index: self.buffer_index, start: self.start, end: self.start + offset }
    }

    /// The sub-piece running from `start + offset` to `end`.
    pub fn after(&self, offset: usize) -> (r: Piece)
        requires
            self.start <= self.end,
            offset <= self.spec_len(),
        ensures
            r == self.spec_after(offset as int),
    {
        Piece { buffer_index: self.buffer_index, start: self.start + offset, end: self.end }
    }

    /// Absorbs `piece` into `self` when it continues `self` in the same buffer.
    /// Returns whether it did.
    pub fn merge(&mut self, piece: Piece) -> (merged: bool)
        ensures
            merged == old(self).mergeable(piece),
            merged ==> *final(self) == (Piece { end: piece.end, ..*old(self) }),
            !merged ==> *final(self) == *old(self),
    {
        if piece.buffer_index == self.buffer_index && piece.start == self.end {
            self.end = piece.end;
            true
        } else {
            false
        }
    }
}

} // verus!
