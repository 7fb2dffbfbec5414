//! The piece table: a buffer store, a piece sequence over it, and the
//! operations that edit and materialize the text they describe.
use crate::buffer::Buffer;
use crate::piece::Piece;
use crate::text::{
    all_in_bounds, clamp, deleted, fresh_piece, inserted, lemma_insert_fresh_unmerged,
    lemma_merge_fresh_unmerged, lemma_prefix_step, lemma_split, lemma_split_fresh,
    lemma_split_unmerged, lemma_text_grown, lemma_text_insert, lemma_text_merge, lemma_text_single,
    lemma_text_split_at, no_empty_pieces, no_mergeable_neighbours, piece_bytes, piece_in_bounds,
    prefix_len, split_index, split_pieces, text_of, total_len, unmerged_except, valid_location,
};
use vstd::utf8::{decode_utf8, encode_utf8, valid_utf8};
use vstd::prelude::*;

verus! {

/// A point in the piece table: the index of a piece and a byte offset from
/// the beginning of that piece.
#[derive(Clone, Copy, Debug)]
pub struct Location {
    pub piece_index: usize,
    pub offset: usize,
}

impl Location {
    pub fn new(index: usize, offset: usize) -> (r: Location)
        ensures
            r.piece_index == index,
            r.offset == offset,
    {
        Location { piece_index: index, offset }
    }
}

/// An editable text kept as a sequence of pieces over append-only buffers.
pub struct PieceTable {
    buffers: Vec<Buffer>,
    pieces: Vec<Piece>,
}

impl View for PieceTable {
    type V = Seq<u8>;

    /// The logical text, the bytes of every piece in sequence order.
    open spec fn view(&self) -> Seq<u8> {
        text_of(self.pieces_view(), self.buffers_view())
    }
}

impl PieceTable {
    /// The piece sequence.
    pub closed spec fn pieces_view(&self) -> Seq<Piece> {
        self.pieces@
    }

    /// The contents of the buffer store, by buffer index.
    pub closed spec fn buffers_view(&self) -> Seq<Seq<u8>> {
        self.buffers@.map_values(|b: Buffer| b@)
    }

    /// No buffer holds more than it was sized for.
    pub closed spec fn buffers_within_capacity(&self) -> bool {
        forall|b: int| 0 <= b < self.buffers@.len() ==> (#[trigger] self.buffers@[b]).wf()
    }

    /// The table's invariant: pieces lie inside their buffers and none is
    /// empty, and the text's length fits in a `usize`.
    pub open spec fn wf(&self) -> bool {
        &&& all_in_bounds(self.pieces_view(), self.buffers_view())
        &&& no_empty_pieces(self.pieces_view())
        &&& self@.len() <= usize::MAX
        &&& self.buffers_within_capacity()
    }

    /// An empty table: no buffers, no pieces.
    pub fn new() -> (t: PieceTable)
        ensures
            t.wf(),
            t@ == Seq::<u8>::empty(),
            t.pieces_view().len() == 0,
            t.buffers_view().len() == 0,
            no_mergeable_neighbours(t.pieces_view()),
    {
        let t = PieceTable { buffers: Vec::new(), pieces: Vec::new() };
        assert(t.buffers_view() =~= Seq::<Seq<u8>>::empty());
        t
    }

    /// A table holding `s`: one buffer with its bytes, and one piece over all
    /// of them (none when `s` is empty).
    pub fn from_string(s: String) -> (t: PieceTable)
        ensures
            t.wf(),
            t@ == encode_utf8(s@),
            t.buffers_view() == seq![encode_utf8(s@)],
            t.pieces_view().len() == if s@.len() == 0 {
                0int
            } else {
                1int
            },
            no_mergeable_neighbours(t.pieces_view()),
    {
        let bytes = s.as_str().as_bytes();
        let buffer = Buffer::from_slice(bytes);
        let mut pieces: Vec<Piece> = Vec::new();
        if bytes.len() > 0 {
            pieces.push(Piece { buffer_index: 0, start: 0, end: bytes.len() });
        }
        let buffers = vec![buffer];
        let t = PieceTable { buffers, pieces };
        proof {
            assert(t.buffers_view() =~= seq![encode_utf8(s@)]);
            if bytes@.len() > 0 {
                lemma_text_single(t.pieces@[0], t.buffers_view());
                assert(t.pieces@ =~= seq![t.pieces@[0]]);
                assert(t@ =~= encode_utf8(s@));
            } else {
                assert(encode_utf8(s@) =~= Seq::<u8>::empty());
            }
            assert(t.buffers@[0].wf());
        }
        t
    }

    /// Adds an empty buffer sized for at least `min_capacity` bytes and at
    /// least as many as all the other buffers hold together (that sum
    /// saturates at `usize::MAX`).
    fn add_buffer(&mut self, min_capacity: usize)
        requires
            old(self).wf(),
        ensures
            final(self).wf(),
            final(self)@ == old(self)@,
            final(self).pieces == old(self).pieces,
            final(self).buffers@.len() == old(self).buffers@.len() + 1,
            final(self).buffers_view() == old(self).buffers_view().push(Seq::<u8>::empty()),
            final(self).buffers@.last().spec_capacity() == if min_capacity >= clamp(
                total_len(old(self).buffers_view()),
                usize::MAX as int,
            ) {
                min_capacity as int
            } else {
                clamp(total_len(old(self).buffers_view()), usize::MAX as int)
            },
    {
        let ghost bufs = self.buffers_view();
        let mut sum: usize = 0;
        let mut i: usize = 0;
        while i < self.buffers.len()
            invariant
                i <= self.buffers@.len(),
                bufs == self.buffers_view(),
                sum == clamp(total_len(bufs.subrange(0, i as int)), usize::MAX as int),
            decreases self.buffers@.len() - i,
        {
            let len = self.buffers[i].len();
            assert(bufs.subrange(0, i + 1).drop_last() =~= bufs.subrange(0, i as int));
            if sum <= usize::MAX - len {
                sum = sum + len;
            } else {
                sum = usize::MAX;
            }
            i = i + 1;
        }
        assert(bufs.subrange(0, i as int) =~= bufs);
        let capacity = if min_capacity >= sum {
            min_capacity
        } else {
            sum
        };
        self.buffers.push(Buffer::with_capacity(capacity));
        proof {
            assert(self.buffers_view() =~= bufs.push(Seq::<u8>::empty()));
            assert forall|b: int| 0 <= b < bufs.len() implies bufs[b].len() <= (
            #[trigger] self.buffers_view()[b]).len() && bufs[b] == self.buffers_view()[b].subrange(
                0,
                bufs[b].len() as int,
            ) by {
                assert(bufs[b] =~= self.buffers_view()[b].subrange(0, bufs[b].len() as int));
            }
            lemma_text_grown(self.pieces@, bufs, self.buffers_view());
            assert(self.buffers@[self.buffers@.len() - 1].wf());
        }
    }

    /// Returns the index of a buffer with room for `capacity` more bytes: the
    /// last buffer when its room exceeds `capacity`, else a new one.
    fn buffer_with_capacity(&mut self, capacity: usize) -> (r: usize)
        requires
            old(self).wf(),
        ensures
            final(self).wf(),
            final(self)@ == old(self)@,
            final(self).pieces == old(self).pieces,
            r + 1 == final(self).buffers@.len(),
            final(self).buffers@[r as int]@.len() + capacity <= final(self).buffers@[
                r as int
            ].spec_capacity(),
            ({
                let old_bufs = old(self).buffers@;
                let reuse = old_bufs.len() > 0 && old_bufs.last().spec_capacity()
                    - old_bufs.last()@.len() > capacity;
                &&& reuse ==> final(self).buffers == old(self).buffers
                &&& !reuse ==> final(self).buffers_view() == old(self).buffers_view().push(
                    Seq::<u8>::empty(),
                )
            }),
    {
        let n = self.buffers.len();
        let reuse = if n > 0 {
            assert(self.buffers@[n - 1].wf());
            self.buffers[n - 1].capacity() - self.buffers[n - 1].len() > capacity
        } else {
            false
        };
        if !reuse {
            self.add_buffer(capacity);
            assert(self.buffers_view()[self.buffers@.len() - 1] == Seq::<u8>::empty());
        }
        self.buffers.len() - 1
    }

    /// Finds the piece that holds the byte at `position` and the offset of
    /// that byte inside it. A position at the boundary between two pieces
    /// gives the start of the second; one at or past the end of the text gives
    /// the end marker, one past the last piece at offset zero.
    fn locate(&self, position: usize) -> (loc: Location)
        requires
            self.wf(),
        ensures
            valid_location(self.pieces_view(), loc.piece_index as int, loc.offset as int),
            position < self@.len() ==> loc.piece_index < self.pieces_view().len() && prefix_len(
                self.pieces_view(),
                self.buffers_view(),
                loc.piece_index as int,
            ) + loc.offset == position,
            position >= self@.len() ==> loc.piece_index == self.pieces_view().len()
                && loc.offset == 0,
    {
        let ghost ps = self.pieces_view();
        let ghost bs = self.buffers_view();
        let mut offset: usize = 0;
        let mut index: usize = 0;
        while index < self.pieces.len()
            invariant
                index <= ps.len(),
                ps == self.pieces_view(),
                bs == self.buffers_view(),
                self.wf(),
                offset == prefix_len(ps, bs, index as int),
                offset < position || index == 0 && offset == 0,
            decreases ps.len() - index,
        {
            let piece = self.pieces[index];
            proof {
                lemma_prefix_step(ps, bs, index as int);
                lemma_text_split_at(ps, bs, index + 1);
                assert(piece_in_bounds(ps[index as int], bs));
            }
            offset = offset + piece.len();
            if position < offset {
                return Location::new(index, piece.len() - (offset - position));
            }
            if position == offset {
                proof {
                    if index + 1 < ps.len() {
                        assert(ps[index + 1].start < ps[index + 1].end);
                        assert(piece_in_bounds(ps[index + 1], bs));
                        lemma_prefix_step(ps, bs, index + 1);
                        lemma_text_split_at(ps, bs, index + 2);
                    } else {
                        assert(ps.subrange(0, index + 1) =~= ps);
                    }
                }
                return Location::new(index + 1, 0);
            }
            index = index + 1;
        }
        assert(ps.subrange(0, index as int) =~= ps);
        Location::new(self.pieces.len(), 0)
    }

    /// Excises `gap` bytes from the text at `loc`, splitting the piece there
    /// as `split_pieces` describes, and returns the index at which new content
    /// goes into the gap.
    fn split(&mut self, loc: Location, gap: usize) -> (r: usize)
        requires
            old(self).wf(),
            valid_location(old(self).pieces_view(), loc.piece_index as int, loc.offset as int),
        ensures
            final(self).wf(),
            final(self).buffers == old(self).buffers,
            final(self).pieces_view() == split_pieces(
                old(self).pieces_view(),
                loc.piece_index as int,
                loc.offset as int,
                gap as int,
            ),
            r == split_index(old(self).pieces_view(), loc.piece_index as int, loc.offset as int),
    {
        proof {
            lemma_split(
                self.pieces_view(),
                self.buffers_view(),
                loc.piece_index as int,
                loc.offset as int,
                gap as int,
            );
        }
        if loc.piece_index < self.pieces.len() {
            let piece = self.pieces[loc.piece_index];
            assert(piece_in_bounds(self.pieces@[loc.piece_index as int], self.buffers_view()));
            if loc.offset == 0 {
                if gap < piece.len() {
                    self.pieces.set(loc.piece_index, piece.after(gap));
                } else {
                    self.pieces.remove(loc.piece_index);
                }
                return loc.piece_index;
            }
            if loc.offset < piece.len() {
                self.pieces.set(loc.piece_index, piece.before(loc.offset));
                if gap < piece.len() - loc.offset {
                    self.pieces.insert(loc.piece_index + 1, piece.after(loc.offset + gap));
                }
            }
            return loc.piece_index + 1;
        }
        loc.piece_index
    }

    /// Appends `bytes` to a buffer with room for them and returns the piece
    /// over them. The text and the piece sequence stay as they are.
    fn append_text(&mut self, bytes: &[u8]) -> (piece: Piece)
        requires
            old(self).wf(),
            bytes@.len() > 0,
        ensures
            final(self).wf(),
            final(self)@ == old(self)@,
            final(self).pieces == old(self).pieces,
            piece_in_bounds(piece, final(self).buffers_view()),
            piece_bytes(piece, final(self).buffers_view()) == bytes@,
            fresh_piece(old(self).pieces_view(), piece),
    {
        let ghost ps_old = self.pieces_view();
        let buffer_index = self.buffer_with_capacity(bytes.len());
        let ghost b1 = self.buffers_view();
        let mut buffer = self.buffers.pop().unwrap();
        let start = buffer.len();
        buffer.append(bytes);
        let end = buffer.len();
        self.buffers.push(buffer);
        let piece = Piece { buffer_index, start, end };
        proof {
            let b2 = self.buffers_view();
            assert(b2 =~= b1.update(buffer_index as int, b1[buffer_index as int] + bytes@));
            assert forall|b: int| 0 <= b < b1.len() implies b1[b].len() <= (#[trigger] b2[b]).len()
                && b1[b] == b2[b].subrange(0, b1[b].len() as int) by {
                assert(b1[b] =~= b2[b].subrange(0, b1[b].len() as int));
            }
            lemma_text_grown(ps_old, b1, b2);
            assert(self.buffers@[buffer_index as int].wf());
            assert(self.buffers_within_capacity());
            assert(piece_bytes(piece, b2) =~= bytes@);
            assert forall|i: int|
                0 <= i < ps_old.len() && (#[trigger] ps_old[i]).buffer_index
                    == piece.buffer_index implies ps_old[i].end <= piece.start by {
                assert(piece_in_bounds(ps_old[i], b1));
            }
        }
        piece
    }

    /// Puts `piece` into the sequence at `index`: the piece before `index`
    /// absorbs it when it continues that piece, otherwise it is inserted.
    fn place_piece(&mut self, index: usize, piece: Piece)
        requires
            old(self).wf(),
            index <= old(self).pieces_view().len(),
            piece_in_bounds(piece, old(self).buffers_view()),
            fresh_piece(old(self).pieces_view(), piece),
            old(self)@.len() + piece.spec_len() <= usize::MAX,
        ensures
            final(self).wf(),
            final(self).buffers == old(self).buffers,
            final(self)@ == text_of(
                old(self).pieces_view().subrange(0, index as int),
                old(self).buffers_view(),
            ) + piece_bytes(piece, old(self).buffers_view()) + text_of(
                old(self).pieces_view().subrange(
                    index as int,
                    old(self).pieces_view().len() as int,
                ),
                old(self).buffers_view(),
            ),
            unmerged_except(old(self).pieces_view(), index as int) ==> no_mergeable_neighbours(
                final(self).pieces_view(),
            ),
    {
        let ghost ps_split = self.pieces_view();
        let ghost b2 = self.buffers_view();
        proof {
            lemma_text_split_at(ps_split, b2, index as int);
        }
        let merged = if index == 0 {
            false
        } else {
            let mut left = self.pieces[index - 1];
            if left.merge(piece) {
                self.pieces.set(index - 1, left);
                true
            } else {
                false
            }
        };
        if !merged {
            self.pieces.insert(index, piece);
            proof {
                lemma_text_insert(ps_split, b2, index as int, piece);
                if unmerged_except(ps_split, index as int) {
                    lemma_insert_fresh_unmerged(ps_split, index as int, piece);
                }
            }
        } else {
            proof {
                assert(piece_in_bounds(ps_split[index - 1], b2));
                lemma_text_merge(ps_split, b2, index as int, piece);
                if unmerged_except(ps_split, index as int) {
                    lemma_merge_fresh_unmerged(ps_split, index as int, piece);
                }
            }
        }
        proof {
            let ps = self.pieces_view();
            assert forall|i: int| 0 <= i < ps.len() implies #[trigger] piece_in_bounds(ps[i], b2)
                && ps[i].start < ps[i].end by {
                if !merged {
                    if i < index {
                        assert(ps[i] == ps_split[i]);
                    } else if i > index {
                        assert(ps[i] == ps_split[i - 1]);
                    }
                } else if i != index - 1 {
                    assert(ps[i] == ps_split[i]);
                } else {
                    assert(piece_in_bounds(ps_split[i], b2));
                }
            }
        }
    }

    /// Inserts the bytes of `s` at byte `position` of the text, or at its end
    /// when `position` lies past it. The bytes are appended to a buffer and a
    /// piece over them enters the sequence, unless the piece before the
    /// insertion point already ends where they begin and is extended instead.
    /// An empty `s` changes nothing.
    pub fn insert(&mut self, position: usize, s: &str)
        requires
            old(self).wf(),
            old(self)@.len() + encode_utf8(s@).len() <= usize::MAX,
        ensures
            final(self).wf(),
            final(self)@ == inserted(old(self)@, position as int, encode_utf8(s@)),
            no_empty_pieces(final(self).pieces_view()),
            no_mergeable_neighbours(old(self).pieces_view()) ==> no_mergeable_neighbours(
                final(self).pieces_view(),
            ),
    {
        let bytes = s.as_bytes();
        let ghost t0 = self@;
        if bytes.len() == 0 {
            assert(inserted(t0, position as int, bytes@) =~= t0);
            return ;
        }
        let ghost ps_old = self.pieces_view();
        let piece = self.append_text(bytes);
        let loc = self.locate(position);
        let index = self.split(loc, 0);
        let ghost ps_split = self.pieces_view();
        let ghost b2 = self.buffers_view();
        let ghost pos = clamp(position as int, t0.len() as int);
        proof {
            lemma_split(ps_old, b2, loc.piece_index as int, loc.offset as int, 0);
            lemma_split_fresh(ps_old, loc.piece_index as int, loc.offset as int, 0, piece);
            lemma_text_split_at(ps_split, b2, index as int);
            assert(self@ =~= t0);
            assert(text_of(ps_split.subrange(0, index as int), b2) =~= t0.subrange(0, pos));
            assert(text_of(ps_split.subrange(index as int, ps_split.len() as int), b2) =~= t0.subrange(
                pos,
                t0.len() as int,
            ));
            if no_mergeable_neighbours(ps_old) {
                lemma_split_unmerged(ps_old, loc.piece_index as int, loc.offset as int);
            }
        }
        self.place_piece(index, piece);
        assert(self@ =~= inserted(t0, position as int, bytes@));
    }

    /// Deletes `length` bytes from byte `position` of the text, as far as the
    /// text reaches; nothing when `position` lies at or past its end. Pieces
    /// that the deletion empties leave the sequence.
    pub fn delete(&mut self, position: usize, length: usize)
        requires
            old(self).wf(),
        ensures
            final(self).wf(),
            final(self)@ == deleted(old(self)@, position as int, length as int),
            no_empty_pieces(final(self).pieces_view()),
    {
        let ghost t0 = self@;
        let ghost n0 = t0.len() as int;
        let ghost p = clamp(position as int, n0);
        let mut len = length;
        let mut pos = self.locate(position);
        proof {
            if position >= n0 {
                assert(self.pieces_view().subrange(0, self.pieces_view().len() as int)
                    =~= self.pieces_view());
            }
            assert(t0 =~= t0.subrange(0, p) + t0.subrange(p, n0));
        }
        if pos.offset > 0 {
            let piece = self.pieces[pos.piece_index];
            assert(piece_in_bounds(self.pieces@[pos.piece_index as int], self.buffers_view()));
            let rest = piece.len() - pos.offset;
            let gap = if len < rest {
                len
            } else {
                rest
            };
            proof {
                lemma_split(
                    self.pieces_view(),
                    self.buffers_view(),
                    pos.piece_index as int,
                    pos.offset as int,
                    gap as int,
                );
            }
            self.split(pos, gap);
            len = len - gap;
            pos.piece_index = pos.piece_index + 1;
            pos.offset = 0;
        }
        while len > 0 && pos.piece_index < self.pieces.len()
            invariant
                self.wf(),
                n0 == t0.len(),
                0 <= p <= n0,
                pos.offset == 0,
                pos.piece_index <= self.pieces_view().len(),
                prefix_len(self.pieces_view(), self.buffers_view(), pos.piece_index as int) == p,
                len <= length,
                p + (length - len) <= n0,
                self@ == t0.subrange(0, p) + t0.subrange(p + (length - len), n0),
            decreases len,
        {
            let piece = self.pieces[pos.piece_index];
            assert(piece_in_bounds(self.pieces@[pos.piece_index as int], self.buffers_view()));
            assert(self.pieces@[pos.piece_index as int].start < self.pieces@[
                pos.piece_index as int
            ].end);
            let plen = piece.len();
            let gap = if len < plen {
                len
            } else {
                plen
            };
            let ghost t1 = self@;
            let ghost d = length - len;
            proof {
                lemma_split(
                    self.pieces_view(),
                    self.buffers_view(),
                    pos.piece_index as int,
                    0,
                    gap as int,
                );
            }
            self.split(pos, gap);
            len = len - gap;
            proof {
                assert(t1.len() == n0 - d);
                assert(p + gap <= t1.len());
                assert(t1.subrange(0, p) =~= t0.subrange(0, p));
                assert(t1.subrange(p + gap, t1.len() as int) =~= t0.subrange(p + d + gap, n0));
                assert(self@ =~= t0.subrange(0, p) + t0.subrange(p + (length - len), n0));
            }
        }
        proof {
            if len > 0 {
                lemma_text_split_at(
                    self.pieces_view(),
                    self.buffers_view(),
                    pos.piece_index as int,
                );
                assert(self.pieces_view().subrange(0, pos.piece_index as int)
                    =~= self.pieces_view());
            }
            assert(self@ =~= deleted(t0, position as int, length as int));
        }
    }

    /// Appends the bytes `piece` references to `out`.
    fn piece_text(&self, piece: Piece, out: &mut Vec<u8>)
        requires
            piece_in_bounds(piece, self.buffers_view()),
        ensures
            final(out)@ == old(out)@ + piece_bytes(piece, self.buffers_view()),
    {
        self.buffers[piece.buffer_index].copy_range(piece.start, piece.end, out);
    }

    /// The text as bytes: the bytes of every piece, in sequence order.
    pub fn to_bytes(&self) -> (r: Vec<u8>)
        requires
            self.wf(),
        ensures
            r@ == self@,
    {
        let ghost ps = self.pieces_view();
        let ghost bs = self.buffers_view();
        let mut out: Vec<u8> = Vec::new();
        let mut i: usize = 0;
        while i < self.pieces.len()
            invariant
                i <= ps.len(),
                ps == self.pieces_view(),
                bs == self.buffers_view(),
                self.wf(),
                out@ == text_of(ps.subrange(0, i as int), bs),
            decreases ps.len() - i,
        {
            proof {
                lemma_prefix_step(ps, bs, i as int);
            }
            assert(piece_in_bounds(ps[i as int], bs));
            self.piece_text(self.pieces[i], &mut out);
            i = i + 1;
        }
        assert(ps.subrange(0, i as int) =~= ps);
        out
    }

    /// The text as a `String`; the text must be valid UTF-8.
    pub fn to_string(&self) -> (r: String)
        requires
            self.wf(),
            valid_utf8(self@),
        ensures
            encode_utf8(r@) == self@,
            r@ == decode_utf8(self@),
    {
        let bytes = self.to_bytes();
        match string_from_utf8(bytes) {
            Some(text) => {
                proof {
                    vstd::utf8::encode_utf8_decode_utf8(text@);
                }
                text
            },
            None => {
                assert(false);
                String::new()
            },
        }
    }

    /// The number of pieces in the sequence.
    pub fn piece_count(&self) -> (r: usize)
        ensures
            r == self.pieces_view().len(),
    {
        self.pieces.len()
    }

    /// The number of buffers in the store.
    pub fn buffer_count(&self) -> (r: usize)
        ensures
            r == self.buffers_view().len(),
    {
        self.buffers.len()
    }
}

/// Relies on `String::from_utf8`: it succeeds exactly when the bytes are
/// valid UTF-8, and the string then consists of those bytes.
#[verifier::external_body]
fn string_from_utf8(bytes: Vec<u8>) -> (r: Option<String>)
    ensures
        r is Some <==> valid_utf8(bytes@),
        r matches Some(text) ==> encode_utf8(text@) == bytes@,
{
    String::from_utf8(bytes).ok()
}

} // verus!
