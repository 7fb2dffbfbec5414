//! The logical text of a piece sequence, the edits on a plain byte string
//! that the table's operations match, and the facts that relate the two.
use crate::piece::Piece;
use vstd::prelude::*;

verus! {

/// The bytes a piece references.
pub open spec fn piece_bytes(p: Piece, buffers: Seq<Seq<u8>>) -> Seq<u8> {
    buffers[p.buffer_index as int].subrange(p.start as int, p.end as int)
}

/// The piece lies inside an existing buffer.
pub open spec fn piece_in_bounds(p: Piece, buffers: Seq<Seq<u8>>) -> bool {
    &&& p.buffer_index < buffers.len()
    &&& p.start <= p.end
    &&& p.end <= buffers[p.buffer_index as int].len()
}

/// Every piece lies inside an existing buffer.
pub open spec fn all_in_bounds(pieces: Seq<Piece>, buffers: Seq<Seq<u8>>) -> bool {
    forall|i: int| 0 <= i < pieces.len() ==> #[trigger] piece_in_bounds(pieces[i], buffers)
}

/// No piece has length zero.
pub open spec fn no_empty_pieces(pieces: Seq<Piece>) -> bool {
    forall|i: int| 0 <= i < pieces.len() ==> (#[trigger] pieces[i]).start < pieces[i].end
}

/// No two neighbouring pieces continue each other in one buffer.
pub open spec fn no_mergeable_neighbours(pieces: Seq<Piece>) -> bool {
    forall|i: int| 0 <= i && i + 1 < pieces.len() ==> !(#[trigger] pieces[i]).mergeable(pieces[i + 1])
}

/// The logical text: the bytes of each piece, in sequence order.
pub open spec fn text_of(pieces: Seq<Piece>, buffers: Seq<Seq<u8>>) -> Seq<u8>
    decreases pieces.len(),
{
    if pieces.len() == 0 {
        Seq::empty()
    } else {
        text_of(pieces.drop_last(), buffers) + piece_bytes(pieces.last(), buffers)
    }
}

/// The length of the text of the first `k` pieces.
pub open spec fn prefix_len(pieces: Seq<Piece>, buffers: Seq<Seq<u8>>, k: int) -> int {
    text_of(pieces.subrange(0, k), buffers).len() as int
}

/// The summed length of some buffers.
pub open spec fn total_len(buffers: Seq<Seq<u8>>) -> int
    decreases buffers.len(),
{
    if buffers.len() == 0 {
        0
    } else {
        total_len(buffers.drop_last()) + buffers.last().len()
    }
}

/// All neighbouring pieces but possibly those around `k` (pieces `k - 1` and
/// `k`) are unmergeable.
pub open spec fn unmerged_except(pieces: Seq<Piece>, k: int) -> bool {
    forall|i: int|
        0 <= i && i + 1 < pieces.len() && i + 1 != k ==> !(#[trigger] pieces[i]).mergeable(
            pieces[i + 1],
        )
}

/// `p` is non-empty and begins at or after the end of every piece of its
/// buffer in `pieces`: it holds bytes appended after all of theirs.
pub open spec fn fresh_piece(pieces: Seq<Piece>, p: Piece) -> bool {
    &&& p.start < p.end
    &&& forall|i: int|
        0 <= i < pieces.len() && (#[trigger] pieces[i]).buffer_index == p.buffer_index
            ==> pieces[i].end <= p.start
}

/// `position` clamped to a text of length `len`.
pub open spec fn clamp(position: int, len: int) -> int {
    if position < len {
        position
    } else {
        len
    }
}

/// `text` with `s` inserted at `position`, or at its end when `position` lies past it.
pub open spec fn inserted(text: Seq<u8>, position: int, s: Seq<u8>) -> Seq<u8> {
    let p = clamp(position, text.len() as int);
    text.subrange(0, p) + s + text.subrange(p, text.len() as int)
}

/// `text` without the `length` bytes from `position`, as far as the text reaches.
pub open spec fn deleted(text: Seq<u8>, position: int, length: int) -> Seq<u8> {
    let p = clamp(position, text.len() as int);
    let e = clamp(p + length, text.len() as int);
    text.subrange(0, p) + text.subrange(e, text.len() as int)
}

/// The text of two piece sequences one after the other is the text of each in turn.
pub proof fn lemma_text_concat(a: Seq<Piece>, b: Seq<Piece>, buffers: Seq<Seq<u8>>)
    ensures
        text_of(a + b, buffers) == text_of(a, buffers) + text_of(b, buffers),
    decreases b.len(),
{
    if b.len() == 0 {
        assert(a + b =~= a);
        assert(text_of(a, buffers) + text_of(b, buffers) =~= text_of(a, buffers));
    } else {
        assert((a + b).drop_last() =~= a + b.drop_last());
        lemma_text_concat(a, b.drop_last(), buffers);
        assert(text_of(a + b, buffers) =~= text_of(a, buffers) + text_of(b, buffers));
    }
}

/// The text of a single piece is its bytes.
pub proof fn lemma_text_single(p: Piece, buffers: Seq<Seq<u8>>)
    ensures
        text_of(seq![p], buffers) == piece_bytes(p, buffers),
{
    assert(seq![p].drop_last() =~= Seq::<Piece>::empty());
    assert(seq![p].last() == p);
    assert(text_of(Seq::<Piece>::empty(), buffers) == Seq::<u8>::empty());
    assert(text_of(seq![p], buffers) =~= piece_bytes(p, buffers));
}

/// Cutting the sequence around piece `i`: the text is what precedes it, its
/// bytes, and what follows it.
pub proof fn lemma_text_around(pieces: Seq<Piece>, buffers: Seq<Seq<u8>>, i: int)
    requires
        0 <= i < pieces.len(),
    ensures
        text_of(pieces, buffers) == text_of(pieces.subrange(0, i), buffers) + piece_bytes(
            pieces[i],
            buffers,
        ) + text_of(pieces.subrange(i + 1, pieces.len() as int), buffers),
{
    let pre = pieces.subrange(0, i);
    let post = pieces.subrange(i + 1, pieces.len() as int);
    assert(pieces =~= pre + seq![pieces[i]] + post);
    lemma_text_concat(pre + seq![pieces[i]], post, buffers);
    lemma_text_concat(pre, seq![pieces[i]], buffers);
    lemma_text_single(pieces[i], buffers);
}

/// The text of the first `k + 1` pieces extends that of the first `k` by piece `k`.
pub proof fn lemma_prefix_step(pieces: Seq<Piece>, buffers: Seq<Seq<u8>>, k: int)
    requires
        0 <= k < pieces.len(),
    ensures
        text_of(pieces.subrange(0, k + 1), buffers) == text_of(pieces.subrange(0, k), buffers)
            + piece_bytes(pieces[k], buffers),
{
    assert(pieces.subrange(0, k + 1).drop_last() =~= pieces.subrange(0, k));
}

/// Pieces that lie inside some buffers reference the same bytes once those
/// buffers have grown by appending, or once new buffers follow them.
pub proof fn lemma_text_grown(pieces: Seq<Piece>, buffers: Seq<Seq<u8>>, grown: Seq<Seq<u8>>)
    requires
        all_in_bounds(pieces, buffers),
        buffers.len() <= grown.len(),
        forall|b: int|
            0 <= b < buffers.len() ==> buffers[b].len() <= (#[trigger] grown[b]).len()
                && buffers[b] == grown[b].subrange(0, buffers[b].len() as int),
    ensures
        text_of(pieces, grown) == text_of(pieces, buffers),
        all_in_bounds(pieces, grown),
    decreases pieces.len(),
{
    if pieces.len() > 0 {
        let p = pieces.last();
        assert(piece_in_bounds(pieces[pieces.len() - 1], buffers));
        assert(grown[p.buffer_index as int].subrange(0, buffers[p.buffer_index as int].len() as int)
            == buffers[p.buffer_index as int]);
        assert(piece_bytes(p, grown) =~= piece_bytes(p, buffers));
        assert forall|i: int| 0 <= i < pieces.drop_last().len() implies #[trigger] piece_in_bounds(
            pieces.drop_last()[i],
            buffers,
        ) by {
            assert(piece_in_bounds(pieces[i], buffers));
        }
        lemma_text_grown(pieces.drop_last(), buffers, grown);
        assert forall|i: int| 0 <= i < pieces.len() implies #[trigger] piece_in_bounds(
            pieces[i],
            grown,
        ) by {
            assert(piece_in_bounds(pieces[i], buffers));
            assert(grown[pieces[i].buffer_index as int].subrange(
                0,
                buffers[pieces[i].buffer_index as int].len() as int,
            ) == buffers[pieces[i].buffer_index as int]);
        }
    }
}

/// `(index, offset)` addresses a byte inside piece `index`, or is the end of
/// the text: `index` one past the last piece and `offset` zero.
pub open spec fn valid_location(pieces: Seq<Piece>, index: int, offset: int) -> bool {
    ||| 0 <= index < pieces.len() && 0 <= offset < pieces[index].spec_len()
    ||| index == pieces.len() && offset == 0
}

/// The piece sequence once `gap` bytes are excised from offset `offset` of
/// piece `index`. At offset zero the piece loses its front, and goes when
/// nothing is left of it. Inside the piece it keeps the part before the
/// offset, and what remains after the gap follows as a piece of its own.
pub open spec fn split_pieces(pieces: Seq<Piece>, index: int, offset: int, gap: int) -> Seq<Piece> {
    if index < 0 || index >= pieces.len() {
        pieces
    } else if offset == 0 {
        if gap < pieces[index].spec_len() {
            pieces.update(index, pieces[index].spec_after(gap))
        } else {
            pieces.remove(index)
        }
    } else if offset < pieces[index].spec_len() {
        let head = pieces.update(index, pieces[index].spec_before(offset));
        if offset + gap < pieces[index].spec_len() {
            head.insert(index + 1, pieces[index].spec_after(offset + gap))
        } else {
            head
        }
    } else {
        pieces
    }
}

/// Where new content goes once the gap is open: before the remainder of the
/// piece at offset zero, after its first part inside it.
pub open spec fn split_index(pieces: Seq<Piece>, index: int, offset: int) -> int {
    if 0 <= index < pieces.len() && offset != 0 {
        index + 1
    } else {
        index
    }
}

/// The text of three piece sequences one after the other.
pub proof fn lemma_text_three(
    pre: Seq<Piece>,
    mid: Seq<Piece>,
    post: Seq<Piece>,
    buffers: Seq<Seq<u8>>,
)
    ensures
        text_of(pre + mid + post, buffers) == text_of(pre, buffers) + text_of(mid, buffers)
            + text_of(post, buffers),
{
    lemma_text_concat(pre + mid, post, buffers);
    lemma_text_concat(pre, mid, buffers);
}

/// The text of two pieces.
pub proof fn lemma_text_pair(a: Piece, b: Piece, buffers: Seq<Seq<u8>>)
    ensures
        text_of(seq![a, b], buffers) == piece_bytes(a, buffers) + piece_bytes(b, buffers),
{
    assert(seq![a, b] =~= seq![a] + seq![b]);
    lemma_text_concat(seq![a], seq![b], buffers);
    lemma_text_single(a, buffers);
    lemma_text_single(b, buffers);
}

/// Splitting excises exactly the gap, clamped to the piece, from the text,
/// and the returned index sits where the gap was.
#[verifier::rlimit(40)]
pub proof fn lemma_split(
    pieces: Seq<Piece>,
    buffers: Seq<Seq<u8>>,
    index: int,
    offset: int,
    gap: int,
)
    requires
        all_in_bounds(pieces, buffers),
        no_empty_pieces(pieces),
        valid_location(pieces, index, offset),
        gap >= 0,
    ensures
        ({
            let s = split_pieces(pieces, index, offset, gap);
            let r = split_index(pieces, index, offset);
            let t = text_of(pieces, buffers);
            &&& all_in_bounds(s, buffers)
            &&& no_empty_pieces(s)
            &&& 0 <= r <= s.len()
            &&& index == pieces.len() ==> s == pieces && r == index
            &&& index < pieces.len() ==> {
                let pos = prefix_len(pieces, buffers, index) + offset;
                let g = if gap < pieces[index].spec_len() - offset {
                    gap
                } else {
                    pieces[index].spec_len() - offset
                };
                &&& pos + g <= t.len()
                &&& text_of(s, buffers) == t.subrange(0, pos) + t.subrange(pos + g, t.len() as int)
                &&& prefix_len(s, buffers, r) == pos
            }
        }),
{
    if index < pieces.len() {
        let p = pieces[index];
        let n = pieces.len() as int;
        let pre = pieces.subrange(0, index);
        let post = pieces.subrange(index + 1, n);
        let s = split_pieces(pieces, index, offset, gap);
        let r = split_index(pieces, index, offset);
        let t = text_of(pieces, buffers);
        let tp = text_of(pre, buffers);
        let tq = text_of(post, buffers);
        let bp = piece_bytes(p, buffers);
        assert(piece_in_bounds(p, buffers));
        lemma_text_around(pieces, buffers, index);
        assert(pieces =~= pre + seq![p] + post);
        let pos = tp.len() + offset;
        let g = if gap < p.spec_len() - offset {
            gap
        } else {
            p.spec_len() - offset
        };
        let mid = if offset == 0 {
            if gap < p.spec_len() {
                seq![p.spec_after(gap)]
            } else {
                Seq::<Piece>::empty()
            }
        } else if offset + gap < p.spec_len() {
            seq![p.spec_before(offset), p.spec_after(offset + gap)]
        } else {
            seq![p.spec_before(offset)]
        };
        assert(s =~= pre + mid + post);
        lemma_text_three(pre, mid, post, buffers);
        if offset == 0 {
            if gap < p.spec_len() {
                lemma_text_single(p.spec_after(gap), buffers);
                assert(text_of(mid, buffers) =~= bp.subrange(gap, bp.len() as int));
            } else {
                assert(text_of(mid, buffers) =~= bp.subrange(bp.len() as int, bp.len() as int));
            }
            assert(s.subrange(0, r) =~= pre);
        } else if offset + gap < p.spec_len() {
            lemma_text_pair(p.spec_before(offset), p.spec_after(offset + gap), buffers);
            assert(text_of(mid, buffers) =~= bp.subrange(0, offset) + bp.subrange(
                offset + gap,
                bp.len() as int,
            ));
            assert(s.subrange(0, r) =~= pre + seq![p.spec_before(offset)]);
            lemma_text_concat(pre, seq![p.spec_before(offset)], buffers);
            lemma_text_single(p.spec_before(offset), buffers);
        } else {
            lemma_text_single(p.spec_before(offset), buffers);
            assert(text_of(mid, buffers) =~= bp.subrange(0, offset) + bp.subrange(
                bp.len() as int,
                bp.len() as int,
            ));
            assert(s.subrange(0, r) =~= pre + seq![p.spec_before(offset)]);
            lemma_text_concat(pre, seq![p.spec_before(offset)], buffers);
        }
        assert(text_of(s, buffers) =~= t.subrange(0, pos) + t.subrange(pos + g, t.len() as int));
        assert forall|i: int| 0 <= i < s.len() implies #[trigger] piece_in_bounds(s[i], buffers)
            && s[i].start < s[i].end by {
            if i < index {
                assert(s[i] == pieces[i]);
            } else if i >= index + mid.len() {
                assert(s[i] == pieces[i - mid.len() + 1]);
            } else {
                assert(s[i] == mid[i - index]);
            }
        }
    }
}

/// The text is that of the first `k` pieces followed by that of the rest.
pub proof fn lemma_text_split_at(pieces: Seq<Piece>, buffers: Seq<Seq<u8>>, k: int)
    requires
        0 <= k <= pieces.len(),
    ensures
        text_of(pieces, buffers) == text_of(pieces.subrange(0, k), buffers) + text_of(
            pieces.subrange(k, pieces.len() as int),
            buffers,
        ),
        prefix_len(pieces, buffers, k) <= text_of(pieces, buffers).len(),
{
    assert(pieces =~= pieces.subrange(0, k) + pieces.subrange(k, pieces.len() as int));
    lemma_text_concat(pieces.subrange(0, k), pieces.subrange(k, pieces.len() as int), buffers);
}

/// Placing `p` at index `k` puts its bytes between the text before and after `k`.
pub proof fn lemma_text_insert(pieces: Seq<Piece>, buffers: Seq<Seq<u8>>, k: int, p: Piece)
    requires
        0 <= k <= pieces.len(),
    ensures
        text_of(pieces.insert(k, p), buffers) == text_of(pieces.subrange(0, k), buffers)
            + piece_bytes(p, buffers) + text_of(pieces.subrange(k, pieces.len() as int), buffers),
{
    let pre = pieces.subrange(0, k);
    let post = pieces.subrange(k, pieces.len() as int);
    assert(pieces.insert(k, p) =~= pre + seq![p] + post);
    lemma_text_three(pre, seq![p], post, buffers);
    lemma_text_single(p, buffers);
}

/// Extending piece `k - 1` over a piece `p` that continues it puts the bytes of
/// `p` between the text before and after `k`.
pub proof fn lemma_text_merge(pieces: Seq<Piece>, buffers: Seq<Seq<u8>>, k: int, p: Piece)
    requires
        0 < k <= pieces.len(),
        piece_in_bounds(pieces[k - 1], buffers),
        piece_in_bounds(p, buffers),
        pieces[k - 1].mergeable(p),
    ensures
        text_of(pieces.update(k - 1, Piece { end: p.end, ..pieces[k - 1] }), buffers)
            == text_of(pieces.subrange(0, k), buffers) + piece_bytes(p, buffers) + text_of(
            pieces.subrange(k, pieces.len() as int),
            buffers,
        ),
{
    let q = pieces[k - 1];
    let m = Piece { end: p.end, ..q };
    let pre = pieces.subrange(0, k - 1);
    let post = pieces.subrange(k, pieces.len() as int);
    assert(pieces.update(k - 1, m) =~= pre + seq![m] + post);
    lemma_text_three(pre, seq![m], post, buffers);
    lemma_text_single(m, buffers);
    assert(pieces.subrange(0, k) =~= pre + seq![q]);
    lemma_text_concat(pre, seq![q], buffers);
    lemma_text_single(q, buffers);
    assert(piece_bytes(m, buffers) =~= piece_bytes(q, buffers) + piece_bytes(p, buffers));
}

/// Splitting with no gap leaves the neighbours unmergeable everywhere but at
/// the returned index.
pub proof fn lemma_split_unmerged(pieces: Seq<Piece>, index: int, offset: int)
    requires
        no_mergeable_neighbours(pieces),
        no_empty_pieces(pieces),
        valid_location(pieces, index, offset),
    ensures
        unmerged_except(
            split_pieces(pieces, index, offset, 0),
            split_index(pieces, index, offset),
        ),
{
    let s = split_pieces(pieces, index, offset, 0);
    if index < pieces.len() {
        let p = pieces[index];
        if offset == 0 {
            assert(p.spec_after(0) == p);
            assert(s =~= pieces);
        } else {
            assert forall|i: int| 0 <= i && i + 1 < s.len() && i + 1 != index + 1 implies !(
            #[trigger] s[i]).mergeable(s[i + 1]) by {
                if i + 1 < index {
                    assert(s[i] == pieces[i] && s[i + 1] == pieces[i + 1]);
                } else if i + 1 == index {
                    assert(s[i] == pieces[i]);
                    assert(!pieces[i].mergeable(pieces[i + 1]));
                } else if i == index + 1 {
                    assert(s[i + 1] == pieces[index + 1]);
                    assert(!pieces[index].mergeable(pieces[index + 1]));
                } else {
                    assert(s[i] == pieces[i - 1] && s[i + 1] == pieces[i]);
                    assert(!pieces[i - 1].mergeable(pieces[i]));
                }
            }
        }
    }
}

/// A fresh piece placed at `k`, where only the neighbours around `k` may have
/// been mergeable, leaves no mergeable neighbours, if it does not continue
/// the piece before it.
pub proof fn lemma_insert_fresh_unmerged(pieces: Seq<Piece>, k: int, p: Piece)
    requires
        0 <= k <= pieces.len(),
        unmerged_except(pieces, k),
        no_empty_pieces(pieces),
        fresh_piece(pieces, p),
        k > 0 ==> !pieces[k - 1].mergeable(p),
    ensures
        no_mergeable_neighbours(pieces.insert(k, p)),
{
    let s = pieces.insert(k, p);
    assert forall|i: int| 0 <= i && i + 1 < s.len() implies !(#[trigger] s[i]).mergeable(
        s[i + 1],
    ) by {
        if i + 1 < k {
            assert(s[i] == pieces[i] && s[i + 1] == pieces[i + 1]);
        } else if i + 1 == k {
            assert(s[i] == pieces[k - 1] && s[i + 1] == p);
        } else if i == k {
            assert(s[i] == p && s[i + 1] == pieces[k]);
            assert(pieces[k].start < pieces[k].end);
        } else {
            assert(s[i] == pieces[i - 1] && s[i + 1] == pieces[i]);
        }
    }
}

/// Extending piece `k - 1` over a fresh piece that continues it, where only the
/// neighbours around `k` may have been mergeable, leaves no mergeable
/// neighbours.
pub proof fn lemma_merge_fresh_unmerged(pieces: Seq<Piece>, k: int, p: Piece)
    requires
        0 < k <= pieces.len(),
        unmerged_except(pieces, k),
        no_empty_pieces(pieces),
        fresh_piece(pieces, p),
        pieces[k - 1].mergeable(p),
    ensures
        no_mergeable_neighbours(pieces.update(k - 1, Piece { end: p.end, ..pieces[k - 1] })),
{
    let m = Piece { end: p.end, ..pieces[k - 1] };
    let s = pieces.update(k - 1, m);
    assert forall|i: int| 0 <= i && i + 1 < s.len() implies !(#[trigger] s[i]).mergeable(
        s[i + 1],
    ) by {
        if i + 1 < k - 1 {
            assert(s[i] == pieces[i] && s[i + 1] == pieces[i + 1]);
        } else if i + 1 == k - 1 {
            assert(s[i] == pieces[i] && s[i + 1] == m);
            assert(!pieces[i].mergeable(pieces[i + 1]));
        } else if i == k - 1 {
            assert(s[i + 1] == pieces[k]);
            assert(pieces[k].start < pieces[k].end);
        } else {
            assert(s[i] == pieces[i] && s[i + 1] == pieces[i + 1]);
        }
    }
}

/// Splitting keeps a piece fresh: every piece it leaves ends no later than
/// the piece it came from.
pub proof fn lemma_split_fresh(pieces: Seq<Piece>, index: int, offset: int, gap: int, p: Piece)
    requires
        fresh_piece(pieces, p),
        valid_location(pieces, index, offset),
        gap >= 0,
    ensures
        fresh_piece(split_pieces(pieces, index, offset, gap), p),
{
    let s = split_pieces(pieces, index, offset, gap);
    if 0 <= index < pieces.len() {
        let q = pieces[index];
        assert forall|i: int|
            0 <= i < s.len() && (#[trigger] s[i]).buffer_index == p.buffer_index implies s[i].end
            <= p.start by {
            if i < index {
                assert(s[i] == pieces[i]);
            } else if offset == 0 {
                if gap < q.spec_len() {
                    if i > index {
                        assert(s[i] == pieces[i]);
                    }
                } else {
                    assert(s[i] == pieces[i + 1]);
                }
            } else if offset + gap < q.spec_len() {
                if i > index + 1 {
                    assert(s[i] == pieces[i - 1]);
                }
            } else if i > index {
                assert(s[i] == pieces[i]);
            }
        }
    }
}

} // verus!
