//! Laws that relate the table's operations to each other and to edits of a
//! plain byte string.
use crate::table::PieceTable;
use crate::text::{deleted, inserted};
use vstd::prelude::*;
use vstd::utf8::{encode_utf8_decode_utf8, encode_utf8};

verus! {

/// Materializing the text twice with no edit in between gives the same
/// string: what `to_string` returns is fixed by the table's text.
pub proof fn lemma_materialize_twice(t: &PieceTable, first: String, second: String)
    requires
        encode_utf8(first@) == t@,
        encode_utf8(second@) == t@,
    ensures
        first@ == second@,
{
    encode_utf8_decode_utf8(first@);
    encode_utf8_decode_utf8(second@);
}

/// Inserting at a position past the end of the text is inserting at its end.
pub proof fn lemma_insert_past_end(text: Seq<u8>, position: int, s: Seq<u8>)
    requires
        position >= text.len(),
    ensures
        inserted(text, position, s) == inserted(text, text.len() as int, s),
{
}

/// Deleting from a position at or past the end of the text changes nothing.
pub proof fn lemma_delete_past_end(text: Seq<u8>, position: int, length: int)
    requires
        position >= text.len(),
        length >= 0,
    ensures
        deleted(text, position, length) == text,
{
    assert(text.subrange(0, text.len() as int) =~= text);
    assert(deleted(text, position, length) =~= text);
}

/// A deletion that reaches past the end of the text deletes exactly the
/// bytes from `position` to the end.
pub proof fn lemma_delete_to_end(text: Seq<u8>, position: int, length: int)
    requires
        0 <= position <= text.len(),
        position + length >= text.len(),
    ensures
        deleted(text, position, length) == deleted(text, position, text.len() - position),
        deleted(text, position, length) == text.subrange(0, position),
{
    assert(deleted(text, position, length) =~= text.subrange(0, position));
}

} // verus!
