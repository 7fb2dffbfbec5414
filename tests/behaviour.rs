use piece_table::PieceTable;

/// Applies the same edits to a table and to a plain `String`.
fn insert_both(table: &mut PieceTable, model: &mut String, position: usize, text: &str) {
    table.insert(position, text);
    let p = position.min(model.len());
    model.insert_str(p, text);
}

fn delete_both(table: &mut PieceTable, model: &mut String, position: usize, length: usize) {
    table.delete(position, length);
    let p = position.min(model.len());
    let e = p.saturating_add(length).min(model.len());
    model.replace_range(p..e, "");
}

#[test]
fn edits_match_a_plain_string() {
    let mut table = PieceTable::new();
    let mut model = String::new();
    insert_both(&mut table, &mut model, 0, "the quick fox");
    assert_eq!(table.to_string(), model);
    insert_both(&mut table, &mut model, 4, "very ");
    assert_eq!(table.to_string(), model);
    delete_both(&mut table, &mut model, 2, 6);
    assert_eq!(table.to_string(), model);
    insert_both(&mut table, &mut model, 100, " jumps");
    assert_eq!(table.to_string(), model);
    delete_both(&mut table, &mut model, 0, 1);
    assert_eq!(table.to_string(), model);
    insert_both(&mut table, &mut model, 3, "ABC");
    insert_both(&mut table, &mut model, 6, "DEF");
    assert_eq!(table.to_string(), model);
    delete_both(&mut table, &mut model, 5, usize::MAX);
    assert_eq!(table.to_string(), model);
    delete_both(&mut table, &mut model, usize::MAX, usize::MAX);
    assert_eq!(table.to_string(), model);
    assert_eq!(table.to_string(), "h qAB");
}

#[test]
fn sequential_typing_extends_one_piece() {
    let mut table = PieceTable::from_string("0123456789".to_owned());
    table.insert(10, "a");
    table.insert(11, "b");
    table.insert(12, "c");
    table.insert(13, "d");
    assert_eq!(table.to_string(), "0123456789abcd");
    assert_eq!(table.piece_count(), 2);
    assert_eq!(table.buffer_count(), 2);
}

#[test]
fn inserting_into_a_piece_splits_it_in_three() {
    let mut table = PieceTable::from_string("abcdef".to_owned());
    table.insert(3, "XY");
    assert_eq!(table.to_string(), "abcXYdef");
    assert_eq!(table.piece_count(), 3);
    assert_eq!(table.buffer_count(), 2);
}

#[test]
fn materializing_twice_gives_the_same_text() {
    let mut table = PieceTable::from_string("Hello World".to_owned());
    table.insert(5, ",");
    let pieces = table.piece_count();
    let buffers = table.buffer_count();
    let first = table.to_string();
    let second = table.to_string();
    assert_eq!(first, second);
    assert_eq!(table.piece_count(), pieces);
    assert_eq!(table.buffer_count(), buffers);
}

#[test]
fn inserting_far_past_the_end_is_inserting_at_the_end() {
    let mut far = PieceTable::from_string("Hello".to_owned());
    let mut at_end = PieceTable::from_string("Hello".to_owned());
    far.insert(usize::MAX, "!");
    at_end.insert(5, "!");
    assert_eq!(far.to_string(), at_end.to_string());
    assert_eq!(far.piece_count(), at_end.piece_count());
}

#[test]
fn deleting_past_the_end_deletes_to_the_end() {
    let mut long = PieceTable::from_string("Hello, World".to_owned());
    let mut exact = PieceTable::from_string("Hello, World".to_owned());
    long.delete(7, usize::MAX);
    exact.delete(7, 5);
    assert_eq!(long.to_string(), "Hello, ");
    assert_eq!(long.to_string(), exact.to_string());
}

#[test]
fn inserting_empty_text_changes_nothing() {
    let mut table = PieceTable::from_string("abc".to_owned());
    table.insert(1, "");
    assert_eq!(table.to_string(), "abc");
    assert_eq!(table.piece_count(), 1);
    assert_eq!(table.buffer_count(), 1);
}

#[test]
fn from_empty_string_has_no_piece() {
    let table = PieceTable::from_string(String::new());
    assert_eq!(table.to_string(), "");
    assert_eq!(table.piece_count(), 0);
    assert_eq!(table.buffer_count(), 1);
}

#[test]
fn deleting_nothing_keeps_the_text() {
    let mut table = PieceTable::from_string("abc".to_owned());
    table.delete(1, 0);
    assert_eq!(table.to_string(), "abc");
}

#[test]
fn to_bytes_gives_the_text_bytes() {
    let mut table = PieceTable::from_string("héllo".to_owned());
    table.insert(0, "ü");
    assert_eq!(table.to_bytes(), "ühéllo".as_bytes().to_vec());
    assert_eq!(table.to_string(), "ühéllo");
}

#[test]
fn a_new_buffer_is_sized_for_all_the_others() {
    let mut table = PieceTable::from_string("abcdefgh".to_owned());
    table.insert(8, "i");
    assert_eq!(table.buffer_count(), 2);
    for k in 0..6 {
        table.insert(9 + k, "j");
    }
    assert_eq!(table.buffer_count(), 2);
    assert_eq!(table.to_string(), "abcdefghijjjjjj");
    assert_eq!(table.piece_count(), 2);
}

#[test]
fn deletion_in_one_piece_keeps_both_ends() {
    let mut table = PieceTable::from_string("0123456789".to_owned());
    table.delete(3, 4);
    assert_eq!(table.to_string(), "012789");
    assert_eq!(table.piece_count(), 2);
}
