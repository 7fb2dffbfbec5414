use piece_table::PieceTable;

#[test]
fn new_should_create_a_piece_table_with_no_buffers_or_pieces() {
    let piece_table = PieceTable::new();

    assert_eq!(piece_table.piece_count(), 0);
    assert_eq!(piece_table.buffer_count(), 0);
}

#[test]
fn it_should_append_a_string_to_an_empty_piece_buffer() {
    let mut piece_table = PieceTable::new();

    piece_table.insert(0, "Hello, World");

    assert_eq!(&piece_table.to_string(), "Hello, World");
}

#[test]
fn inserting_at_beginning_should_prepend_text() {
    let mut piece_table = PieceTable::new();

    piece_table.insert(0, "World");
    piece_table.insert(0, "Hello, ");

    assert_eq!(&piece_table.to_string(), "Hello, World");
}

#[test]
fn inserting_at_end_should_append_text() {
    let mut piece_table = PieceTable::new();

    piece_table.insert(0, "Hello, ");
    piece_table.insert(7, "World");

    assert_eq!(&piece_table.to_string(), "Hello, World");
}

#[test]
fn inserting_in_middle_should_split_original_text() {
    let mut piece_table = PieceTable::new();

    piece_table.insert(0, "Goodbye World");
    piece_table.insert(7, " cruel");

    assert_eq!(&piece_table.to_string(), "Goodbye cruel World");
}

#[test]
fn delete_from_middle_removes_text() {
    let mut piece_table = PieceTable::from_string("Hello, World".to_owned());

    piece_table.delete(5, 1);

    assert_eq!(&piece_table.to_string(), "Hello World");
}

#[test]
fn delete_from_start_removes_text() {
    let mut piece_table = PieceTable::from_string("Hello, World".to_owned());

    piece_table.delete(0, 7);

    assert_eq!(&piece_table.to_string(), "World");
}

#[test]
fn delete_from_end_removes_text_without_adding_new_pieces() {
    let mut piece_table = PieceTable::from_string("Hello, World".to_owned());

    piece_table.delete(5, 7);

    assert_eq!(&piece_table.to_string(), "Hello");
    assert_eq!(piece_table.piece_count(), 1);
}

#[test]
fn delete_whole_piece_removes_piece() {
    let mut piece_table = PieceTable::from_string("Hello, World".to_owned());

    piece_table.delete(0, 12);

    assert_eq!(&piece_table.to_string(), "");
    assert_eq!(piece_table.piece_count(), 0);
}

#[test]
fn deleting_multiple_pieces_removes_all_pieces() {
    let mut piece_table = PieceTable::from_string("Hello World".to_owned());

    piece_table.insert(5, ",");
    assert_eq!(piece_table.piece_count(), 3);

    piece_table.delete(2, 10);

    assert_eq!(&piece_table.to_string(), "He");
    assert_eq!(piece_table.piece_count(), 1);
}

#[test]
fn inserting_past_end_inserts_at_end() {
    let mut piece_table = PieceTable::from_string("Hello, World".to_owned());
    piece_table.insert(500, "Boom");
    assert_eq!(&piece_table.to_string(), "Hello, WorldBoom");
}

#[test]
fn deleting_when_start_is_past_end_of_buffer_does_nothing() {
    let mut piece_table = PieceTable::from_string("Hello, World".to_owned());
    piece_table.delete(500, 1);
    assert_eq!(&piece_table.to_string(), "Hello, World");
}

#[test]
fn deleting_when_it_would_delete_past_the_end_deletes_to_end() {
    let mut piece_table = PieceTable::from_string("Hello, World".to_owned());
    piece_table.delete(5, 500);
    assert_eq!(&piece_table.to_string(), "Hello");
}
