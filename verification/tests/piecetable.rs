use piecetable::PieceTable;
use piecetable::PieceTableError;

fn text_of(table: &PieceTable<u8>) -> String {
    String::from_utf8(table.materialize()).unwrap()
}

#[test]
fn round_trip_from_str() {
    let table = PieceTable::<u8>::from_str("Buenos dias");
    assert_eq!(text_of(&table), "Buenos dias");
    assert_eq!(table.len(), 11);
    assert_eq!(table.piece_count(), 1);
}

#[test]
fn round_trip_src() {
    let mut table = PieceTable::new();
    table.src(b"Buenos dias");
    assert_eq!(table.materialize(), b"Buenos dias".to_vec());
    assert_eq!(table.piece_count(), 1);
}

#[test]
fn round_trip_empty() {
    let table = PieceTable::<u8>::from_str("");
    assert_eq!(table.len(), 0);
    assert_eq!(table.piece_count(), 0);
    assert_eq!(table.materialize(), Vec::<u8>::new());
}

#[test]
fn insert_at_border_scenario() {
    // Load "HolaMatias." (length 11), insert "," at 4, then " " at 5.
    let mut table = PieceTable::<u8>::from_str("HolaMatias.");
    assert_eq!(table.len(), 11);
    table.insert(b',', 4).unwrap();
    assert_eq!(text_of(&table), "Hola,Matias.");
    table.insert(b' ', 5).unwrap();
    assert_eq!(text_of(&table), "Hola, Matias.");
}

#[test]
fn delete_comma_scenario() {
    let mut table = PieceTable::<u8>::from_str("Buenos dias, el clima se ve muy bien");
    table.delete(11).unwrap();
    assert_eq!(text_of(&table), "Buenos dias el clima se ve muy bien");
    assert_eq!(table.piece_count(), 2);
}

#[test]
fn insert_slice_scenario() {
    let mut table = PieceTable::new();
    table.src(b"Buenos dias, que buen clima hoy");
    table.insert_slice(b" Matias", 11).unwrap();
    assert_eq!(text_of(&table), "Buenos dias Matias, que buen clima hoy");
    assert_eq!(table.piece_count(), 3);
}

#[test]
fn insert_into_empty_scenario() {
    let mut table = PieceTable::<u8>::new();
    table.insert(b'x', 0).unwrap();
    assert_eq!(text_of(&table), "x");
    assert_eq!(table.piece_count(), 1);
}

#[test]
fn delete_sole_element_merges_neighbors() {
    // Splitting a read piece by an insertion and deleting the inserted
    // element again merges the two read halves back into one piece.
    let mut table = PieceTable::<u8>::from_str("abcdefgh");
    table.insert(b'X', 4).unwrap();
    assert_eq!(table.piece_count(), 3);
    assert_eq!(text_of(&table), "abcdXefgh");
    table.delete(4).unwrap();
    assert_eq!(text_of(&table), "abcdefgh");
    assert_eq!(table.piece_count(), 1);
}

#[test]
fn delete_sole_element_at_sequence_end() {
    // The removed piece is the last one: no right neighbor, no merge, and
    // in particular no failure.
    let mut table = PieceTable::<u8>::from_str("ab");
    table.insert(b'z', 2).unwrap();
    assert_eq!(text_of(&table), "abz");
    table.delete(2).unwrap();
    assert_eq!(text_of(&table), "ab");
    assert_eq!(table.piece_count(), 1);
}

#[test]
fn delete_first_last_and_interior() {
    let mut table = PieceTable::<u8>::from_str("abcdef");
    table.delete(0).unwrap();
    assert_eq!(text_of(&table), "bcdef");
    table.delete(4).unwrap();
    assert_eq!(text_of(&table), "bcde");
    table.delete(1).unwrap();
    assert_eq!(text_of(&table), "bde");
}

#[test]
fn insert_at_both_ends() {
    let mut table = PieceTable::<u8>::from_str("bc");
    table.insert(b'a', 0).unwrap();
    assert_eq!(text_of(&table), "abc");
    table.insert(b'd', 3).unwrap();
    assert_eq!(text_of(&table), "abcd");
}

#[test]
fn insert_out_of_range_is_rejected() {
    let mut table = PieceTable::<u8>::from_str("abc");
    let result = table.insert(b'x', 4);
    assert_eq!(result, Err(PieceTableError::IndexOutOfRange));
    assert_eq!(text_of(&table), "abc");
    assert_eq!(table.piece_count(), 1);
}

#[test]
fn delete_out_of_range_is_rejected() {
    let mut table = PieceTable::<u8>::from_str("abc");
    assert_eq!(table.delete(3), Err(PieceTableError::IndexOutOfRange));
    assert_eq!(table.delete(100), Err(PieceTableError::IndexOutOfRange));
    assert_eq!(text_of(&table), "abc");
}

#[test]
fn delete_from_empty_is_rejected() {
    let mut table = PieceTable::<u8>::new();
    assert_eq!(table.delete(0), Err(PieceTableError::IndexOutOfRange));
    assert_eq!(table.len(), 0);
}

#[test]
fn insert_slice_out_of_range_is_rejected() {
    let mut table = PieceTable::<u8>::from_str("abc");
    let result = table.insert_slice(b"xy", 4);
    assert_eq!(result, Err(PieceTableError::IndexOutOfRange));
    assert_eq!(text_of(&table), "abc");
}

#[test]
fn insert_empty_slice_is_a_no_op() {
    let mut table = PieceTable::<u8>::from_str("abc");
    table.insert_slice(b"", 1).unwrap();
    assert_eq!(text_of(&table), "abc");
    assert_eq!(table.piece_count(), 1);
    // An empty insertion is a no-op even past the end.
    table.insert_slice(b"", 100).unwrap();
    assert_eq!(text_of(&table), "abc");
}

#[test]
fn sequential_typing_keeps_one_piece() {
    // Character-by-character insertion at a strictly increasing cursor
    // takes the coalescing fast path: the piece count stays constant.
    let mut table = PieceTable::<u8>::new();
    let text = b"typing some text";
    for (i, b) in text.iter().enumerate() {
        table.insert(*b, i).unwrap();
        assert_eq!(table.piece_count(), 1);
    }
    assert_eq!(text_of(&table), "typing some text");
}

#[test]
fn sequential_typing_in_the_middle_keeps_piece_count() {
    let mut table = PieceTable::<u8>::from_str("ab");
    table.insert(b'x', 1).unwrap();
    assert_eq!(table.piece_count(), 3);
    // Continuing to type right after the previous insertion coalesces.
    table.insert(b'y', 2).unwrap();
    table.insert(b'z', 3).unwrap();
    assert_eq!(table.piece_count(), 3);
    assert_eq!(text_of(&table), "axyzb");
}

#[test]
fn compact_preserves_text_and_leaves_one_piece() {
    let mut table = PieceTable::<u8>::from_str("Buenos dias");
    table.insert_slice(b" Matias", 11).unwrap();
    table.delete(0).unwrap();
    let before = table.materialize();
    table.compact();
    assert_eq!(table.materialize(), before);
    assert_eq!(table.piece_count(), 1);
    // The compacted table remains fully editable.
    table.insert(b'!', table.len()).unwrap();
    assert_eq!(text_of(&table), "uenos dias Matias!");
}

#[test]
fn compact_of_empty_table() {
    let mut table = PieceTable::<u8>::new();
    table.compact();
    assert_eq!(table.piece_count(), 0);
    assert_eq!(table.len(), 0);
}

#[test]
fn iter_walks_the_whole_text() {
    let mut table = PieceTable::<u8>::from_str("Hola");
    table.insert_slice(b" mundo", 4).unwrap();
    table.delete(0).unwrap();
    let mut collected: Vec<u8> = Vec::new();
    let mut it = table.iter();
    while let Some(b) = it.next() {
        collected.push(b);
    }
    assert_eq!(collected, table.materialize());
    assert_eq!(collected, b"ola mundo".to_vec());
}

#[test]
fn iter_of_empty_table_is_empty() {
    let table = PieceTable::<u8>::new();
    let mut it = table.iter();
    assert_eq!(it.next(), None);
    assert_eq!(it.next(), None);
}

#[test]
fn len_tracks_edits() {
    let mut table = PieceTable::<u8>::from_str("abc");
    assert_eq!(table.len(), 3);
    table.insert(b'd', 3).unwrap();
    assert_eq!(table.len(), 4);
    table.delete(0).unwrap();
    assert_eq!(table.len(), 3);
}

#[test]
fn with_capacity_and_reserves_change_nothing_observable() {
    let mut table = PieceTable::<u8>::with_capacity(16, 4);
    assert_eq!(table.len(), 0);
    table.src(b"hola");
    table.reserve_buffer(32);
    table.reserve_piece(8);
    assert_eq!(text_of(&table), "hola");
    assert_eq!(table.piece_count(), 1);
}

#[test]
fn works_over_chars_too() {
    let mut table = PieceTable::<char>::new();
    table.src(&['h', 'o', 'l', 'a']);
    table.insert('!', 4).unwrap();
    assert_eq!(table.materialize(), vec!['h', 'o', 'l', 'a', '!']);
}

#[test]
fn insert_correctness_formula() {
    // insert(s, at) yields T[0..at] + s + T[at..] for a few positions.
    let base = "abcdef";
    for at in 0..=base.len() {
        let mut table = PieceTable::<u8>::from_str(base);
        table.insert_slice(b"XY", at).unwrap();
        let mut expected = base.as_bytes()[..at].to_vec();
        expected.extend_from_slice(b"XY");
        expected.extend_from_slice(&base.as_bytes()[at..]);
        assert_eq!(table.materialize(), expected);
    }
}

#[test]
fn delete_correctness_formula() {
    // delete(at) yields T[0..at] + T[at+1..] for every position.
    let base = "abcdef";
    for at in 0..base.len() {
        let mut table = PieceTable::<u8>::from_str(base);
        table.delete(at).unwrap();
        let mut expected = base.as_bytes()[..at].to_vec();
        expected.extend_from_slice(&base.as_bytes()[at + 1..]);
        assert_eq!(table.materialize(), expected);
    }
}

#[test]
fn delete_everything_one_by_one() {
    let mut table = PieceTable::<u8>::from_str("abcd");
    for _ in 0..4 {
        table.delete(0).unwrap();
    }
    assert_eq!(table.len(), 0);
    assert_eq!(table.piece_count(), 0);
    assert_eq!(table.delete(0), Err(PieceTableError::IndexOutOfRange));
}
