use sjis::{EncodedChar, Tables, decode_char_from, encode_char};

/// A minimal valid grid: every cell unmapped except the one holding the
/// fallback character at its canonical pair (0x81, 0x45), flat index 5.
fn toy_grid() -> Vec<char> {
    let mut g = vec!['\u{fffd}'; 8648];
    g[5] = '・';
    g
}

fn repl_entry() -> (char, u8, u8) {
    ('・', 0x81, 0x45)
}

#[test]
fn builds_minimal_tables() {
    let t = Tables::new(&vec![repl_entry()], &toy_grid()).unwrap();
    assert_eq!(encode_char(&t, '・'), Some(EncodedChar::Two(0x81, 0x45)));
    assert_eq!(encode_char(&t, '日'), None);
    assert_eq!(decode_char_from(&t, 0x93, Some(0xFA)), Err(EncodedChar::Two(0x93, 0xFA)));
    // ASCII still works with no table entries at all.
    assert_eq!(encode_char(&t, 'A'), Some(EncodedChar::One(0x41)));
}

#[test]
fn first_occurrence_wins() {
    // A later duplicate association for the same character is ignored.
    let entries = vec![repl_entry(), ('・', 0x87, 0x90)];
    let t = Tables::new(&entries, &toy_grid()).unwrap();
    assert_eq!(encode_char(&t, '・'), Some(EncodedChar::Two(0x81, 0x45)));
}

#[test]
fn padded_rows_decode_to_fallback() {
    let t = Tables::new(&vec![repl_entry()], &toy_grid()).unwrap();
    // Lead 0xEF addresses the two padded rows appended by the constructor.
    assert_eq!(decode_char_from(&t, 0xEF, Some(0x40)), Ok(('・', 2)));
    assert_eq!(decode_char_from(&t, 0xEF, Some(0xFC)), Ok(('・', 2)));
}

#[test]
fn rejects_wrong_grid_length() {
    let mut g = toy_grid();
    g.pop();
    assert!(Tables::new(&vec![repl_entry()], &g).is_none());
}

#[test]
fn rejects_invalid_bytes_in_entry() {
    let mut g = toy_grid();
    g[6] = '日';
    // 0x7F is never a valid trail byte.
    let entries = vec![repl_entry(), ('日', 0x81, 0x7F)];
    assert!(Tables::new(&entries, &g).is_none());
}

#[test]
fn rejects_entry_not_matching_its_cell() {
    // The cell addressed by (0x81, 0x46) is unmapped, so an association
    // pointing there is inconsistent.
    let entries = vec![repl_entry(), ('日', 0x81, 0x46)];
    assert!(Tables::new(&entries, &toy_grid()).is_none());
}

#[test]
fn rejects_cell_without_forward_entry() {
    let mut g = toy_grid();
    g[6] = '日';
    assert!(Tables::new(&vec![repl_entry()], &g).is_none());
}

#[test]
fn rejects_single_byte_character_in_grid() {
    let mut g = toy_grid();
    g[6] = 'A';
    let entries = vec![repl_entry(), ('A', 0x81, 0x46)];
    assert!(Tables::new(&entries, &g).is_none());
}

#[test]
fn rejects_missing_replacement_mapping() {
    // Without the fallback character in the forward table the padded rows
    // (and the replacement sequence itself) could not be re-encoded.
    let g = vec!['\u{fffd}'; 8648];
    assert!(Tables::new(&vec![], &g).is_none());
}
