use texter::change::{Change, GridIndex};
use texter::text::Text;

#[test]
fn delete_multiline() {
    let mut t = Text::new("Hello, World!\nApples\n Oranges\nPears".to_string());
    t.update(
        Change::Delete { start: GridIndex { row: 1, col: 3 }, end: GridIndex { row: 3, col: 2 } },
        &mut (),
    )
    .unwrap();

    assert_eq!(t.text, b"Hello, World!\nAppars".to_vec());
}

#[test]
fn delete_in_line() {
    let mut t = Text::new("Hello, World!\nApples\n Oranges\nPears".to_string());
    assert_eq!(t.br_indexes.0, vec![0, 13, 20, 29]);
    t.update(
        Change::Delete { start: GridIndex { row: 0, col: 3 }, end: GridIndex { row: 0, col: 5 } },
        &mut (),
    )
    .unwrap();

    assert_eq!(t.br_indexes.0, vec![0, 11, 18, 27]);
    assert_eq!(t.text, b"Hel, World!\nApples\n Oranges\nPears".to_vec());
}

#[test]
fn delete_from_start() {
    let mut t = Text::new("Hello, World!\nApples\n Oranges\nPears".to_string());
    assert_eq!(t.br_indexes.0, vec![0, 13, 20, 29]);
    t.update(
        Change::Delete { start: GridIndex { row: 0, col: 0 }, end: GridIndex { row: 0, col: 5 } },
        &mut (),
    )
    .unwrap();

    assert_eq!(t.br_indexes.0, vec![0, 8, 15, 24]);
    assert_eq!(t.text, b", World!\nApples\n Oranges\nPears".to_vec());
}

#[test]
fn delete_from_end() {
    let mut t = Text::new("Hello, World!\nApples\n Oranges\nPears".to_string());
    t.update(
        Change::Delete { start: GridIndex { row: 3, col: 0 }, end: GridIndex { row: 3, col: 5 } },
        &mut (),
    )
    .unwrap();

    assert_eq!(t.br_indexes.0, vec![0, 13, 20, 29]);
    assert_eq!(t.text, b"Hello, World!\nApples\n Oranges\n".to_vec());
}

#[test]
fn delete_br() {
    let mut t = Text::new("Hello, World!\nBadApple\n".to_string());
    assert_eq!(t.br_indexes.0, vec![0, 13, 22]);
    t.update(
        Change::Delete { start: GridIndex { row: 1, col: 8 }, end: GridIndex { row: 2, col: 0 } },
        &mut (),
    )
    .unwrap();

    assert_eq!(t.br_indexes.0, vec![0, 13]);
    assert_eq!(t.text, b"Hello, World!\nBadApple".to_vec());
}

#[test]
fn delete_br_chain() {
    let mut t = Text::new("Hello, World!\n\n\nBadApple\n".to_string());
    assert_eq!(t.br_indexes.0, vec![0, 13, 14, 15, 24]);
    t.update(
        Change::Delete { start: GridIndex { row: 1, col: 0 }, end: GridIndex { row: 2, col: 0 } },
        &mut (),
    )
    .unwrap();

    assert_eq!(t.br_indexes.0, vec![0, 13, 14, 23]);
    assert_eq!(t.text, b"Hello, World!\n\nBadApple\n".to_vec());
}

#[test]
fn insert() {
    let mut t = Text::new(String::new());
    assert_eq!(t.br_indexes.0, vec![0]);
    t.update(
        Change::Insert { at: GridIndex { row: 0, col: 0 }, text: "Hello, World!".to_string() },
        &mut (),
    )
    .unwrap();

    assert_eq!(t.text, b"Hello, World!".to_vec());
    assert_eq!(t.br_indexes.0, vec![0]);
}

#[test]
fn insert_single_line_in_middle() {
    let mut t = Text::new(String::from("ABC\nDEF"));
    assert_eq!(t.br_indexes.0, vec![0, 3]);
    t.update(
        Change::Insert { at: GridIndex { row: 0, col: 1 }, text: "Hello,\n World!\n".to_string() },
        &mut (),
    )
    .unwrap();

    assert_eq!(t.text, b"AHello,\n World!\nBC\nDEF".to_vec());
    assert_eq!(t.br_indexes.0, vec![0, 7, 15, 18]);
}
