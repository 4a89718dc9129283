use lsp_types::{Position, Range, TextDocumentContentChangeEvent};
use texter::change::{Change, GridIndex};
use texter::encodings::{utf16_exclusive, utf8, utf8_exclusive};
use texter::text::Text;
use texter::updateables::{Updateable, UpdateContext};

#[test]
fn utf8_char_offsets() {
    assert_eq!(utf8("aé𐐷z", 0), 0);
    assert_eq!(utf8("aé𐐷z", 1), 1);
    assert_eq!(utf8("aé𐐷z", 2), 3);
    assert_eq!(utf8("aé𐐷z", 3), 7);
}

#[test]
fn utf8_exclusive_char_offsets() {
    assert_eq!(utf8_exclusive("aé𐐷z", 4), 8);
    assert_eq!(utf8_exclusive("aé𐐷z", 2), 3);
    assert_eq!(utf8_exclusive("", 0), 0);
}

#[test]
fn utf16_exclusive_offsets() {
    assert_eq!(utf16_exclusive("", 0), 0);
    assert_eq!(utf16_exclusive("a𐐷b", 1), 1);
    assert_eq!(utf16_exclusive("a𐐷b", 3), 5);
    assert_eq!(utf16_exclusive("a𐐷b", 4), 6);
    // one past the total unit count reports the requested count itself
    assert_eq!(utf16_exclusive("a𐐷b", 5), 5);
}

#[test]
fn column_round_trips() {
    // for every valid column, decoding to bytes and encoding back is identity
    let t16 = Text::new_utf16("aé𐐷\n𐐷z".into());
    for (row, units) in [(0usize, 4usize), (1, 3)] {
        for c in 0..=units {
            let mut p = GridIndex { row, col: c };
            let mut doc = Text::new_utf16("aé𐐷\n𐐷z".into());
            if p.normalize(&mut doc).is_err() {
                // mid-surrogate columns do not name a byte offset
                assert!(row == 0 && c == 3 || row == 1 && c == 1);
                continue;
            }
            let mut back = p;
            back.denormalize(&t16).unwrap();
            assert_eq!(back, GridIndex { row, col: c });
        }
    }
}

#[test]
fn change_from_lsp_event() {
    let full = TextDocumentContentChangeEvent {
        range: None,
        range_length: None,
        text: "abc".to_string(),
    };
    assert_eq!(Change::from_event(full), Change::ReplaceFull("abc".to_string()));

    let range = Range {
        start: Position { line: 1, character: 2 },
        end: Position { line: 3, character: 4 },
    };
    let delete = TextDocumentContentChangeEvent {
        range: Some(range),
        range_length: None,
        text: String::new(),
    };
    assert_eq!(
        Change::from_event(delete),
        Change::Delete {
            start: GridIndex { row: 1, col: 2 },
            end: GridIndex { row: 3, col: 4 },
        }
    );

    let point = Range {
        start: Position { line: 1, character: 2 },
        end: Position { line: 1, character: 2 },
    };
    let insert = TextDocumentContentChangeEvent {
        range: Some(point),
        range_length: None,
        text: "hi".to_string(),
    };
    assert_eq!(
        Change::from_event(insert),
        Change::Insert { at: GridIndex { row: 1, col: 2 }, text: "hi".to_string() }
    );

    let replace = TextDocumentContentChangeEvent {
        range: Some(range),
        range_length: None,
        text: "hi".to_string(),
    };
    assert_eq!(
        Change::from_event(replace),
        Change::Replace {
            start: GridIndex { row: 1, col: 2 },
            end: GridIndex { row: 3, col: 4 },
            text: "hi".to_string(),
        }
    );
}

#[test]
fn grid_index_from_outside_positions() {
    let p = lsp_types::Position { line: 7, character: 9 };
    assert_eq!(GridIndex::from_position(p), GridIndex { row: 7, col: 9 });
    let q = tree_sitter::Point { row: 3, column: 5 };
    assert_eq!(GridIndex::from_point(q), GridIndex { row: 3, col: 5 });
}

struct Recorder {
    old_str: Vec<u8>,
    old_breaklines: Vec<usize>,
    breaklines: Vec<usize>,
    calls: usize,
}

impl Updateable for Recorder {
    fn update(&mut self, ctx: UpdateContext<'_>) {
        self.old_str = ctx.old_str.to_vec();
        self.old_breaklines = ctx.old_breaklines.0.clone();
        self.breaklines = ctx.breaklines.0.clone();
        self.calls += 1;
    }
}

#[test]
fn observer_sees_old_text_and_both_indexes() {
    let mut rec = Recorder { old_str: Vec::new(), old_breaklines: Vec::new(), breaklines: Vec::new(), calls: 0 };
    let mut t = Text::new("ab\ncd".into());
    t.insert("x\ny", GridIndex { row: 1, col: 1 }, &mut rec).unwrap();
    assert_eq!(rec.calls, 1);
    // the observer ran before the bytes moved but after the index moved
    assert_eq!(rec.old_str, b"ab\ncd".to_vec());
    assert_eq!(rec.old_breaklines, vec![0, 2]);
    assert_eq!(rec.breaklines, vec![0, 2, 5]);
    assert_eq!(t.text, b"ab\ncx\nyd".to_vec());
}
