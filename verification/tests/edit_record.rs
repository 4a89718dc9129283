use texter::change::GridIndex;
use texter::eol_indexes::EolIndexes;
use texter::updateables::{edit_from_ctx, ChangeContext, EditRecord, UpdateContext};

#[test]
fn edit_ctx_delete() {
    let breaklines = EolIndexes(vec![0, 12, 14]);
    let old_breaklines = EolIndexes(vec![0, 12, 16, 20]);
    let edit = edit_from_ctx(UpdateContext {
        breaklines: &breaklines,
        old_breaklines: &old_breaklines,
        old_str: b"Hello World!\n123\nasd\nAppleJuice",
        change: ChangeContext::Delete {
            start: GridIndex { row: 1, col: 0 },
            end: GridIndex { row: 2, col: 2 },
        },
    });

    let correct_edit = EditRecord {
        start_byte: 13,
        start_position: GridIndex { row: 1, col: 0 },
        old_end_byte: 19,
        old_end_position: GridIndex { row: 2, col: 2 },
        new_end_byte: 13,
        new_end_position: GridIndex { row: 1, col: 0 },
    };

    assert_eq!(edit, correct_edit);
}

#[test]
fn edit_ctx_insert() {
    let breaklines = EolIndexes(vec![0, 12, 14]);
    let old_breaklines = EolIndexes(vec![0, 12, 16, 20]);
    let edit = edit_from_ctx(UpdateContext {
        breaklines: &breaklines,
        old_breaklines: &old_breaklines,
        old_str: b"Hello World!\nd\nAppleJuice",
        change: ChangeContext::Insert {
            inserted_br_indexes: &[16],
            position: GridIndex { row: 1, col: 0 },
            text: b"123\nas",
        },
    });

    let correct_edit = EditRecord {
        start_byte: 13,
        start_position: GridIndex { row: 1, col: 0 },
        old_end_byte: 13,
        old_end_position: GridIndex { row: 1, col: 0 },
        new_end_byte: 19,
        new_end_position: GridIndex { row: 2, col: 2 },
    };

    assert_eq!(edit, correct_edit);
}

#[test]
fn edit_ctx_replace_shrink() {
    let breaklines = EolIndexes(vec![0, 12, 31]);
    let old_breaklines = EolIndexes(vec![0, 12, 21]);
    let edit = edit_from_ctx(UpdateContext {
        breaklines: &breaklines,
        old_breaklines: &old_breaklines,
        old_str: b"Hello World!\ndgsadhasgjdhasgdjh\nAppleJuice",
        change: ChangeContext::Replace {
            start: GridIndex { row: 0, col: 5 },
            end: GridIndex { row: 1, col: 10 },
            text: b"Welcome",
            inserted_br_indexes: &[],
        },
    });

    let correct_edit = EditRecord {
        start_byte: 5,
        start_position: GridIndex { row: 0, col: 5 },
        old_end_byte: 23,
        old_end_position: GridIndex { row: 1, col: 10 },
        new_end_byte: 12,
        new_end_position: GridIndex { row: 0, col: 12 },
    };

    assert_eq!(edit, correct_edit);
}

#[test]
fn edit_ctx_replace_grow() {
    let breaklines = EolIndexes(vec![0, 12, 31]);
    let old_breaklines = EolIndexes(vec![0, 12, 21]);
    let edit = edit_from_ctx(UpdateContext {
        breaklines: &breaklines,
        old_breaklines: &old_breaklines,
        old_str: b"Hello World!\ndgsadhasgjdhasgdjh\nAppleJuice",
        change: ChangeContext::Replace {
            start: GridIndex { row: 0, col: 5 },
            end: GridIndex { row: 0, col: 8 },
            text: b"Welcome\na",
            inserted_br_indexes: &[12],
        },
    });

    let correct_edit = EditRecord {
        start_byte: 5,
        start_position: GridIndex { row: 0, col: 5 },
        old_end_byte: 8,
        old_end_position: GridIndex { row: 0, col: 8 },
        new_end_byte: 14,
        new_end_position: GridIndex { row: 1, col: 1 },
    };

    assert_eq!(edit, correct_edit);
}

#[test]
fn edit_ctx_replace_full() {
    let breaklines = EolIndexes(vec![0, 10, 19, 20, 21, 39]);
    let old_breaklines = EolIndexes(vec![0, 12, 31]);
    let edit = edit_from_ctx(UpdateContext {
        breaklines: &breaklines,
        old_breaklines: &old_breaklines,
        old_str: b"Hello World!\ndgsadhasgjdhasgdjh\nAppleJuice",
        change: ChangeContext::ReplaceFull {
            text: b"sdghfkjhsd\nasdasdas\n\n\nasdasdasdasdasdas\nasdasd",
        },
    });

    let correct_edit = EditRecord {
        start_byte: 0,
        start_position: GridIndex { row: 0, col: 0 },
        old_end_byte: 42,
        old_end_position: GridIndex { row: 2, col: 10 },
        new_end_byte: 46,
        new_end_position: GridIndex { row: 5, col: 6 },
    };

    assert_eq!(edit, correct_edit);
}
