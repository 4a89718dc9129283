use texter::eol_indexes::EolIndexes;

const S: &str = "ads\nasdas\n\n\nasdad\n\nasdasd\nasd\na\n";

#[test]
fn eol_indexes_new() {
    let br = EolIndexes::new(S);
    assert_eq!(br.0, vec![0, 3, 9, 10, 11, 17, 18, 25, 29, 31]);
}

#[test]
fn eol_indexes_row_start() {
    let br = EolIndexes::new(S);
    assert_eq!(br.row_start(0), Some(0));
    assert_eq!(br.row_start(1), Some(4));
    assert_eq!(br.row_start(2), Some(10));
    assert_eq!(br.row_start(3), Some(11));
    assert_eq!(br.row_start(4), Some(12));
    assert_eq!(br.row_start(5), Some(18));
    assert_eq!(br.row_start(6), Some(19));
    assert_eq!(br.row_start(7), Some(26));
    assert_eq!(br.row_start(8), Some(30));
    assert_eq!(br.row_start(9), Some(32));
    assert_eq!(br.row_start(10), None);
}

#[test]
fn eol_indexes_remove_indexes_all() {
    let mut br = EolIndexes::new(S);
    br.remove_indexes(0, 9);
    assert_eq!(br.0, vec![0]);
}

#[test]
fn eol_indexes_remove_indexes_from_middle() {
    let mut br = EolIndexes::new(S);
    br.remove_indexes(1, 9);
    assert_eq!(br.0, vec![0, 3]);

    let mut br = EolIndexes::new(S);
    br.remove_indexes(3, 5);
    assert_eq!(br.0, vec![0, 3, 9, 10, 18, 25, 29, 31]);

    let mut br = EolIndexes::new(S);
    br.remove_indexes(6, 7);
    assert_eq!(br.0, vec![0, 3, 9, 10, 11, 17, 18, 29, 31]);
}

#[test]
fn eol_indexes_remove_indexes_same_row() {
    let mut br = EolIndexes::new(S);
    br.remove_indexes(0, 0);
    assert_eq!(br.0, vec![0, 3, 9, 10, 11, 17, 18, 25, 29, 31]);

    let mut br = EolIndexes::new(S);
    br.remove_indexes(5, 5);
    assert_eq!(br.0, vec![0, 3, 9, 10, 11, 17, 18, 25, 29, 31]);

    let mut br = EolIndexes::new(S);
    br.remove_indexes(9, 9);
    assert_eq!(br.0, vec![0, 3, 9, 10, 11, 17, 18, 25, 29, 31]);
}

#[test]
fn eol_indexes_remove_indexes_last_row() {
    let mut br = EolIndexes::new(S);
    br.remove_indexes(4, 9);
    assert_eq!(br.0, vec![0, 3, 9, 10, 11]);

    let mut br = EolIndexes::new(S);
    br.remove_indexes(0, 9);
    assert_eq!(br.0, vec![0]);
}

#[test]
fn eol_indexes_add_offsets() {
    let mut br = EolIndexes::new(S);
    br.add_offsets(3, 10);
    assert_eq!(br.0, vec![0, 3, 9, 10, 21, 27, 28, 35, 39, 41]);
}

#[test]
fn eol_indexes_sub_offsets() {
    let mut br = EolIndexes::new(S);
    br.sub_offsets(0, 2);
    assert_eq!(br.0, vec![0, 1, 7, 8, 9, 15, 16, 23, 27, 29]);
}

#[test]
fn eol_indexes_is_last_row() {
    let br = EolIndexes::new(S);
    assert!(!br.is_last_row(0));
    assert!(!br.is_last_row(1));
    assert!(!br.is_last_row(2));
    assert!(br.is_last_row(9));
}

#[test]
#[should_panic]
fn eol_indexes_is_last_row_oob() {
    let br = EolIndexes::new(S);
    assert!(br.is_last_row(10));
}
