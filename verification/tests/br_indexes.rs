use texter::br_indexes::BrIndexes;

const S: &str = "ads\nasdas\n\n\nasdad\n\nasdasd\nasd\na\n";

#[test]
fn br_indexes_new() {
    let br = BrIndexes::new(S);
    assert_eq!(br.0, vec![0, 3, 9, 10, 11, 17, 18, 25, 29, 31]);
}

#[test]
fn br_indexes_row_start() {
    let br = BrIndexes::new(S);
    assert_eq!(br.row_start(0), 0);
    assert_eq!(br.row_start(1), 4);
    assert_eq!(br.row_start(2), 10);
    assert_eq!(br.row_start(3), 11);
    assert_eq!(br.row_start(4), 12);
    assert_eq!(br.row_start(5), 18);
    assert_eq!(br.row_start(6), 19);
    assert_eq!(br.row_start(7), 26);
    assert_eq!(br.row_start(8), 30);
    assert_eq!(br.row_start(9), 32);
}

#[test]
#[should_panic]
fn br_indexes_row_start_oob() {
    let br = BrIndexes::new(S);
    br.row_start(10);
}

#[test]
fn br_indexes_remove_indexes_all() {
    let mut br = BrIndexes::new(S);
    br.remove_indexes(0, 9);
    assert_eq!(br.0, vec![0]);
}

#[test]
fn br_indexes_remove_indexes_from_middle() {
    let mut br = BrIndexes::new(S);
    br.remove_indexes(1, 9);
    assert_eq!(br.0, vec![0, 3]);

    let mut br = BrIndexes::new(S);
    br.remove_indexes(3, 5);
    assert_eq!(br.0, vec![0, 3, 9, 10, 18, 25, 29, 31]);

    let mut br = BrIndexes::new(S);
    br.remove_indexes(6, 7);
    assert_eq!(br.0, vec![0, 3, 9, 10, 11, 17, 18, 29, 31]);
}

#[test]
fn br_indexes_remove_indexes_same_row() {
    let mut br = BrIndexes::new(S);
    br.remove_indexes(0, 0);
    assert_eq!(br.0, vec![0, 3, 9, 10, 11, 17, 18, 25, 29, 31]);

    let mut br = BrIndexes::new(S);
    br.remove_indexes(5, 5);
    assert_eq!(br.0, vec![0, 3, 9, 10, 11, 17, 18, 25, 29, 31]);

    let mut br = BrIndexes::new(S);
    br.remove_indexes(9, 9);
    assert_eq!(br.0, vec![0, 3, 9, 10, 11, 17, 18, 25, 29, 31]);
}

#[test]
fn br_indexes_remove_indexes_last_row() {
    let mut br = BrIndexes::new(S);
    br.remove_indexes(4, 9);
    assert_eq!(br.0, vec![0, 3, 9, 10, 11]);

    let mut br = BrIndexes::new(S);
    br.remove_indexes(0, 9);
    assert_eq!(br.0, vec![0]);
}

#[test]
fn br_indexes_add_offsets() {
    let mut br = BrIndexes::new(S);
    br.add_offsets(3, 10);
    assert_eq!(br.0, vec![0, 3, 9, 10, 21, 27, 28, 35, 39, 41]);
}

#[test]
fn br_indexes_sub_offsets() {
    let mut br = BrIndexes::new(S);
    br.sub_offsets(0, 2);
    assert_eq!(br.0, vec![0, 1, 7, 8, 9, 15, 16, 23, 27, 29]);
}

#[test]
fn br_indexes_is_last_row() {
    let br = BrIndexes::new(S);
    assert!(!br.is_last_row(0));
    assert!(!br.is_last_row(1));
    assert!(!br.is_last_row(2));
    assert!(br.is_last_row(9));
}

#[test]
#[should_panic]
fn br_indexes_is_last_row_oob() {
    let br = BrIndexes::new(S);
    assert!(br.is_last_row(10));
}
