use texter::change::GridIndex;
use texter::text::Text;

#[test]
fn text_single_line() {
    let mut t = Text::new("Hello, World!".into());
    assert_eq!(t.br_indexes.0, vec![0]);
    t.delete(GridIndex { row: 0, col: 1 }, GridIndex { row: 0, col: 6 }, &mut ()).unwrap();

    assert_eq!(t.br_indexes.0, vec![0]);
    assert_eq!(t.text, b"H World!".to_vec());
}

#[test]
fn text_multiline() {
    let mut t = Text::new("Hello, World!\nApples\n Oranges\nPears".into());
    assert_eq!(t.br_indexes.0, vec![0, 13, 20, 29]);
    t.delete(GridIndex { row: 1, col: 3 }, GridIndex { row: 3, col: 2 }, &mut ()).unwrap();

    assert_eq!(t.br_indexes.0, vec![0, 13]);
    assert_eq!(t.text, b"Hello, World!\nAppars".to_vec());
}

#[test]
fn text_in_line_into_start() {
    let mut t = Text::new("Hello, World!\nApples\n Oranges\nPears".into());
    assert_eq!(t.br_indexes.0, vec![0, 13, 20, 29]);
    t.delete(GridIndex { row: 0, col: 1 }, GridIndex { row: 0, col: 4 }, &mut ()).unwrap();

    assert_eq!(t.br_indexes.0, vec![0, 10, 17, 26]);
    assert_eq!(t.text, b"Ho, World!\nApples\n Oranges\nPears".to_vec());
}

#[test]
fn text_in_line_at_start() {
    let mut t = Text::new("Hello, World!\nApples\n Oranges\nPears".into());
    assert_eq!(t.br_indexes.0, vec![0, 13, 20, 29]);
    t.delete(GridIndex { row: 0, col: 0 }, GridIndex { row: 0, col: 4 }, &mut ()).unwrap();

    assert_eq!(t.br_indexes.0, vec![0, 9, 16, 25]);
    assert_eq!(t.text, b"o, World!\nApples\n Oranges\nPears".to_vec());
}

#[test]
fn text_across_first_line() {
    let mut t = Text::new("Hello, World!\nApplbs\n Oranges\nPears".into());
    assert_eq!(t.br_indexes.0, vec![0, 13, 20, 29]);
    t.delete(GridIndex { row: 0, col: 3 }, GridIndex { row: 1, col: 4 }, &mut ()).unwrap();

    assert_eq!(t.br_indexes.0, vec![0, 5, 14]);
    assert_eq!(t.text, b"Helbs\n Oranges\nPears".to_vec());
}

#[test]
fn text_across_last_line() {
    let mut t = Text::new("Hello, World!\nApplbs\n Oranges\nPears".into());
    assert_eq!(t.br_indexes.0, vec![0, 13, 20, 29]);
    t.delete(GridIndex { row: 2, col: 3 }, GridIndex { row: 3, col: 2 }, &mut ()).unwrap();

    assert_eq!(t.br_indexes.0, vec![0, 13, 20]);
    assert_eq!(t.text, b"Hello, World!\nApplbs\n Orars".to_vec());
}

#[test]
fn text_in_line_at_middle() {
    let mut t = Text::new("Hello, World!\nApples\n Oranges\nPears".into());
    assert_eq!(t.br_indexes.0, vec![0, 13, 20, 29]);
    t.delete(GridIndex { row: 2, col: 1 }, GridIndex { row: 2, col: 4 }, &mut ()).unwrap();

    assert_eq!(t.br_indexes.0, vec![0, 13, 20, 26]);
    assert_eq!(t.text, b"Hello, World!\nApples\n nges\nPears".to_vec());
}

#[test]
fn text_in_line_at_end() {
    let mut t = Text::new("Hello, World!\nApples\n Oranges\nPears".into());
    assert_eq!(t.br_indexes.0, vec![0, 13, 20, 29]);
    t.delete(GridIndex { row: 3, col: 1 }, GridIndex { row: 3, col: 4 }, &mut ()).unwrap();

    assert_eq!(t.br_indexes.0, vec![0, 13, 20, 29]);
    assert_eq!(t.text, b"Hello, World!\nApples\n Oranges\nPs".to_vec());
}

#[test]
fn text_from_start() {
    let mut t = Text::new("Hello, World!\nApples\n Oranges\nPears".into());
    assert_eq!(t.br_indexes.0, vec![0, 13, 20, 29]);
    t.delete(GridIndex { row: 0, col: 0 }, GridIndex { row: 0, col: 5 }, &mut ()).unwrap();

    assert_eq!(t.br_indexes.0, vec![0, 8, 15, 24]);
    assert_eq!(t.text, b", World!\nApples\n Oranges\nPears".to_vec());
}

#[test]
fn text_from_end() {
    let mut t = Text::new("Hello, World!\nApples\n Oranges\nPears".into());
    assert_eq!(t.br_indexes.0, vec![0, 13, 20, 29]);
    t.delete(GridIndex { row: 3, col: 0 }, GridIndex { row: 3, col: 5 }, &mut ()).unwrap();

    assert_eq!(t.br_indexes.0, vec![0, 13, 20, 29]);
    assert_eq!(t.text, b"Hello, World!\nApples\n Oranges\n".to_vec());
}

#[test]
fn text_br() {
    let mut t = Text::new("Hello, World!\nBadApple\n".into());
    assert_eq!(t.br_indexes.0, vec![0, 13, 22]);
    t.delete(GridIndex { row: 1, col: 8 }, GridIndex { row: 2, col: 0 }, &mut ()).unwrap();

    assert_eq!(t.br_indexes.0, vec![0, 13]);
    assert_eq!(t.text, b"Hello, World!\nBadApple".to_vec());
}

#[test]
fn text_br_chain() {
    let mut t = Text::new("Hello, World!\n\n\nBadApple\n".into());
    assert_eq!(t.br_indexes.0, vec![0, 13, 14, 15, 24]);
    t.delete(GridIndex { row: 1, col: 0 }, GridIndex { row: 2, col: 0 }, &mut ()).unwrap();

    assert_eq!(t.br_indexes.0, vec![0, 13, 14, 23]);
    assert_eq!(t.text, b"Hello, World!\n\nBadApple\n".to_vec());
}

#[test]
fn text_long_text_single_byte() {
    let mut t = Text::new(
        "Hello, World!\nBanana\nHuman\nInteresting\nSuper\nMohawk\nShrek is a great movie.".into(),
    );
    assert_eq!(t.br_indexes.0, vec![0, 13, 20, 26, 38, 44, 51]);
    t.delete(GridIndex { row: 1, col: 3 }, GridIndex { row: 5, col: 2 }, &mut ()).unwrap();
    assert_eq!(t.br_indexes.0, vec![0, 13, 21]);
    assert_eq!(t.text, b"Hello, World!\nBanhawk\nShrek is a great movie.".to_vec());
}

#[test]
fn text_long_text_multi_byte() {
    let mut t = Text::new(
        "誰かがかつて世界が私をロールつもりである私に言いました\n私は小屋で最もシャープなツールではありません\n彼女は彼女の指と親指でダムのようなものを探していました\n彼女の額の「L」の形をしました\n\nさて、年が来て起動し、彼らが来て停止しません\nルールに供給され、私は地上走行をヒット\n楽しみのために生きることはない意味がありませんでした\nあなたの脳は、スマート取得しますが、あなたの頭はダム取得します\n\n見るために、あまりを行うことがそんなに\nだから、裏通りを取ると間違って何ですか？\nあなたが行っていない場合は、あなたが知っていることは決してないだろう\nあなたが輝くない場合は輝くことは決してないだろう"
            .into(),
    );
    assert_eq!(
        t.br_indexes.0,
        vec![0, 81, 148, 230, 274, 275, 342, 400, 479, 573, 574, 632, 693, 796]
    );
    t.delete(GridIndex { row: 1, col: 3 }, GridIndex { row: 5, col: 0 }, &mut ()).unwrap();
    assert_eq!(t.br_indexes.0, vec![0, 81, 151, 209, 288, 382, 383, 441, 502, 605]);
    assert_eq!(
        t.text,
        "誰かがかつて世界が私をロールつもりである私に言いました\n私さて、年が来て起動し、彼らが来て停止しません\nルールに供給され、私は地上走行をヒット\n楽しみのために生きることはない意味がありませんでした\nあなたの脳は、スマート取得しますが、あなたの頭はダム取得します\n\n見るために、あまりを行うことがそんなに\nだから、裏通りを取ると間違って何ですか？\nあなたが行っていない場合は、あなたが知っていることは決してないだろう\nあなたが輝くない場合は輝くことは決してないだろう"
            .as_bytes()
            .to_vec()
    );
}
