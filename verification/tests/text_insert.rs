use texter::change::GridIndex;
use texter::text::Text;

#[test]
fn text_into_empty() {
    let mut t = Text::new(String::new());
    assert_eq!(t.br_indexes.0, vec![0]);
    t.insert("Hello, World!", GridIndex { row: 0, col: 0 }, &mut ()).unwrap();

    assert_eq!(t.text, b"Hello, World!".to_vec());
    assert_eq!(t.br_indexes.0, vec![0]);
}

#[test]
fn text_in_start() {
    let mut t = Text::new(String::from("Apples"));
    assert_eq!(t.br_indexes.0, vec![0]);
    t.insert("Hello, World!", GridIndex { row: 0, col: 0 }, &mut ()).unwrap();

    assert_eq!(t.text, b"Hello, World!Apples".to_vec());
    assert_eq!(t.br_indexes.0, vec![0]);
}

#[test]
fn text_in_end() {
    let mut t = Text::new(String::from("Apples"));
    assert_eq!(t.br_indexes.0, vec![0]);
    t.insert("Hello, \nWorld!\n", GridIndex { row: 0, col: 6 }, &mut ()).unwrap();

    assert_eq!(t.text, b"ApplesHello, \nWorld!\n".to_vec());
    assert_eq!(t.br_indexes.0, vec![0, 13, 20]);
}

#[test]
fn text_end_of_multiline() {
    let mut t = Text::new(String::from("Apples\nBashdjad\nashdkasdh\nasdsad"));
    assert_eq!(t.br_indexes.0, vec![0, 6, 15, 25]);
    t.insert("Hello, \nWorld!\n", GridIndex { row: 3, col: 2 }, &mut ()).unwrap();

    assert_eq!(t.text, b"Apples\nBashdjad\nashdkasdh\nasHello, \nWorld!\ndsad".to_vec());
    assert_eq!(t.br_indexes.0, vec![0, 6, 15, 25, 35, 42]);
}

#[test]
fn text_multi_line_in_middle() {
    let mut t = Text::new(String::from("ABC\nDEF"));
    assert_eq!(t.br_indexes.0, vec![0, 3]);
    t.insert("Hello,\n World!\n", GridIndex { row: 1, col: 1 }, &mut ()).unwrap();

    assert_eq!(t.text, b"ABC\nDHello,\n World!\nEF".to_vec());
    assert_eq!(t.br_indexes.0, vec![0, 3, 11, 19]);
}

#[test]
fn text_single_line_in_middle() {
    let mut t = Text::new(String::from("ABC\nDEF"));
    assert_eq!(t.br_indexes.0, vec![0, 3]);
    t.insert("Hello, World!", GridIndex { row: 0, col: 1 }, &mut ()).unwrap();

    assert_eq!(t.text, b"AHello, World!BC\nDEF".to_vec());
    assert_eq!(t.br_indexes.0, vec![0, 16]);
}

#[test]
fn text_multi_byte() {
    let mut t = Text::new("シュタインズ・ゲートは素晴らしいです。".into());
    assert_eq!(t.br_indexes.0, vec![0]);
    t.insert("\nHello, ゲートWorld!\n", GridIndex { row: 0, col: 3 }, &mut ()).unwrap();

    assert_eq!(
        t.text,
        "シ\nHello, ゲートWorld!\nュタインズ・ゲートは素晴らしいです。".as_bytes().to_vec()
    );
    assert_eq!(t.br_indexes.0, vec![0, 3, 26]);
    assert_eq!(
        &t.text[t.br_indexes.0[1] + 1..t.br_indexes.0[2]],
        "Hello, ゲートWorld!".as_bytes()
    );
    assert_eq!(
        &t.text[t.br_indexes.0[2] + 1..],
        "ュタインズ・ゲートは素晴らしいです。".as_bytes()
    );
}

#[test]
fn insert_long_text_single_byte() {
    let mut t = Text::new(
        "1234567\nABCD\nHELLO\nWORLD\nSOMELONGLINEFORTESTINGVARIOUSCASES\nAHAHHAHAH".into(),
    );

    assert_eq!(t.br_indexes.0, vec![0, 7, 12, 18, 24, 59]);

    t.insert("Apple Juice\nBananaMilkshake\nWobbly", GridIndex { row: 4, col: 5 }, &mut ())
        .unwrap();

    assert_eq!(
        t.text,
        b"1234567\nABCD\nHELLO\nWORLD\nSOMELApple Juice\nBananaMilkshake\nWobblyONGLINEFORTESTINGVARIOUSCASES\nAHAHHAHAH".to_vec()
    );
    assert_eq!(t.br_indexes.0, vec![0, 7, 12, 18, 24, 41, 57, 93]);

    assert_eq!(t.get_row(0).unwrap(), b"1234567");
    assert_eq!(t.get_row(1).unwrap(), b"ABCD");
    assert_eq!(t.get_row(2).unwrap(), b"HELLO");
    assert_eq!(t.get_row(3).unwrap(), b"WORLD");
    assert_eq!(t.get_row(4).unwrap(), b"SOMELApple Juice");
    assert_eq!(t.get_row(5).unwrap(), b"BananaMilkshake");
    assert_eq!(t.get_row(6).unwrap(), b"WobblyONGLINEFORTESTINGVARIOUSCASES");
    assert_eq!(t.get_row(7).unwrap(), b"AHAHHAHAH");
}

#[test]
fn insert_long_text_multi_byte() {
    let mut t = Text::new(
        "シュタ\nHello, ゲートWorld!\nインズ・ゲートは素晴らしいです。\nこんにちは世界！"
            .to_string(),
    );

    assert_eq!(t.br_indexes.0, vec![0, 9, 32, 81]);

    t.insert(
        "Olá, mundo!\nWaltuh Put the fork away Waltuh.",
        GridIndex { row: 2, col: 3 },
        &mut (),
    )
    .unwrap();

    assert_eq!(
        t.text,
        "シュタ\nHello, ゲートWorld!\nイOlá, mundo!\nWaltuh Put the fork away Waltuh.ンズ・ゲートは素晴らしいです。\nこんにちは世界！"
            .as_bytes()
            .to_vec()
    );

    assert_eq!(t.br_indexes.0, vec![0, 9, 32, 48, 126]);

    assert_eq!(t.get_row(0).unwrap(), "シュタ".as_bytes());
    assert_eq!(t.get_row(1).unwrap(), "Hello, ゲートWorld!".as_bytes());
    assert_eq!(t.get_row(2).unwrap(), "イOlá, mundo!".as_bytes());
    assert_eq!(
        t.get_row(3).unwrap(),
        "Waltuh Put the fork away Waltuh.ンズ・ゲートは素晴らしいです。".as_bytes()
    );
    assert_eq!(t.get_row(4).unwrap(), "こんにちは世界！".as_bytes());
}
