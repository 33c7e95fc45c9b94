use lexparse::{preprocess, PositionedChar, PreprocessError};

fn pc(c: char, row: usize, col: usize) -> PositionedChar {
    PositionedChar { c, row, col }
}

fn text(cs: &[PositionedChar]) -> String {
    cs.iter().map(|p| p.c).collect()
}

#[test]
fn test_preprocess() {
    let source = "i/**/n\nt\n".to_string();
    let preprocessed = preprocess(source).unwrap();
    assert_eq!(
        preprocessed,
        [pc('i', 1, 1), pc(' ', 1, 2), pc('n', 1, 6), pc(' ', 1, 7), pc('t', 2, 1)]
    );

    let source = "i/* // */n//\nt\n".to_string();
    let preprocessed = preprocess(source).unwrap();
    assert_eq!(
        preprocessed,
        [pc('i', 1, 1), pc(' ', 1, 2), pc('n', 1, 10), pc(' ', 1, 11), pc('t', 2, 1)]
    );

    let source = "i/* */// */n//\nt\n".to_string();
    let preprocessed = preprocess(source).unwrap();
    assert_eq!(preprocessed, [pc('i', 1, 1), pc(' ', 1, 2), pc('t', 2, 1)]);
}

#[test]
fn golden_positions_match_source() {
    let source = "i/**/n\nt";
    let out = preprocess(source.to_string()).unwrap();
    assert_eq!(
        out,
        [pc('i', 1, 1), pc(' ', 1, 2), pc('n', 1, 6), pc(' ', 1, 7), pc('t', 2, 1)]
    );
    let lines: Vec<Vec<char>> = source.split('\n').map(|l| l.chars().collect()).collect();
    for p in out.iter().filter(|p| p.c != ' ') {
        assert_eq!(lines[p.row - 1][p.col - 1], p.c);
    }
}

#[test]
fn kept_characters_stand_at_their_positions() {
    let source = "int a; /* x\n y */ a = 10 // z\n  b=a/2;";
    let out = preprocess(source.to_string()).unwrap();
    let lines: Vec<Vec<char>> = source.split('\n').map(|l| l.chars().collect()).collect();
    for p in out.iter().filter(|p| p.c != ' ') {
        assert_eq!(lines[p.row - 1][p.col - 1], p.c);
    }
    assert_eq!(text(&out), "int a; a = 10 b=a/2;");
    for w in out.windows(2) {
        assert!(!(w[0].c == '/' && (w[1].c == '/' || w[1].c == '*')));
    }
}

#[test]
fn unterminated_block_comment_fails_at_end() {
    assert_eq!(
        preprocess("a /* b".to_string()),
        Err(PreprocessError::EofWhileBlockComment { row: 1, col: 7 })
    );
    assert_eq!(
        preprocess("a\n/* x\n yz".to_string()),
        Err(PreprocessError::EofWhileBlockComment { row: 3, col: 4 })
    );
}

#[test]
fn input_ending_after_star_in_block_comment_fails() {
    assert_eq!(
        preprocess("/* *".to_string()),
        Err(PreprocessError::EofWhileBlockComment { row: 1, col: 5 })
    );
}

#[test]
fn dangling_slash_at_end_is_kept() {
    assert_eq!(preprocess("a/".to_string()).unwrap(), [pc('a', 1, 1), pc('/', 1, 2)]);
    assert_eq!(preprocess("/".to_string()).unwrap(), [pc('/', 1, 1)]);
}

#[test]
fn slash_before_other_character_is_kept() {
    assert_eq!(
        preprocess("a/b".to_string()).unwrap(),
        [pc('a', 1, 1), pc('/', 1, 2), pc('b', 1, 3)]
    );
    assert_eq!(
        preprocess("a/\nb".to_string()).unwrap(),
        [pc('a', 1, 1), pc('/', 1, 2), pc(' ', 1, 3), pc('b', 2, 1)]
    );
}

#[test]
fn whitespace_collapses_and_is_trimmed() {
    assert_eq!(preprocess("".to_string()).unwrap(), []);
    assert_eq!(preprocess("  \n \n".to_string()).unwrap(), []);
    assert_eq!(
        preprocess("  a \n\n  b  ".to_string()).unwrap(),
        [pc('a', 1, 3), pc(' ', 1, 4), pc('b', 3, 3)]
    );
}

#[test]
fn star_inside_block_comment_does_not_close_it() {
    assert_eq!(
        preprocess("a/* * *\n*/b".to_string()).unwrap(),
        [pc('a', 1, 1), pc(' ', 1, 2), pc('b', 2, 3)]
    );
}

#[test]
fn preprocessing_twice_keeps_the_text() {
    for source in ["int a;\n  a = 1 / 2;  \n", "x  y\n\nz", "a/ b", "p/", "  q\n", "a/**/b//c\nd"] {
        let once = text(&preprocess(source.to_string()).unwrap());
        let twice = text(&preprocess(once.clone()).unwrap());
        assert_eq!(once, twice);
    }
}
