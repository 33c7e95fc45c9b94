use lexparse::{lex, preprocess, Ident, Kw, LexError, LiteralInt, Op, PositionedChar, Sym, Token, TokenValue};

fn lex_str(s: &str) -> Result<Vec<Token>, LexError> {
    lex(preprocess(s.to_string()).unwrap())
}

fn values(ts: &[Token]) -> Vec<TokenValue> {
    ts.iter().map(|t| t.token.clone()).collect()
}

fn ident(name: &str) -> TokenValue {
    TokenValue::Ident(Ident { name: name.to_string() })
}

fn literal(value: &str) -> TokenValue {
    TokenValue::LiteralInt(LiteralInt { value: value.to_string() })
}

#[test]
fn test_lex() {
    let source = "a/**/b\n".to_string();
    let preprocessed = preprocess(source).unwrap();
    assert_eq!(
        preprocessed,
        [
            PositionedChar { c: 'a', row: 1, col: 1 },
            PositionedChar { c: ' ', row: 1, col: 2 },
            PositionedChar { c: 'b', row: 1, col: 6 },
        ]
    );
    let tokens = lex(preprocessed).unwrap();
    assert_eq!(
        tokens,
        [
            Token {
                token: TokenValue::Ident(Ident { name: "a".to_string() }),
                row: 1,
                col: 1,
                raw: "a".to_string()
            },
            Token {
                token: TokenValue::Ident(Ident { name: "b".to_string() }),
                row: 1,
                col: 6,
                raw: "b".to_string()
            },
        ]
    );
}

#[test]
fn longest_word_wins_over_keyword() {
    let tokens = lex_str("intx").unwrap();
    assert_eq!(
        tokens,
        [Token { token: ident("intx"), row: 1, col: 1, raw: "intx".to_string() }]
    );
    assert_eq!(
        values(&lex_str("int x").unwrap()),
        [TokenValue::Kw(Kw::Int), ident("x")]
    );
}

#[test]
fn every_keyword_is_recognised() {
    assert_eq!(
        values(&lex_str("if int for while do return break continue").unwrap()),
        [
            TokenValue::Kw(Kw::If),
            TokenValue::Kw(Kw::Int),
            TokenValue::Kw(Kw::For),
            TokenValue::Kw(Kw::While),
            TokenValue::Kw(Kw::Do),
            TokenValue::Kw(Kw::Return),
            TokenValue::Kw(Kw::Break),
            TokenValue::Kw(Kw::Continue),
        ]
    );
    assert_eq!(
        values(&lex_str("i in fo whil d retur brea continu _if If").unwrap()),
        ["i", "in", "fo", "whil", "d", "retur", "brea", "continu", "_if", "If"].map(ident)
    );
}

#[test]
fn leading_zero_followed_by_digit_fails() {
    assert_eq!(
        lex_str("0123").unwrap_err(),
        LexError::UnexpectedChar { c: '1', row: 1, col: 2 }
    );
    assert_eq!(
        lex_str("0x").unwrap_err(),
        LexError::UnexpectedChar { c: 'x', row: 1, col: 2 }
    );
}

#[test]
fn number_followed_by_letter_fails() {
    assert_eq!(
        lex_str("x = 12ab").unwrap_err(),
        LexError::UnexpectedChar { c: 'a', row: 1, col: 7 }
    );
}

#[test]
fn unknown_character_fails() {
    assert_eq!(
        lex_str("a\n  @").unwrap_err(),
        LexError::UnexpectedChar { c: '@', row: 2, col: 3 }
    );
}

#[test]
fn numbers_are_read_whole() {
    let tokens = lex_str("0 10 (0) 907").unwrap();
    assert_eq!(
        values(&tokens),
        [
            literal("0"),
            literal("10"),
            TokenValue::Sym(Sym::LeftParen),
            literal("0"),
            TokenValue::Sym(Sym::RightParen),
            literal("907"),
        ]
    );
    assert_eq!(tokens[1].raw, "10");
    assert_eq!(tokens[5].col, 10);
}

#[test]
fn operators_of_one_and_two_characters() {
    let tokens = lex_str(">= <= == != = > < ! a>=b=c+-*/%").unwrap();
    assert_eq!(
        values(&tokens),
        [
            TokenValue::Op(Op::Ge),
            TokenValue::Op(Op::Le),
            TokenValue::Op(Op::Eq),
            TokenValue::Op(Op::Ne),
            TokenValue::Op(Op::Assign),
            TokenValue::Op(Op::Gt),
            TokenValue::Op(Op::Lt),
            TokenValue::Op(Op::Not),
            ident("a"),
            TokenValue::Op(Op::Ge),
            ident("b"),
            TokenValue::Op(Op::Assign),
            ident("c"),
            TokenValue::Op(Op::Add),
            TokenValue::Op(Op::Sub),
            TokenValue::Op(Op::Mul),
            TokenValue::Op(Op::Div),
            TokenValue::Op(Op::Mod),
        ]
    );
    assert_eq!(tokens[0].raw, ">=");
    assert_eq!(tokens[9].raw, ">=");
    assert_eq!(tokens[9].col, 22);
}

#[test]
fn symbols() {
    assert_eq!(
        values(&lex_str("()[]{},;").unwrap()),
        [
            TokenValue::Sym(Sym::LeftParen),
            TokenValue::Sym(Sym::RightParen),
            TokenValue::Sym(Sym::LeftBracket),
            TokenValue::Sym(Sym::RightBracket),
            TokenValue::Sym(Sym::LeftBrace),
            TokenValue::Sym(Sym::RightBrace),
            TokenValue::Sym(Sym::Comma),
            TokenValue::Sym(Sym::Semicolon),
        ]
    );
}

#[test]
fn raw_texts_rebuild_the_input_without_spaces() {
    let source = "main()\n{\n    int a, b;\n    a = 10;\n    b = a + 20; /* sum */ if(a>=b)return 0;\n}\n";
    let pre = preprocess(source.to_string()).unwrap();
    let without_spaces: String = pre.iter().map(|p| p.c).filter(|c| *c != ' ').collect();
    let tokens = lex(pre).unwrap();
    let joined: String = tokens.iter().map(|t| t.raw.as_str()).collect();
    assert_eq!(joined, without_spaces);
}

#[test]
fn empty_input_gives_no_tokens() {
    assert_eq!(lex(vec![]).unwrap(), []);
}
