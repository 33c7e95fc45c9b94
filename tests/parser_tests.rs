use lexparse::{
    lex, parse, preprocess, LL1ParseTable, Nonterminal, ParseError, ParseTraceRowRule, Term,
    Terminal, Token,
};

fn tokens(s: &str) -> Vec<Token> {
    lex(preprocess(s.to_string()).unwrap()).unwrap()
}

fn rules_used(s: &str) -> Vec<usize> {
    let (trace, _) = parse(LL1ParseTable::default(), tokens(s));
    trace
        .0
        .iter()
        .filter_map(|r| match r.rule {
            ParseTraceRowRule::Rule(k) => Some(k),
            _ => None,
        })
        .collect()
}

#[test]
fn test_parse() {
    let source = "a + b\n".to_string();
    let preprocessed = preprocess(source).unwrap();
    let tokens = lex(preprocessed).unwrap();
    let (_trace, result) = parse(LL1ParseTable::default(), tokens);
    result.unwrap();
}

#[test]
fn sum_of_two_identifiers_uses_the_expected_rules() {
    let (trace, result) = parse(LL1ParseTable::default(), tokens("a + b"));
    assert_eq!(result, Ok(()));
    assert_eq!(rules_used("a + b"), [0, 3, 7, 5, 1, 3, 7, 5, 2]);
    assert_eq!(trace.0.len(), 13);
    let first = &trace.0[0];
    assert_eq!(first.stack, [Term::Nonterminal(Nonterminal::E)]);
    assert_eq!(first.input.len(), 3);
    let last = trace.0.last().unwrap();
    assert!(last.stack.is_empty());
    assert!(last.input.is_empty());
    assert_eq!(last.rule, ParseTraceRowRule::NoRule);
    assert_eq!(
        trace.0[1].stack,
        [Term::Nonterminal(Nonterminal::EPrime), Term::Nonterminal(Nonterminal::T)]
    );
}

#[test]
fn products_and_parentheses() {
    let (_, result) = parse(LL1ParseTable::default(), tokens("(a + 1) * 2"));
    assert_eq!(result, Ok(()));
    assert_eq!(
        rules_used("x * 3"),
        [0, 3, 7, 4, 8, 5, 2]
    );
}

#[test]
fn empty_input_fails_at_end_of_stream() {
    let (trace, result) = parse(LL1ParseTable::default(), vec![]);
    assert_eq!(result, Err(ParseError::UnexpectedEos));
    assert_eq!(trace.0.len(), 1);
    assert_eq!(trace.0[0].rule, ParseTraceRowRule::Error);
}

#[test]
fn keyword_is_an_invalid_token() {
    let ts = tokens("a + while");
    let (trace, result) = parse(LL1ParseTable::default(), ts.clone());
    assert!(trace.0.is_empty());
    assert_eq!(result, Err(ParseError::InvalidToken { token: ts[2].clone() }));
}

#[test]
fn last_invalid_token_is_reported() {
    let ts = tokens("if a - b");
    let (trace, result) = parse(LL1ParseTable::default(), ts.clone());
    assert!(trace.0.is_empty());
    assert_eq!(result, Err(ParseError::InvalidToken { token: ts[2].clone() }));
}

#[test]
fn token_after_complete_expression_is_extra() {
    let ts = tokens("a b");
    let (trace, result) = parse(LL1ParseTable::default(), ts.clone());
    assert_eq!(result, Err(ParseError::UnexpectedToken { token: ts[1].clone() }));
    assert_eq!(trace.0.last().unwrap().rule, ParseTraceRowRule::Error);
}

#[test]
fn unmatched_close_paren_is_extra() {
    let ts = tokens("a )");
    let (_, result) = parse(LL1ParseTable::default(), ts.clone());
    assert_eq!(result, Err(ParseError::ExtraToken { token: ts[1].clone() }));
}

#[test]
fn missing_operand_is_unexpected_end() {
    let (trace, result) = parse(LL1ParseTable::default(), tokens("a +"));
    assert_eq!(result, Err(ParseError::UnexpectedEos));
    assert_eq!(trace.0.last().unwrap().rule, ParseTraceRowRule::Error);
}

#[test]
fn missing_close_paren_is_unexpected_end() {
    let (_, result) = parse(LL1ParseTable::default(), tokens("(a"));
    assert_eq!(result, Err(ParseError::UnexpectedEos));
}

#[test]
fn token_without_table_entry_is_unexpected() {
    let ts = tokens("(a 1");
    let (trace, result) = parse(LL1ParseTable::default(), ts.clone());
    assert_eq!(result, Err(ParseError::UnexpectedToken { token: ts[2].clone() }));
    let last = trace.0.last().unwrap();
    assert_eq!(last.stack.last(), Some(&Term::Nonterminal(Nonterminal::TPrime)));
    assert_eq!(last.input, [ts[2].clone()]);
}

#[test]
fn terminal_of_token() {
    let ts = tokens("a 1 ( ) + * - ;");
    let got: Vec<Option<Terminal>> = ts.iter().map(Terminal::of_token).collect();
    assert_eq!(
        got,
        [
            Some(Terminal::Ident),
            Some(Terminal::LiteralInt),
            Some(Terminal::Sym(lexparse::Sym::LeftParen)),
            Some(Terminal::Sym(lexparse::Sym::RightParen)),
            Some(Terminal::Op(lexparse::Op::Add)),
            Some(Terminal::Op(lexparse::Op::Mul)),
            None,
            None,
        ]
    );
}

#[test]
fn default_table_lookups() {
    let table = LL1ParseTable::default();
    assert_eq!(table.rules.len(), 9);
    assert_eq!(table.lookup(Nonterminal::TPrime, Terminal::Op(lexparse::Op::Mul)), Some(4));
    assert_eq!(table.lookup(Nonterminal::EPrime, Terminal::Eos), Some(2));
    assert_eq!(table.lookup(Nonterminal::E, Terminal::Eos), None);
    assert_eq!(table.lookup(Nonterminal::F, Terminal::LiteralInt), Some(8));
}
