//! A maximal-munch lexer over preprocessed characters.

use vstd::prelude::*;
use vstd::string::StringExecFns;
use crate::preprocess::{PositionedChar, text_of};
use crate::token::{Ident, Kw, Lexeme, LiteralInt, Op, Sym, Token, TokenValue, TokenView, token_views};

verus! {

#[derive(Clone, Copy, Debug, PartialEq, Eq, Hash, Structural)]
pub enum LexError {
    /// A character that no token can start with or continue with here.
    UnexpectedChar { c: char, row: usize, col: usize },
    /// The input ended where a token could not end. No state of this lexer
    /// leads there: every partial token can be finished at the end.
    UnexpectedEof { row: usize, col: usize },
}

pub open spec fn is_digit(c: char) -> bool {
    '0' <= c <= '9'
}

/// A character that can start an identifier or keyword.
pub open spec fn is_word_start(c: char) -> bool {
    c == '_' || ('a' <= c <= 'z') || ('A' <= c <= 'Z')
}

/// A character that can continue an identifier or keyword.
pub open spec fn is_word_char(c: char) -> bool {
    is_word_start(c) || is_digit(c)
}

/// Whether `c` belongs to a run of digits (`digits`) or of word characters.
pub open spec fn in_run(c: char, digits: bool) -> bool {
    if digits {
        is_digit(c)
    } else {
        is_word_char(c)
    }
}

/// The end of the longest run that starts at `k` (digits, or word
/// characters).
pub open spec fn run_end(cs: Seq<PositionedChar>, k: int, digits: bool) -> int
    decreases cs.len() - k,
{
    if 0 <= k < cs.len() && in_run(cs[k].c, digits) {
        run_end(cs, k + 1, digits)
    } else {
        k
    }
}

pub open spec fn keyword_text(k: Kw) -> Seq<char> {
    match k {
        Kw::If => "if"@,
        Kw::Int => "int"@,
        Kw::For => "for"@,
        Kw::While => "while"@,
        Kw::Do => "do"@,
        Kw::Return => "return"@,
        Kw::Break => "break"@,
        Kw::Continue => "continue"@,
    }
}

/// The keyword spelled `w`, if any.
pub open spec fn keyword_of(w: Seq<char>) -> Option<Kw> {
    if w == keyword_text(Kw::If) {
        Some(Kw::If)
    } else if w == keyword_text(Kw::Int) {
        Some(Kw::Int)
    } else if w == keyword_text(Kw::For) {
        Some(Kw::For)
    } else if w == keyword_text(Kw::While) {
        Some(Kw::While)
    } else if w == keyword_text(Kw::Do) {
        Some(Kw::Do)
    } else if w == keyword_text(Kw::Return) {
        Some(Kw::Return)
    } else if w == keyword_text(Kw::Break) {
        Some(Kw::Break)
    } else if w == keyword_text(Kw::Continue) {
        Some(Kw::Continue)
    } else {
        None
    }
}

/// A word is a keyword if it spells one, else an identifier.
pub open spec fn word_lexeme(w: Seq<char>) -> Lexeme {
    match keyword_of(w) {
        Some(k) => Lexeme::Kw(k),
        None => Lexeme::Ident(w),
    }
}

/// The token that one character makes on its own, whatever follows it.
pub open spec fn single_lexeme(c: char) -> Option<Lexeme> {
    if c == '(' {
        Some(Lexeme::Sym(Sym::LeftParen))
    } else if c == ')' {
        Some(Lexeme::Sym(Sym::RightParen))
    } else if c == '[' {
        Some(Lexeme::Sym(Sym::LeftBracket))
    } else if c == ']' {
        Some(Lexeme::Sym(Sym::RightBracket))
    } else if c == '{' {
        Some(Lexeme::Sym(Sym::LeftBrace))
    } else if c == '}' {
        Some(Lexeme::Sym(Sym::RightBrace))
    } else if c == ',' {
        Some(Lexeme::Sym(Sym::Comma))
    } else if c == ';' {
        Some(Lexeme::Sym(Sym::Semicolon))
    } else if c == '+' {
        Some(Lexeme::Op(Op::Add))
    } else if c == '-' {
        Some(Lexeme::Op(Op::Sub))
    } else if c == '*' {
        Some(Lexeme::Op(Op::Mul))
    } else if c == '/' {
        Some(Lexeme::Op(Op::Div))
    } else if c == '%' {
        Some(Lexeme::Op(Op::Mod))
    } else {
        None
    }
}

/// For a character that is an operator alone and another one when `=`
/// follows it: both operators.
pub open spec fn operator_pair(c: char) -> Option<(Op, Op)> {
    if c == '=' {
        Some((Op::Assign, Op::Eq))
    } else if c == '>' {
        Some((Op::Gt, Op::Ge))
    } else if c == '<' {
        Some((Op::Lt, Op::Le))
    } else if c == '!' {
        Some((Op::Not, Op::Ne))
    } else {
        None
    }
}

pub open spec fn unexpected(p: PositionedChar) -> LexError {
    LexError::UnexpectedChar { c: p.c, row: p.row, col: p.col }
}

/// The token made of `cs[i..j]`, with the value `v`.
pub open spec fn token_at(cs: Seq<PositionedChar>, i: int, j: int, v: Lexeme) -> TokenView {
    TokenView { value: v, row: cs[i].row, col: cs[i].col, raw: text_of(cs.subrange(i, j)) }
}

/// The longest token that starts at `i`, and where the next one may start.
pub open spec fn scan_token(cs: Seq<PositionedChar>, i: int) -> Result<(TokenView, int), LexError> {
    let n = cs.len();
    let c = cs[i].c;
    if c == '0' {
        if i + 1 < n && is_word_char(cs[i + 1].c) {
            Err(unexpected(cs[i + 1]))
        } else {
            Ok((token_at(cs, i, i + 1, Lexeme::LiteralInt(text_of(cs.subrange(i, i + 1)))), i + 1))
        }
    } else if is_digit(c) {
        let j = run_end(cs, i + 1, true);
        if j < n && is_word_start(cs[j].c) {
            Err(unexpected(cs[j]))
        } else {
            Ok((token_at(cs, i, j, Lexeme::LiteralInt(text_of(cs.subrange(i, j)))), j))
        }
    } else if is_word_start(c) {
        let j = run_end(cs, i + 1, false);
        Ok((token_at(cs, i, j, word_lexeme(text_of(cs.subrange(i, j)))), j))
    } else if single_lexeme(c) is Some {
        Ok((token_at(cs, i, i + 1, single_lexeme(c)->Some_0), i + 1))
    } else if operator_pair(c) is Some {
        let (one, two) = operator_pair(c)->Some_0;
        if i + 1 < n && cs[i + 1].c == '=' {
            Ok((token_at(cs, i, i + 2, Lexeme::Op(two)), i + 2))
        } else {
            Ok((token_at(cs, i, i + 1, Lexeme::Op(one)), i + 1))
        }
    } else {
        Err(unexpected(cs[i]))
    }
}

/// `pre` followed by the tokens of `r`, or the error of `r`.
pub open spec fn prepend(pre: Seq<TokenView>, r: Result<Seq<TokenView>, LexError>) -> Result<
    Seq<TokenView>,
    LexError,
> {
    match r {
        Ok(rest) => Ok(pre + rest),
        Err(e) => Err(e),
    }
}

/// The tokens of `cs` from index `i` on: spaces separate tokens, and each
/// token is the longest that starts where it starts.
pub open spec fn lex_from(cs: Seq<PositionedChar>, i: int) -> Result<Seq<TokenView>, LexError>
    decreases cs.len() - i,
    via lex_from_decreases
{
    if i < 0 || i >= cs.len() {
        Ok(Seq::empty())
    } else if cs[i].c == ' ' {
        lex_from(cs, i + 1)
    } else {
        match scan_token(cs, i) {
            Ok((t, j)) => prepend(seq![t], lex_from(cs, j)),
            Err(e) => Err(e),
        }
    }
}

#[via_fn]
proof fn lex_from_decreases(cs: Seq<PositionedChar>, i: int) {
    if 0 <= i < cs.len() && cs[i].c != ' ' {
        lemma_scan_token_advances(cs, i);
    }
}

/// What lexing `cs` gives.
pub open spec fn lexed(cs: Seq<PositionedChar>) -> Result<Seq<TokenView>, LexError> {
    lex_from(cs, 0)
}

pub proof fn lemma_run_end(cs: Seq<PositionedChar>, k: int, digits: bool)
    requires
        0 <= k <= cs.len(),
    ensures
        k <= run_end(cs, k, digits) <= cs.len(),
        forall|m: int| k <= m < run_end(cs, k, digits) ==> in_run(#[trigger] cs[m].c, digits),
        run_end(cs, k, digits) < cs.len() ==> !in_run(cs[run_end(cs, k, digits)].c, digits),
    decreases cs.len() - k,
{
    if k < cs.len() && in_run(cs[k].c, digits) {
        lemma_run_end(cs, k + 1, digits);
    }
}

pub proof fn lemma_scan_token_advances(cs: Seq<PositionedChar>, i: int)
    requires
        0 <= i < cs.len(),
    ensures
        scan_token(cs, i) matches Ok((_, j)) ==> i < j <= cs.len(),
{
    lemma_run_end(cs, i + 1, true);
    lemma_run_end(cs, i + 1, false);
}

/// Relies on `String::push`: appends one character at the end.
#[verifier::external_body]
fn push_char(s: &mut String, c: char)
    ensures
        final(s)@ == old(s)@.push(c),
{
    s.push(c);
}

fn digit(c: char) -> (r: bool)
    ensures
        r == is_digit(c),
{
    '0' <= c && c <= '9'
}

fn word_start(c: char) -> (r: bool)
    ensures
        r == is_word_start(c),
{
    c == '_' || ('a' <= c && c <= 'z') || ('A' <= c && c <= 'Z')
}

fn word_char(c: char) -> (r: bool)
    ensures
        r == is_word_char(c),
{
    word_start(c) || digit(c)
}

fn continues_run(c: char, digits: bool) -> (r: bool)
    ensures
        r == in_run(c, digits),
{
    if digits {
        digit(c)
    } else {
        word_char(c)
    }
}

fn is_spelled(w: &String, lit: &str) -> (r: bool)
    ensures
        r == (w@ == lit@),
{
    let s = String::from_str(lit);
    *w == s
}

fn keyword(w: &String) -> (r: Option<Kw>)
    ensures
        r == keyword_of(w@),
{
    if is_spelled(w, "if") {
        Some(Kw::If)
    } else if is_spelled(w, "int") {
        Some(Kw::Int)
    } else if is_spelled(w, "for") {
        Some(Kw::For)
    } else if is_spelled(w, "while") {
        Some(Kw::While)
    } else if is_spelled(w, "do") {
        Some(Kw::Do)
    } else if is_spelled(w, "return") {
        Some(Kw::Return)
    } else if is_spelled(w, "break") {
        Some(Kw::Break)
    } else if is_spelled(w, "continue") {
        Some(Kw::Continue)
    } else {
        None
    }
}

fn single(c: char) -> (r: Option<TokenValue>)
    ensures
        match r {
            Some(v) => single_lexeme(c) == Some(v@),
            None => single_lexeme(c) is None,
        },
{
    match c {
        '(' => Some(TokenValue::Sym(Sym::LeftParen)),
        ')' => Some(TokenValue::Sym(Sym::RightParen)),
        '[' => Some(TokenValue::Sym(Sym::LeftBracket)),
        ']' => Some(TokenValue::Sym(Sym::RightBracket)),
        '{' => Some(TokenValue::Sym(Sym::LeftBrace)),
        '}' => Some(TokenValue::Sym(Sym::RightBrace)),
        ',' => Some(TokenValue::Sym(Sym::Comma)),
        ';' => Some(TokenValue::Sym(Sym::Semicolon)),
        '+' => Some(TokenValue::Op(Op::Add)),
        '-' => Some(TokenValue::Op(Op::Sub)),
        '*' => Some(TokenValue::Op(Op::Mul)),
        '/' => Some(TokenValue::Op(Op::Div)),
        '%' => Some(TokenValue::Op(Op::Mod)),
        _ => None,
    }
}

fn pair(c: char) -> (r: Option<(Op, Op)>)
    ensures
        r == operator_pair(c),
{
    match c {
        '=' => Some((Op::Assign, Op::Eq)),
        '>' => Some((Op::Gt, Op::Ge)),
        '<' => Some((Op::Lt, Op::Le)),
        '!' => Some((Op::Not, Op::Ne)),
        _ => None,
    }
}

/// Extends `raw`, which holds `cs[i]`, with the run that follows `cs[i]`.
fn extend_run(cs: &Vec<PositionedChar>, i: usize, raw: &mut String, digits: bool) -> (j: usize)
    requires
        i < cs.len(),
        old(raw)@ == text_of(cs@.subrange(i as int, i + 1)),
    ensures
        j == run_end(cs@, i + 1, digits),
        final(raw)@ == text_of(cs@.subrange(i as int, j as int)),
{
    let n = cs.len();
    let mut j = i + 1;
    while j < n && continues_run(cs[j].c, digits)
        invariant
            i < j <= n,
            n == cs.len(),
            run_end(cs@, j as int, digits) == run_end(cs@, i + 1, digits),
            raw@ == text_of(cs@.subrange(i as int, j as int)),
        decreases n - j,
    {
        push_char(raw, cs[j].c);
        assert(text_of(cs@.subrange(i as int, j + 1)) =~= text_of(cs@.subrange(i as int, j as int)).push(cs@[j as int].c));
        j = j + 1;
    }
    j
}

fn make_token(p: PositionedChar, token: TokenValue, raw: String) -> (t: Token)
    ensures
        t@ == (TokenView { value: token@, row: p.row, col: p.col, raw: raw@ }),
{
    Token { token, row: p.row, col: p.col, raw }
}

fn unexpected_at(p: PositionedChar) -> (e: LexError)
    ensures
        e == unexpected(p),
{
    LexError::UnexpectedChar { c: p.c, row: p.row, col: p.col }
}

/// Reads the longest token that starts at `i`.
fn next_token(cs: &Vec<PositionedChar>, i: usize) -> (r: Result<(Token, usize), LexError>)
    requires
        i < cs.len(),
    ensures
        match r {
            Ok((t, j)) => scan_token(cs@, i as int) == Ok::<(TokenView, int), LexError>((t@, j as int)),
            Err(e) => scan_token(cs@, i as int) == Err::<(TokenView, int), LexError>(e),
        },
{
    let n = cs.len();
    let p = cs[i];
    let mut raw = String::new();
    push_char(&mut raw, p.c);
    assert(text_of(cs@.subrange(i as int, i + 1)) =~= seq![p.c]);
    if p.c == '0' {
        if i + 1 < n && word_char(cs[i + 1].c) {
            return Err(unexpected_at(cs[i + 1]));
        }
        let value = raw.clone();
        return Ok((make_token(p, TokenValue::LiteralInt(LiteralInt { value }), raw), i + 1));
    }
    if digit(p.c) {
        let j = extend_run(cs, i, &mut raw, true);
        if j < n && word_start(cs[j].c) {
            return Err(unexpected_at(cs[j]));
        }
        let value = raw.clone();
        return Ok((make_token(p, TokenValue::LiteralInt(LiteralInt { value }), raw), j));
    }
    if word_start(p.c) {
        let j = extend_run(cs, i, &mut raw, false);
        let value = match keyword(&raw) {
            Some(k) => TokenValue::Kw(k),
            None => TokenValue::Ident(Ident { name: raw.clone() }),
        };
        return Ok((make_token(p, value, raw), j));
    }
    if let Some(v) = single(p.c) {
        return Ok((make_token(p, v, raw), i + 1));
    }
    if let Some((one, two)) = pair(p.c) {
        if i + 1 < n && cs[i + 1].c == '=' {
            push_char(&mut raw, '=');
            assert(raw@ =~= seq![p.c, '=']);
            assert(text_of(cs@.subrange(i as int, i + 2)) =~= seq![p.c, '=']);
            return Ok((make_token(p, TokenValue::Op(two), raw), i + 2));
        }
        return Ok((make_token(p, TokenValue::Op(one), raw), i + 1));
    }
    Err(unexpected_at(p))
}

/// Splits preprocessed characters into tokens. Spaces separate tokens; each
/// token is the longest that starts where it starts (`intx` is one
/// identifier); `0` cannot be followed by a digit or a letter, nor a number
/// by a letter.
pub fn lex(preprocessed: Vec<PositionedChar>) -> (r: Result<Vec<Token>, LexError>)
    ensures
        match r {
            Ok(ts) => lexed(preprocessed@) == Ok::<Seq<TokenView>, LexError>(token_views(ts@)),
            Err(e) => lexed(preprocessed@) == Err::<Seq<TokenView>, LexError>(e),
        },
{
    let n = preprocessed.len();
    let mut tokens: Vec<Token> = Vec::new();
    let mut i: usize = 0;
    assert(token_views(tokens@) =~= Seq::<TokenView>::empty());
    assert(prepend(Seq::empty(), lex_from(preprocessed@, 0)) =~= lex_from(preprocessed@, 0)) by {
        if let Ok(rest) = lex_from(preprocessed@, 0) {
            assert(Seq::<TokenView>::empty() + rest =~= rest);
        }
    }
    while i < n
        invariant
            i <= n,
            n == preprocessed.len(),
            lexed(preprocessed@) == prepend(token_views(tokens@), lex_from(preprocessed@, i as int)),
        decreases n - i,
    {
        if preprocessed[i].c == ' ' {
            i = i + 1;
        } else {
            proof {
                lemma_scan_token_advances(preprocessed@, i as int);
            }
            match next_token(&preprocessed, i) {
                Ok((t, j)) => {
                    let ghost pre = token_views(tokens@);
                    let ghost tv = t@;
                    tokens.push(t);
                    assert(token_views(tokens@) =~= pre.push(tv));
                    assert(prepend(pre, prepend(seq![tv], lex_from(preprocessed@, j as int))) == prepend(
                        pre.push(tv),
                        lex_from(preprocessed@, j as int),
                    )) by {
                        if let Ok(rest) = lex_from(preprocessed@, j as int) {
                            assert(pre + (seq![tv] + rest) =~= pre.push(tv) + rest);
                        }
                    }
                    i = j;
                },
                Err(e) => {
                    assert(lex_from(preprocessed@, i as int) == Err::<Seq<TokenView>, LexError>(e));
                    return Err(e);
                },
            }
        }
    }
    assert(token_views(tokens@) + Seq::<TokenView>::empty() =~= token_views(tokens@));
    Ok(tokens)
}

/// The raw texts of `ts`, joined in order.
pub open spec fn raw_text(ts: Seq<TokenView>) -> Seq<char>
    decreases ts.len(),
{
    if ts.len() == 0 {
        Seq::empty()
    } else {
        ts[0].raw + raw_text(ts.drop_first())
    }
}

/// `s` without its spaces.
pub open spec fn strip_spaces(s: Seq<char>) -> Seq<char>
    decreases s.len(),
{
    if s.len() == 0 {
        s
    } else if s[0] == ' ' {
        strip_spaces(s.drop_first())
    } else {
        seq![s[0]] + strip_spaces(s.drop_first())
    }
}

proof fn lemma_strip_concat(a: Seq<char>, b: Seq<char>)
    ensures
        strip_spaces(a + b) == strip_spaces(a) + strip_spaces(b),
    decreases a.len(),
{
    if a.len() == 0 {
        assert(a + b =~= b);
        assert(strip_spaces(a) + strip_spaces(b) =~= strip_spaces(b));
    } else {
        assert((a + b).drop_first() =~= a.drop_first() + b);
        lemma_strip_concat(a.drop_first(), b);
        if a[0] != ' ' {
            assert(seq![a[0]] + (strip_spaces(a.drop_first()) + strip_spaces(b)) =~= (seq![a[0]]
                + strip_spaces(a.drop_first())) + strip_spaces(b));
        }
    }
}

proof fn lemma_strip_no_space(a: Seq<char>)
    requires
        forall|m: int| 0 <= m < a.len() ==> #[trigger] a[m] != ' ',
    ensures
        strip_spaces(a) == a,
    decreases a.len(),
{
    if a.len() > 0 {
        lemma_strip_no_space(a.drop_first());
        assert(seq![a[0]] + a.drop_first() =~= a);
    }
}

proof fn lemma_token_has_no_space(cs: Seq<PositionedChar>, i: int)
    requires
        0 <= i < cs.len(),
        cs[i].c != ' ',
        scan_token(cs, i) is Ok,
    ensures
        forall|m: int|
            0 <= m < (scan_token(cs, i)->Ok_0).0.raw.len() ==> #[trigger] (scan_token(
                cs,
                i,
            )->Ok_0).0.raw[m] != ' ',
        (scan_token(cs, i)->Ok_0).0.raw == text_of(cs.subrange(i, (scan_token(cs, i)->Ok_0).1)),
{
    lemma_run_end(cs, i + 1, true);
    lemma_run_end(cs, i + 1, false);
    lemma_scan_token_advances(cs, i);
    let j = (scan_token(cs, i)->Ok_0).1;
    let raw = (scan_token(cs, i)->Ok_0).0.raw;
    assert forall|m: int| 0 <= m < raw.len() implies #[trigger] raw[m] != ' ' by {
        assert(raw[m] == cs[i + m].c);
    }
}

proof fn lemma_lex_from_covers(cs: Seq<PositionedChar>, i: int)
    requires
        0 <= i <= cs.len(),
        lex_from(cs, i) is Ok,
    ensures
        raw_text(lex_from(cs, i)->Ok_0) == strip_spaces(text_of(cs.subrange(i, cs.len() as int))),
    decreases cs.len() - i,
{
    let n = cs.len() as int;
    let text = text_of(cs.subrange(i, n));
    if i == n {
        assert(text =~= Seq::<char>::empty());
    } else if cs[i].c == ' ' {
        lemma_lex_from_covers(cs, i + 1);
        assert(text.drop_first() =~= text_of(cs.subrange(i + 1, n)));
    } else {
        lemma_scan_token_advances(cs, i);
        let (t, j) = scan_token(cs, i)->Ok_0;
        lemma_lex_from_covers(cs, j);
        lemma_token_has_no_space(cs, i);
        let rest = lex_from(cs, j)->Ok_0;
        assert(text =~= t.raw + text_of(cs.subrange(j, n)));
        lemma_strip_concat(t.raw, text_of(cs.subrange(j, n)));
        lemma_strip_no_space(t.raw);
        assert((seq![t] + rest).drop_first() =~= rest);
    }
}

/// Lexing loses nothing but spaces: joining the raw texts of the tokens, in
/// order, gives back the input with its spaces removed.
pub proof fn lemma_lex_covers_input(cs: Seq<PositionedChar>)
    requires
        lexed(cs) is Ok,
    ensures
        raw_text(lexed(cs)->Ok_0) == strip_spaces(text_of(cs)),
{
    lemma_lex_from_covers(cs, 0);
    assert(cs.subrange(0, cs.len() as int) =~= cs);
}

proof fn lemma_lex_from_errors(cs: Seq<PositionedChar>, i: int)
    ensures
        lex_from(cs, i) is Err ==> lex_from(cs, i)->Err_0 is UnexpectedChar,
    decreases cs.len() - i,
{
    if 0 <= i < cs.len() {
        if cs[i].c == ' ' {
            lemma_lex_from_errors(cs, i + 1);
        } else {
            lemma_scan_token_advances(cs, i);
            if let Ok((_, j)) = scan_token(cs, i) {
                lemma_lex_from_errors(cs, j);
            }
        }
    }
}

/// Every partial token can be finished where the input ends: lexing fails
/// only on an unexpected character, never with `UnexpectedEof`.
pub proof fn lemma_lex_fails_only_on_chars(cs: Seq<PositionedChar>)
    ensures
        lexed(cs) is Err ==> lexed(cs)->Err_0 is UnexpectedChar,
{
    lemma_lex_from_errors(cs, 0);
}

} // verus!
