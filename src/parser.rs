//! A table-driven LL(1) parser that records every step it takes.

use vstd::prelude::*;
use crate::grammar::{
    LL1ParseTable, Nonterminal, Term, Terminal, entry_lookup, expression_entries,
    expression_rules, ll1_entry, nt, terminal_of,
};
use crate::token::{Token, TokenView, token_views};

verus! {

/// What a step of the parser did: expand with a rule, match a terminal or
/// finish (`NoRule`), or fail.
#[derive(Clone, Copy, Debug, PartialEq, Eq, Structural)]
pub enum ParseTraceRowRule {
    Rule(usize),
    NoRule,
    Error,
}

/// The parser before one step: its stack (top last), the tokens not yet
/// matched (next first), and what the step did.
#[derive(Clone, Debug, PartialEq, Eq)]
pub struct ParseTraceRow {
    pub stack: Vec<Term>,
    pub input: Vec<Token>,
    pub rule: ParseTraceRowRule,
}

/// The rows of a parse, in order.
#[derive(Clone, Debug, PartialEq, Eq)]
pub struct ParseTrace(pub Vec<ParseTraceRow>);

#[derive(Clone, Debug, PartialEq, Eq)]
pub enum ParseError {
    /// A token that is no terminal of the grammar.
    InvalidToken { token: Token },
    /// A token that the grammar does not allow here.
    UnexpectedToken { token: Token },
    /// A token after a complete expression.
    ExtraToken { token: Token },
    /// The input ended before the expression was complete.
    UnexpectedEos,
}

pub struct RowView {
    pub stack: Seq<Term>,
    pub input: Seq<TokenView>,
    pub rule: ParseTraceRowRule,
}

pub enum ParseErrorView {
    InvalidToken(TokenView),
    UnexpectedToken(TokenView),
    ExtraToken(TokenView),
    UnexpectedEos,
}

impl View for ParseTraceRow {
    type V = RowView;

    open spec fn view(&self) -> RowView {
        RowView { stack: self.stack@, input: token_views(self.input@), rule: self.rule }
    }
}

pub open spec fn row_views(rows: Seq<ParseTraceRow>) -> Seq<RowView> {
    rows.map_values(|r: ParseTraceRow| r@)
}

impl View for ParseTrace {
    type V = Seq<RowView>;

    open spec fn view(&self) -> Seq<RowView> {
        row_views(self.0@)
    }
}

impl View for ParseError {
    type V = ParseErrorView;

    open spec fn view(&self) -> ParseErrorView {
        match self {
            ParseError::InvalidToken { token } => ParseErrorView::InvalidToken(token@),
            ParseError::UnexpectedToken { token } => ParseErrorView::UnexpectedToken(token@),
            ParseError::ExtraToken { token } => ParseErrorView::ExtraToken(token@),
            ParseError::UnexpectedEos => ParseErrorView::UnexpectedEos,
        }
    }
}

pub open spec fn outcome_view(r: Result<(), ParseError>) -> Result<(), ParseErrorView> {
    match r {
        Ok(()) => Ok(()),
        Err(e) => Err(e@),
    }
}

/// The index of the last token that is no terminal, if any.
pub open spec fn last_invalid(ts: Seq<TokenView>) -> Option<int>
    decreases ts.len(),
{
    if ts.len() == 0 {
        None
    } else if terminal_of(ts.last().value) is None {
        Some(ts.len() - 1)
    } else {
        last_invalid(ts.drop_last())
    }
}

/// The terminal that comes next at `pos`: that of the token there, or the
/// end of the input.
pub open spec fn lookahead(ts: Seq<TokenView>, pos: int) -> Terminal {
    if pos < ts.len() {
        terminal_of(ts[pos].value)->Some_0
    } else {
        Terminal::Eos
    }
}

pub open spec fn row(stack: Seq<Term>, ts: Seq<TokenView>, pos: int, rule: ParseTraceRowRule) -> RowView {
    RowView { stack, input: ts.subrange(pos, ts.len() as int), rule }
}

/// `r` followed by the rows of `rest`, with the outcome of `rest`.
pub open spec fn with_row(r: RowView, rest: (Seq<RowView>, Result<(), ParseErrorView>)) -> (
    Seq<RowView>,
    Result<(), ParseErrorView>,
) {
    (seq![r] + rest.0, rest.1)
}

/// How much expanding the nonterminal `n` may cost before a terminal comes
/// to the top of the stack.
pub open spec fn nt_weight(n: Nonterminal) -> nat {
    match n {
        Nonterminal::E => 5,
        Nonterminal::EPrime => 1,
        Nonterminal::T => 3,
        Nonterminal::TPrime => 1,
        Nonterminal::F => 1,
    }
}

/// The weights of the nonterminals above the topmost terminal of the stack.
/// Each expansion lowers it.
pub open spec fn pending_weight(stack: Seq<Term>) -> nat
    decreases stack.len(),
{
    if stack.len() == 0 {
        0
    } else {
        match stack.last() {
            Term::Terminal(_) => 0,
            Term::Nonterminal(n) => nt_weight(n) + pending_weight(stack.drop_last()),
        }
    }
}

/// The rows and the outcome of the parse from the stack `stack` (top last)
/// with the tokens from `pos` on still to match.
pub open spec fn parse_from(ts: Seq<TokenView>, stack: Seq<Term>, pos: int) -> (
    Seq<RowView>,
    Result<(), ParseErrorView>,
)
    decreases ts.len() - pos, pending_weight(stack),
    via parse_from_decreases
{
    if stack.len() == 0 {
        if pos == ts.len() {
            (seq![row(stack, ts, pos, ParseTraceRowRule::NoRule)], Ok(()))
        } else {
            (seq![row(stack, ts, pos, ParseTraceRowRule::Error)], Err(ParseErrorView::ExtraToken(ts[pos])))
        }
    } else {
        match stack.last() {
            Term::Terminal(t) => {
                if pos < ts.len() {
                    if t == lookahead(ts, pos) {
                        with_row(
                            row(stack, ts, pos, ParseTraceRowRule::NoRule),
                            parse_from(ts, stack.drop_last(), pos + 1),
                        )
                    } else {
                        (
                            seq![row(stack, ts, pos, ParseTraceRowRule::Error)],
                            Err(ParseErrorView::UnexpectedToken(ts[pos])),
                        )
                    }
                } else {
                    (seq![row(stack, ts, pos, ParseTraceRowRule::Error)], Err(ParseErrorView::UnexpectedEos))
                }
            },
            Term::Nonterminal(n) => match ll1_entry(n, lookahead(ts, pos)) {
                Some(k) => with_row(
                    row(stack, ts, pos, ParseTraceRowRule::Rule(k)),
                    parse_from(ts, stack.drop_last() + expression_rules()[k as int].1.reverse(), pos),
                ),
                None => (
                    seq![row(stack, ts, pos, ParseTraceRowRule::Error)],
                    if pos < ts.len() {
                        Err(ParseErrorView::UnexpectedToken(ts[pos]))
                    } else {
                        Err(ParseErrorView::UnexpectedEos)
                    },
                ),
            },
        }
    }
}

#[via_fn]
proof fn parse_from_decreases(ts: Seq<TokenView>, stack: Seq<Term>, pos: int) {
    if stack.len() > 0 {
        if let Term::Nonterminal(n) = stack.last() {
            if let Some(k) = ll1_entry(n, lookahead(ts, pos)) {
                lemma_ll1_entry_rule(n, lookahead(ts, pos));
                lemma_expansion_weight(stack, n, k as int);
            }
        }
    }
}

/// The trace and the outcome of parsing `ts`: a token that is no terminal
/// stops the parse before its first step (the last such token is
/// reported); otherwise the parse starts from the stack `E`.
pub open spec fn parsed(ts: Seq<TokenView>) -> (Seq<RowView>, Result<(), ParseErrorView>) {
    match last_invalid(ts) {
        Some(k) => (Seq::empty(), Err(ParseErrorView::InvalidToken(ts[k]))),
        None => parse_from(ts, seq![nt(Nonterminal::E)], 0),
    }
}

proof fn lemma_entry_lookup_found(e: Seq<(Nonterminal, Terminal, usize)>, n: Nonterminal, t: Terminal)
    ensures
        entry_lookup(e, n, t) matches Some(k) ==> exists|i: int|
            0 <= i < e.len() && #[trigger] e[i] == (n, t, k),
    decreases e.len(),
{
    if e.len() > 0 {
        if e[0].0 == n && e[0].1 == t {
            assert(e[0] == (n, t, e[0].2));
        } else {
            lemma_entry_lookup_found(e.drop_first(), n, t);
            if let Some(k) = entry_lookup(e, n, t) {
                let i = choose|i: int| 0 <= i < e.drop_first().len() && #[trigger] e.drop_first()[i] == (n, t, k);
                assert(e[i + 1] == (n, t, k));
            }
        }
    }
}

/// Each entry of the table names a rule for its own nonterminal.
proof fn lemma_ll1_entry_rule(n: Nonterminal, t: Terminal)
    ensures
        ll1_entry(n, t) matches Some(k) ==> k < 9 && expression_rules()[k as int].0 == n,
{
    lemma_entry_lookup_found(expression_entries(), n, t);
    let e = expression_entries();
    let r = expression_rules();
    assert forall|i: int| 0 <= i < e.len() implies e[i].2 < 9 && r[e[i].2 as int].0 == e[i].0 by {
        if i == 0 {} else if i == 1 {} else if i == 2 {} else if i == 3 {} else if i == 4 {}
        else if i == 5 {} else if i == 6 {} else if i == 7 {} else if i == 8 {} else if i == 9 {}
        else if i == 10 {} else if i == 11 {} else if i == 12 {} else if i == 13 {} else if i == 14 {}
        else {}
    }
}

proof fn lemma_weight_push(s: Seq<Term>, x: Term)
    ensures
        pending_weight(s.push(x)) == match x {
            Term::Terminal(_) => 0,
            Term::Nonterminal(n) => nt_weight(n) + pending_weight(s),
        },
{
    assert(s.push(x).drop_last() =~= s);
}

proof fn lemma_expansion_weight(stack: Seq<Term>, n: Nonterminal, k: int)
    requires
        stack.len() > 0,
        stack.last() == nt(n),
        0 <= k < 9,
        expression_rules()[k].0 == n,
    ensures
        pending_weight(stack.drop_last() + expression_rules()[k].1.reverse()) < pending_weight(stack),
{
    let base = stack.drop_last();
    let rhs = expression_rules()[k].1;
    let next = base + rhs.reverse();
    assert(pending_weight(stack) == nt_weight(n) + pending_weight(base));
    if rhs.len() == 0 {
        assert(next =~= base);
    } else if rhs.len() == 1 {
        assert(next =~= base.push(rhs[0]));
        lemma_weight_push(base, rhs[0]);
    } else if rhs.len() == 2 {
        assert(next =~= base.push(rhs[1]).push(rhs[0]));
        lemma_weight_push(base, rhs[1]);
        lemma_weight_push(base.push(rhs[1]), rhs[0]);
    } else {
        assert(next =~= base.push(rhs[2]).push(rhs[1]).push(rhs[0]));
        lemma_weight_push(base.push(rhs[2]).push(rhs[1]), rhs[0]);
    }
}

proof fn lemma_no_invalid(ts: Seq<TokenView>)
    requires
        last_invalid(ts) is None,
    ensures
        forall|m: int| 0 <= m < ts.len() ==> terminal_of(#[trigger] ts[m].value) is Some,
    decreases ts.len(),
{
    if ts.len() > 0 {
        lemma_no_invalid(ts.drop_last());
        assert forall|m: int| 0 <= m < ts.len() implies terminal_of(#[trigger] ts[m].value) is Some by {
            if m < ts.len() - 1 {
                assert(ts.drop_last()[m] == ts[m]);
            }
        }
    }
}

fn copy_terms(v: &Vec<Term>) -> (r: Vec<Term>)
    ensures
        r@ == v@,
{
    let mut r: Vec<Term> = Vec::new();
    let mut i: usize = 0;
    while i < v.len()
        invariant
            i <= v.len(),
            r@ == v@.take(i as int),
        decreases v.len() - i,
    {
        r.push(v[i]);
        i = i + 1;
        assert(r@ =~= v@.take(i as int));
    }
    assert(v@.take(i as int) =~= v@);
    r
}

/// The tokens of `input` from `pos` on.
fn suffix(input: &Vec<Token>, pos: usize) -> (r: Vec<Token>)
    requires
        pos <= input.len(),
    ensures
        token_views(r@) == token_views(input@).subrange(pos as int, input.len() as int),
{
    let mut r: Vec<Token> = Vec::new();
    let mut i: usize = pos;
    while i < input.len()
        invariant
            pos <= i <= input.len(),
            token_views(r@) == token_views(input@).subrange(pos as int, i as int),
        decreases input.len() - i,
    {
        let ghost before = r@;
        r.push(input[i].duplicate());
        assert(token_views(r@) =~= token_views(before).push(input@[i as int]@));
        assert(token_views(input@).subrange(pos as int, i + 1) =~= token_views(input@).subrange(
            pos as int,
            i as int,
        ).push(input@[i as int]@));
        i = i + 1;
    }
    r
}

fn make_row(stack: &Vec<Term>, input: &Vec<Token>, pos: usize, rule: ParseTraceRowRule) -> (r: ParseTraceRow)
    requires
        pos <= input.len(),
    ensures
        r@ == row(stack@, token_views(input@), pos as int, rule),
{
    ParseTraceRow { stack: copy_terms(stack), input: suffix(input, pos), rule }
}

/// Parses `input` with the LL(1) table of the expression grammar, from the
/// stack that holds the start symbol. Each step is recorded in the trace
/// before it is taken: expanding the nonterminal on top with the rule that
/// the table gives for the next terminal, or matching the terminal on top.
/// The parse fails on a token that is no terminal (with an empty trace), on
/// a token that the table or the terminal on top does not allow, on input
/// left when the stack is empty, and on input that ends too early; the
/// trace then ends with an error row. A successful parse ends with a row for
/// the empty stack and the empty input.
pub fn parse(parse_table: LL1ParseTable, input: Vec<Token>) -> (r: (ParseTrace, Result<(), ParseError>))
    requires
        parse_table.is_expression_table(),
    ensures
        r.0@ == parsed(token_views(input@)).0,
        outcome_view(r.1) == parsed(token_views(input@)).1,
        last_invalid(token_views(input@)) is Some ==> r.0@.len() == 0 && r.1 matches Err(
            ParseError::InvalidToken { .. },
        ),
{
    let ghost ts = token_views(input@);
    let n = input.len();
    let mut k = n;
    assert(ts.take(n as int) =~= ts);
    while k > 0
        invariant
            k <= n,
            n == input.len(),
            ts == token_views(input@),
            last_invalid(ts) == last_invalid(ts.take(k as int)),
        decreases k,
    {
        assert(ts.take(k as int).drop_last() =~= ts.take(k - 1));
        if Terminal::of_token(&input[k - 1]).is_none() {
            let none: Vec<ParseTraceRow> = Vec::new();
            assert(row_views(none@) =~= Seq::<RowView>::empty());
            return (ParseTrace(none), Err(ParseError::InvalidToken { token: input[k - 1].duplicate() }));
        }
        k = k - 1;
    }
    assert(ts.take(0) =~= Seq::<TokenView>::empty());
    proof {
        lemma_no_invalid(ts);
    }
    let mut terms: Vec<Terminal> = Vec::new();
    let mut m: usize = 0;
    while m < n
        invariant
            m <= n,
            n == input.len(),
            ts == token_views(input@),
            forall|j: int| 0 <= j < n ==> terminal_of(#[trigger] ts[j].value) is Some,
            terms@.len() == m,
            forall|j: int| 0 <= j < m ==> terms@[j] == terminal_of(#[trigger] ts[j].value)->Some_0,
        decreases n - m,
    {
        assert(ts[m as int] == input@[m as int]@);
        let t = Terminal::of_token(&input[m]);
        terms.push(t.unwrap());
        m = m + 1;
    }
    let mut trace: Vec<ParseTraceRow> = Vec::new();
    let mut stack: Vec<Term> = Vec::new();
    stack.push(Term::Nonterminal(parse_table.start));
    let mut pos: usize = 0;
    assert(stack@ =~= seq![nt(Nonterminal::E)]);
    assert(row_views(trace@) + parse_from(ts, stack@, 0).0 =~= parse_from(ts, stack@, 0).0);
    loop
        invariant
            pos <= n,
            n == input.len(),
            ts == token_views(input@),
            terms@.len() == n,
            forall|j: int| 0 <= j < n ==> terms@[j] == lookahead(ts, j),
            parse_table.is_expression_table(),
            last_invalid(ts) is None,
            parse_from(ts, seq![nt(Nonterminal::E)], 0) == (
                row_views(trace@) + parse_from(ts, stack@, pos as int).0,
                parse_from(ts, stack@, pos as int).1,
            ),
        decreases n - pos, pending_weight(stack@),
    {
        let ghost before = row_views(trace@);
        let ghost rest = parse_from(ts, stack@, pos as int);
        if stack.len() == 0 {
            if pos == n {
                trace.push(make_row(&stack, &input, pos, ParseTraceRowRule::NoRule));
                assert(row_views(trace@) =~= before + rest.0);
                return (ParseTrace(trace), Ok(()));
            }
            trace.push(make_row(&stack, &input, pos, ParseTraceRowRule::Error));
            assert(row_views(trace@) =~= before + rest.0);
            return (ParseTrace(trace), Err(ParseError::ExtraToken { token: input[pos].duplicate() }));
        }
        let top = stack[stack.len() - 1];
        let la = if pos < n {
            terms[pos]
        } else {
            Terminal::Eos
        };
        assert(la == lookahead(ts, pos as int));
        match top {
            Term::Terminal(t) => {
                if pos < n {
                    if t == la {
                        let step = make_row(&stack, &input, pos, ParseTraceRowRule::NoRule);
                        trace.push(step);
                        stack.pop();
                        pos = pos + 1;
                        assert(row_views(trace@) + parse_from(ts, stack@, pos as int).0 =~= before
                            + rest.0);
                    } else {
                        trace.push(make_row(&stack, &input, pos, ParseTraceRowRule::Error));
                        assert(row_views(trace@) =~= before + rest.0);
                        return (
                            ParseTrace(trace),
                            Err(ParseError::UnexpectedToken { token: input[pos].duplicate() }),
                        );
                    }
                } else {
                    trace.push(make_row(&stack, &input, pos, ParseTraceRowRule::Error));
                    assert(row_views(trace@) =~= before + rest.0);
                    return (ParseTrace(trace), Err(ParseError::UnexpectedEos));
                }
            },
            Term::Nonterminal(n_top) => {
                match parse_table.lookup(n_top, la) {
                    Some(index) => {
                        proof {
                            lemma_ll1_entry_rule(n_top, la);
                            lemma_expansion_weight(stack@, n_top, index as int);
                            assert(expression_rules().len() == 9);
                            assert(parse_table.rules_view().len() == parse_table.rules@.len());
                        }
                        trace.push(make_row(&stack, &input, pos, ParseTraceRowRule::Rule(index)));
                        stack.pop();
                        let ghost base = stack@;
                        assert(parse_table.rules_view()[index as int] == parse_table.rules@[index as int].view());
                        let rhs = &parse_table.rules[index].rhs;
                        let mut j = rhs.len();
                        assert(rhs@.subrange(j as int, rhs@.len() as int).reverse() =~= Seq::<Term>::empty());
                        assert(base + Seq::<Term>::empty() =~= base);
                        while j > 0
                            invariant
                                j <= rhs@.len(),
                                stack@ == base + rhs@.subrange(j as int, rhs@.len() as int).reverse(),
                            decreases j,
                        {
                            j = j - 1;
                            stack.push(rhs[j]);
                            assert(rhs@.subrange(j as int, rhs@.len() as int).reverse() =~= rhs@.subrange(
                                j + 1,
                                rhs@.len() as int,
                            ).reverse().push(rhs@[j as int]));
                        }
                        assert(rhs@.subrange(0, rhs@.len() as int) =~= rhs@);
                        assert(row_views(trace@) + parse_from(ts, stack@, pos as int).0 =~= before
                            + rest.0);
                    },
                    None => {
                        trace.push(make_row(&stack, &input, pos, ParseTraceRowRule::Error));
                        assert(row_views(trace@) =~= before + rest.0);
                        if pos < n {
                            return (
                                ParseTrace(trace),
                                Err(ParseError::UnexpectedToken { token: input[pos].duplicate() }),
                            );
                        }
                        return (ParseTrace(trace), Err(ParseError::UnexpectedEos));
                    },
                }
            },
        }
    }
}

} // verus!
