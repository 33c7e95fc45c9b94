//! The LL(1) grammar of arithmetic expressions and its parse table.

use vstd::prelude::*;
use crate::token::{Lexeme, Op, Sym, Token};

verus! {

/// The parser's view of a token, and the end of the input.
#[derive(Clone, Copy, Debug, PartialEq, Eq, Hash, Structural)]
pub enum Terminal {
    Ident,
    Sym(Sym),
    Op(Op),
    LiteralInt,
    /// End of input stream
    Eos,
}

/// The nonterminals `E`, `E'`, `T`, `T'` and `F`.
#[derive(Clone, Copy, Debug, PartialEq, Eq, Hash, Structural)]
pub enum Nonterminal {
    E,
    EPrime,
    T,
    TPrime,
    F,
}

/// A grammar symbol.
#[derive(Clone, Copy, Debug, PartialEq, Eq, Hash, Structural)]
pub enum Term {
    Terminal(Terminal),
    Nonterminal(Nonterminal),
}

/// A production `lhs ::= rhs`; an empty `rhs` is an epsilon production.
#[derive(Clone, Debug, PartialEq, Eq)]
pub struct LL1Rule {
    pub lhs: Nonterminal,
    pub rhs: Vec<Term>,
}

/// The start symbol, the rules, and the table that maps a nonterminal and
/// a lookahead terminal to the index of the rule to expand with.
#[derive(Clone, Debug, PartialEq, Eq)]
pub struct LL1ParseTable {
    pub start: Nonterminal,
    pub rules: Vec<LL1Rule>,
    pub table: Vec<(Nonterminal, Terminal, usize)>,
}

/// The terminal that a token stands for; `None` for a token that is no
/// symbol of this grammar.
pub open spec fn terminal_of(v: Lexeme) -> Option<Terminal> {
    match v {
        Lexeme::Ident(_) => Some(Terminal::Ident),
        Lexeme::Sym(Sym::LeftParen) => Some(Terminal::Sym(Sym::LeftParen)),
        Lexeme::Sym(Sym::RightParen) => Some(Terminal::Sym(Sym::RightParen)),
        Lexeme::Op(Op::Add) => Some(Terminal::Op(Op::Add)),
        Lexeme::Op(Op::Mul) => Some(Terminal::Op(Op::Mul)),
        Lexeme::LiteralInt(_) => Some(Terminal::LiteralInt),
        _ => None,
    }
}

impl Terminal {
    /// The terminal that `token` stands for, if any.
    pub fn of_token(token: &Token) -> (r: Option<Terminal>)
        ensures
            r == terminal_of(token@.value),
    {
        match &token.token {
            crate::token::TokenValue::Ident(_) => Some(Terminal::Ident),
            crate::token::TokenValue::Sym(Sym::LeftParen) => Some(Terminal::Sym(Sym::LeftParen)),
            crate::token::TokenValue::Sym(Sym::RightParen) => Some(Terminal::Sym(Sym::RightParen)),
            crate::token::TokenValue::Op(Op::Add) => Some(Terminal::Op(Op::Add)),
            crate::token::TokenValue::Op(Op::Mul) => Some(Terminal::Op(Op::Mul)),
            crate::token::TokenValue::LiteralInt(_) => Some(Terminal::LiteralInt),
            _ => None,
        }
    }
}

pub open spec fn nt(n: Nonterminal) -> Term {
    Term::Nonterminal(n)
}

pub open spec fn tm(t: Terminal) -> Term {
    Term::Terminal(t)
}

/// The rules of the expression grammar, left recursion removed:
/// ```text
/// (0)  E  ::= T E'
/// (1)  E' ::= + T E'
/// (2)  E' ::= epsilon
/// (3)  T  ::= F T'
/// (4)  T' ::= * F T'
/// (5)  T' ::= epsilon
/// (6)  F  ::= ( E )
/// (7)  F  ::= Ident
/// (8)  F  ::= LiteralInt
/// ```
pub open spec fn expression_rules() -> Seq<(Nonterminal, Seq<Term>)> {
    seq![
        (Nonterminal::E, seq![nt(Nonterminal::T), nt(Nonterminal::EPrime)]),
        (Nonterminal::EPrime, seq![tm(Terminal::Op(Op::Add)), nt(Nonterminal::T), nt(Nonterminal::EPrime)]),
        (Nonterminal::EPrime, seq![]),
        (Nonterminal::T, seq![nt(Nonterminal::F), nt(Nonterminal::TPrime)]),
        (Nonterminal::TPrime, seq![tm(Terminal::Op(Op::Mul)), nt(Nonterminal::F), nt(Nonterminal::TPrime)]),
        (Nonterminal::TPrime, seq![]),
        (Nonterminal::F, seq![tm(Terminal::Sym(Sym::LeftParen)), nt(Nonterminal::E), tm(Terminal::Sym(Sym::RightParen))]),
        (Nonterminal::F, seq![tm(Terminal::Ident)]),
        (Nonterminal::F, seq![tm(Terminal::LiteralInt)]),
    ]
}

/// The LL(1) table of the expression grammar:
/// ```text
///         +    *    (    )    Ident  LiteralInt  #
/// E                 0         0      0
/// E'      1              2                       2
/// T                 3         3      3
/// T'      5    4         5                       5
/// F                 6         7      8
/// ```
pub open spec fn expression_entries() -> Seq<(Nonterminal, Terminal, usize)> {
    seq![
        (Nonterminal::E, Terminal::Sym(Sym::LeftParen), 0usize),
        (Nonterminal::E, Terminal::Ident, 0usize),
        (Nonterminal::E, Terminal::LiteralInt, 0usize),
        (Nonterminal::EPrime, Terminal::Op(Op::Add), 1usize),
        (Nonterminal::EPrime, Terminal::Sym(Sym::RightParen), 2usize),
        (Nonterminal::EPrime, Terminal::Eos, 2usize),
        (Nonterminal::T, Terminal::Sym(Sym::LeftParen), 3usize),
        (Nonterminal::T, Terminal::Ident, 3usize),
        (Nonterminal::T, Terminal::LiteralInt, 3usize),
        (Nonterminal::TPrime, Terminal::Op(Op::Add), 5usize),
        (Nonterminal::TPrime, Terminal::Op(Op::Mul), 4usize),
        (Nonterminal::TPrime, Terminal::Sym(Sym::RightParen), 5usize),
        (Nonterminal::TPrime, Terminal::Eos, 5usize),
        (Nonterminal::F, Terminal::Sym(Sym::LeftParen), 6usize),
        (Nonterminal::F, Terminal::Ident, 7usize),
        (Nonterminal::F, Terminal::LiteralInt, 8usize),
    ]
}

/// The rule index that `entries` gives for `(n, t)`: that of the first
/// entry with this key.
pub open spec fn entry_lookup(entries: Seq<(Nonterminal, Terminal, usize)>, n: Nonterminal, t: Terminal) -> Option<usize>
    decreases entries.len(),
{
    if entries.len() == 0 {
        None
    } else if entries[0].0 == n && entries[0].1 == t {
        Some(entries[0].2)
    } else {
        entry_lookup(entries.drop_first(), n, t)
    }
}

/// The rule to expand `n` with when `t` comes next.
pub open spec fn ll1_entry(n: Nonterminal, t: Terminal) -> Option<usize> {
    entry_lookup(expression_entries(), n, t)
}

/// No two entries share a key: the table is deterministic.
pub open spec fn keys_unique(entries: Seq<(Nonterminal, Terminal, usize)>) -> bool {
    forall|i: int, j: int|
        0 <= i < j < entries.len() ==> !(#[trigger] entries[i].0 == #[trigger] entries[j].0
            && entries[i].1 == entries[j].1)
}

impl LL1Rule {
    pub open spec fn view(&self) -> (Nonterminal, Seq<Term>) {
        (self.lhs, self.rhs@)
    }
}

impl LL1ParseTable {
    pub open spec fn rules_view(&self) -> Seq<(Nonterminal, Seq<Term>)> {
        self.rules@.map_values(|r: LL1Rule| r.view())
    }

    /// This is the table of the expression grammar.
    pub open spec fn is_expression_table(&self) -> bool {
        &&& self.start == Nonterminal::E
        &&& self.rules_view() == expression_rules()
        &&& self.table@ == expression_entries()
    }

    /// The rule to expand `n` with when `t` comes next, if any.
    pub fn lookup(&self, n: Nonterminal, t: Terminal) -> (r: Option<usize>)
        ensures
            r == entry_lookup(self.table@, n, t),
    {
        let mut k: usize = 0;
        assert(self.table@.skip(0) =~= self.table@);
        while k < self.table.len()
            invariant
                k <= self.table@.len(),
                entry_lookup(self.table@, n, t) == entry_lookup(self.table@.skip(k as int), n, t),
            decreases self.table@.len() - k,
        {
            let (kn, kt, index) = self.table[k];
            assert(self.table@.skip(k as int).drop_first() =~= self.table@.skip(k + 1));
            if kn == n && kt == t {
                return Some(index);
            }
            k = k + 1;
        }
        None
    }
}

/// The expression table is deterministic: no two of its entries share a
/// nonterminal and a terminal.
pub proof fn lemma_expression_entries_unique()
    ensures
        keys_unique(expression_entries()),
{
    let e = expression_entries();
    assert forall|i: int, j: int| 0 <= i < j < e.len() implies !(#[trigger] e[i].0 == #[trigger] e[j].0
        && e[i].1 == e[j].1) by {
    }
}

/// Builds the table of the expression grammar.
impl Default for LL1ParseTable {
    fn default() -> (r: Self)
        ensures
            r.is_expression_table(),
    {
        let ident = Term::Terminal(Terminal::Ident);
        let literal = Term::Terminal(Terminal::LiteralInt);
        let add = Term::Terminal(Terminal::Op(Op::Add));
        let mul = Term::Terminal(Terminal::Op(Op::Mul));
        let lparen = Term::Terminal(Terminal::Sym(Sym::LeftParen));
        let rparen = Term::Terminal(Terminal::Sym(Sym::RightParen));
        let e = Term::Nonterminal(Nonterminal::E);
        let e1 = Term::Nonterminal(Nonterminal::EPrime);
        let t = Term::Nonterminal(Nonterminal::T);
        let t1 = Term::Nonterminal(Nonterminal::TPrime);
        let f = Term::Nonterminal(Nonterminal::F);
        let rules = vec![
            LL1Rule { lhs: Nonterminal::E, rhs: vec![t, e1] },
            LL1Rule { lhs: Nonterminal::EPrime, rhs: vec![add, t, e1] },
            LL1Rule { lhs: Nonterminal::EPrime, rhs: vec![] },
            LL1Rule { lhs: Nonterminal::T, rhs: vec![f, t1] },
            LL1Rule { lhs: Nonterminal::TPrime, rhs: vec![mul, f, t1] },
            LL1Rule { lhs: Nonterminal::TPrime, rhs: vec![] },
            LL1Rule { lhs: Nonterminal::F, rhs: vec![lparen, e, rparen] },
            LL1Rule { lhs: Nonterminal::F, rhs: vec![ident] },
            LL1Rule { lhs: Nonterminal::F, rhs: vec![literal] },
        ];
        let table = vec![
            (Nonterminal::E, Terminal::Sym(Sym::LeftParen), 0usize),
            (Nonterminal::E, Terminal::Ident, 0usize),
            (Nonterminal::E, Terminal::LiteralInt, 0usize),
            (Nonterminal::EPrime, Terminal::Op(Op::Add), 1usize),
            (Nonterminal::EPrime, Terminal::Sym(Sym::RightParen), 2usize),
            (Nonterminal::EPrime, Terminal::Eos, 2usize),
            (Nonterminal::T, Terminal::Sym(Sym::LeftParen), 3usize),
            (Nonterminal::T, Terminal::Ident, 3usize),
            (Nonterminal::T, Terminal::LiteralInt, 3usize),
            (Nonterminal::TPrime, Terminal::Op(Op::Add), 5usize),
            (Nonterminal::TPrime, Terminal::Op(Op::Mul), 4usize),
            (Nonterminal::TPrime, Terminal::Sym(Sym::RightParen), 5usize),
            (Nonterminal::TPrime, Terminal::Eos, 5usize),
            (Nonterminal::F, Terminal::Sym(Sym::LeftParen), 6usize),
            (Nonterminal::F, Terminal::Ident, 7usize),
            (Nonterminal::F, Terminal::LiteralInt, 8usize),
        ];
        let r = LL1ParseTable { start: Nonterminal::E, rules, table };
        assert(r.rules@[0].rhs@ =~= expression_rules()[0].1);
        assert(r.rules@[1].rhs@ =~= expression_rules()[1].1);
        assert(r.rules@[2].rhs@ =~= expression_rules()[2].1);
        assert(r.rules@[3].rhs@ =~= expression_rules()[3].1);
        assert(r.rules@[4].rhs@ =~= expression_rules()[4].1);
        assert(r.rules@[5].rhs@ =~= expression_rules()[5].1);
        assert(r.rules@[6].rhs@ =~= expression_rules()[6].1);
        assert(r.rules@[7].rhs@ =~= expression_rules()[7].1);
        assert(r.rules@[8].rhs@ =~= expression_rules()[8].1);
        assert(r.rules_view() =~= expression_rules());
        assert(r.table@ =~= expression_entries());
        r
    }
}

} // verus!
