use vstd::prelude::*;
use crate::token::TerminalCat;

verus! {

/// A nonterminal of the grammar:
///
/// ```text
/// Value     -> [ Array1 | { Object1 | STRING | NUMBER | BOOL | NULL
/// Array1    -> ] | Value ValueList ]
/// ValueList -> , Value ValueList | epsilon
/// Object1   -> } | Pair PairList }
/// PairList  -> , Pair PairList | epsilon
/// Pair      -> STRING : Value
/// ```
#[derive(Debug, Clone, Copy, PartialEq, Eq, Structural)]
pub enum NonTerminal {
    Value,
    Array1,
    ValueList,
    Object1,
    PairList,
    Pair,
}

/// A grammar symbol: a nonterminal to expand or a terminal to match.
#[derive(Debug, Clone, Copy, PartialEq, Eq, Structural)]
pub enum Symbol {
    N(NonTerminal),
    T(TerminalCat),
}

/// True when the symbol is a terminal, the epsilon marker included.
pub fn is_terminal(symbol: &Symbol) -> (r: bool)
    ensures
        r == (symbol is T),
{
    match symbol {
        Symbol::T(_) => true,
        Symbol::N(_) => false,
    }
}

/// One production of the grammar, the closed set of rewrite rules.
#[derive(Debug, Clone, Copy, PartialEq, Eq, Structural)]
pub enum Production {
    ValueArray,
    ValueObject,
    ValueString,
    ValueNumber,
    ValueBool,
    ValueNull,
    Array1Empty,
    Array1Items,
    ValueListCons,
    ValueListEmpty,
    Object1Empty,
    Object1Items,
    PairListCons,
    PairListEmpty,
    PairString,
}

/// The right-hand side of a production, first symbol first.
pub open spec fn production_rhs(p: Production) -> Seq<Symbol> {
    match p {
        Production::ValueArray => seq![
            Symbol::T(TerminalCat::LBracket),
            Symbol::N(NonTerminal::Array1),
        ],
        Production::ValueObject => seq![
            Symbol::T(TerminalCat::LBrace),
            Symbol::N(NonTerminal::Object1),
        ],
        Production::ValueString => seq![Symbol::T(TerminalCat::Str)],
        Production::ValueNumber => seq![Symbol::T(TerminalCat::Num)],
        Production::ValueBool => seq![Symbol::T(TerminalCat::Bool)],
        Production::ValueNull => seq![Symbol::T(TerminalCat::Null)],
        Production::Array1Empty => seq![Symbol::T(TerminalCat::RBracket)],
        Production::Array1Items => seq![
            Symbol::N(NonTerminal::Value),
            Symbol::N(NonTerminal::ValueList),
            Symbol::T(TerminalCat::RBracket),
        ],
        Production::ValueListCons => seq![
            Symbol::T(TerminalCat::Comma),
            Symbol::N(NonTerminal::Value),
            Symbol::N(NonTerminal::ValueList),
        ],
        Production::ValueListEmpty => seq![Symbol::T(TerminalCat::Epsilon)],
        Production::Object1Empty => seq![Symbol::T(TerminalCat::RBrace)],
        Production::Object1Items => seq![
            Symbol::N(NonTerminal::Pair),
            Symbol::N(NonTerminal::PairList),
            Symbol::T(TerminalCat::RBrace),
        ],
        Production::PairListCons => seq![
            Symbol::T(TerminalCat::Comma),
            Symbol::N(NonTerminal::Pair),
            Symbol::N(NonTerminal::PairList),
        ],
        Production::PairListEmpty => seq![Symbol::T(TerminalCat::Epsilon)],
        Production::PairString => seq![
            Symbol::T(TerminalCat::Str),
            Symbol::T(TerminalCat::Colon),
            Symbol::N(NonTerminal::Value),
        ],
    }
}

/// The predictive table: the production chosen for a nonterminal on a
/// lookahead terminal category, or nothing when the grammar has no
/// continuation there. Derived from the SELECT sets of the productions; the
/// epsilon rows answer to the FOLLOW set of their nonterminal.
pub open spec fn spec_table(nt: NonTerminal, t: TerminalCat) -> Option<Production> {
    match nt {
        NonTerminal::Value => match t {
            TerminalCat::LBracket => Some(Production::ValueArray),
            TerminalCat::LBrace => Some(Production::ValueObject),
            TerminalCat::Str => Some(Production::ValueString),
            TerminalCat::Num => Some(Production::ValueNumber),
            TerminalCat::Bool => Some(Production::ValueBool),
            TerminalCat::Null => Some(Production::ValueNull),
            _ => None,
        },
        NonTerminal::Array1 => match t {
            TerminalCat::RBracket => Some(Production::Array1Empty),
            TerminalCat::LBrace | TerminalCat::LBracket | TerminalCat::Str | TerminalCat::Num
                | TerminalCat::Bool | TerminalCat::Null => Some(Production::Array1Items),
            _ => None,
        },
        NonTerminal::ValueList => match t {
            TerminalCat::Comma => Some(Production::ValueListCons),
            TerminalCat::RBracket => Some(Production::ValueListEmpty),
            _ => None,
        },
        NonTerminal::Object1 => match t {
            TerminalCat::RBrace => Some(Production::Object1Empty),
            TerminalCat::Str => Some(Production::Object1Items),
            _ => None,
        },
        NonTerminal::PairList => match t {
            TerminalCat::Comma => Some(Production::PairListCons),
            TerminalCat::RBrace => Some(Production::PairListEmpty),
            _ => None,
        },
        NonTerminal::Pair => match t {
            TerminalCat::Str => Some(Production::PairString),
            _ => None,
        },
    }
}

/// The terminal categories a nonterminal accepts, in table column order:
/// `{ } [ ] , : STRING NUMBER BOOL NULL`.
pub open spec fn select_row(nt: NonTerminal) -> Seq<TerminalCat> {
    match nt {
        NonTerminal::Value => seq![
            TerminalCat::LBrace,
            TerminalCat::LBracket,
            TerminalCat::Str,
            TerminalCat::Num,
            TerminalCat::Bool,
            TerminalCat::Null,
        ],
        NonTerminal::Array1 => seq![
            TerminalCat::LBrace,
            TerminalCat::LBracket,
            TerminalCat::RBracket,
            TerminalCat::Str,
            TerminalCat::Num,
            TerminalCat::Bool,
            TerminalCat::Null,
        ],
        NonTerminal::ValueList => seq![TerminalCat::RBracket, TerminalCat::Comma],
        NonTerminal::Object1 => seq![TerminalCat::RBrace, TerminalCat::Str],
        NonTerminal::PairList => seq![TerminalCat::RBrace, TerminalCat::Comma],
        NonTerminal::Pair => seq![TerminalCat::Str],
    }
}

/// A category stands in a nonterminal's row exactly when the table chooses a
/// production for the pair.
pub proof fn lemma_select_row_matches_table(nt: NonTerminal, t: TerminalCat)
    ensures
        spec_table(nt, t) is Some <==> select_row(nt).contains(t),
{
    if spec_table(nt, t) is Some {
        let row = select_row(nt);
        match nt {
            NonTerminal::Value => {
                assert(row.contains(t)) by {
                    let i: int = match t {
                        TerminalCat::LBrace => 0,
                        TerminalCat::LBracket => 1,
                        TerminalCat::Str => 2,
                        TerminalCat::Num => 3,
                        TerminalCat::Bool => 4,
                        _ => 5,
                    };
                    assert(row[i] == t);
                }
            },
            NonTerminal::Array1 => {
                assert(row.contains(t)) by {
                    let i: int = match t {
                        TerminalCat::LBrace => 0,
                        TerminalCat::LBracket => 1,
                        TerminalCat::RBracket => 2,
                        TerminalCat::Str => 3,
                        TerminalCat::Num => 4,
                        TerminalCat::Bool => 5,
                        _ => 6,
                    };
                    assert(row[i] == t);
                }
            },
            NonTerminal::ValueList => {
                assert(row.contains(t)) by {
                    let i: int = if t is RBracket {
                        0
                    } else {
                        1
                    };
                    assert(row[i] == t);
                }
            },
            NonTerminal::Object1 => {
                assert(row.contains(t)) by {
                    let i: int = if t is RBrace {
                        0
                    } else {
                        1
                    };
                    assert(row[i] == t);
                }
            },
            NonTerminal::PairList => {
                assert(row.contains(t)) by {
                    let i: int = if t is RBrace {
                        0
                    } else {
                        1
                    };
                    assert(row[i] == t);
                }
            },
            NonTerminal::Pair => {
                assert(row.contains(t)) by {
                    assert(row[0] == t);
                }
            },
        }
    }
}

/// Looks up the predictive table.
pub fn table(nt: NonTerminal, t: TerminalCat) -> (r: Option<Production>)
    ensures
        r == spec_table(nt, t),
{
    match nt {
        NonTerminal::Value => match t {
            TerminalCat::LBracket => Some(Production::ValueArray),
            TerminalCat::LBrace => Some(Production::ValueObject),
            TerminalCat::Str => Some(Production::ValueString),
            TerminalCat::Num => Some(Production::ValueNumber),
            TerminalCat::Bool => Some(Production::ValueBool),
            TerminalCat::Null => Some(Production::ValueNull),
            _ => None,
        },
        NonTerminal::Array1 => match t {
            TerminalCat::RBracket => Some(Production::Array1Empty),
            TerminalCat::LBrace | TerminalCat::LBracket | TerminalCat::Str | TerminalCat::Num
                | TerminalCat::Bool | TerminalCat::Null => Some(Production::Array1Items),
            _ => None,
        },
        NonTerminal::ValueList => match t {
            TerminalCat::Comma => Some(Production::ValueListCons),
            TerminalCat::RBracket => Some(Production::ValueListEmpty),
            _ => None,
        },
        NonTerminal::Object1 => match t {
            TerminalCat::RBrace => Some(Production::Object1Empty),
            TerminalCat::Str => Some(Production::Object1Items),
            _ => None,
        },
        NonTerminal::PairList => match t {
            TerminalCat::Comma => Some(Production::PairListCons),
            TerminalCat::RBrace => Some(Production::PairListEmpty),
            _ => None,
        },
        NonTerminal::Pair => match t {
            TerminalCat::Str => Some(Production::PairString),
            _ => None,
        },
    }
}

/// The terminal categories a nonterminal accepts, for diagnostics.
pub fn expected_of(nt: NonTerminal) -> (r: Vec<TerminalCat>)
    ensures
        r@ == select_row(nt),
{
    let r: Vec<TerminalCat> = match nt {
        NonTerminal::Value => vec![
            TerminalCat::LBrace,
            TerminalCat::LBracket,
            TerminalCat::Str,
            TerminalCat::Num,
            TerminalCat::Bool,
            TerminalCat::Null,
        ],
        NonTerminal::Array1 => vec![
            TerminalCat::LBrace,
            TerminalCat::LBracket,
            TerminalCat::RBracket,
            TerminalCat::Str,
            TerminalCat::Num,
            TerminalCat::Bool,
            TerminalCat::Null,
        ],
        NonTerminal::ValueList => vec![TerminalCat::RBracket, TerminalCat::Comma],
        NonTerminal::Object1 => vec![TerminalCat::RBrace, TerminalCat::Str],
        NonTerminal::PairList => vec![TerminalCat::RBrace, TerminalCat::Comma],
        NonTerminal::Pair => vec![TerminalCat::Str],
    };
    proof {
        assert(r@ =~= select_row(nt));
    }
    r
}

} // verus!
