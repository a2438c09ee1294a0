use vstd::prelude::*;
use crate::errors::ErrModel;
use crate::grammar::{production_rhs, select_row, spec_table, NonTerminal, Production, Symbol};
use crate::lexer::{lemma_lex_advances, spec_lex, LexStep};
use crate::token::{spec_token_cat, TerminalCat, TokenModel};
use crate::value::{object_of, ValueModel};

verus! {

/// A production-history marker: one per open container, recording where on
/// the value stack the container's completed members begin. A closing
/// bracket folds every value above `base` into one Array or Object.
#[derive(Debug, Clone, Copy, PartialEq, Eq, Structural)]
pub enum Frame {
    ArrayAt { base: usize },
    ObjectAt { base: usize },
}

/// What the engine does with one fetched token: fail, or stand in a new
/// configuration — possibly with an emptied symbol stack, which the run
/// then closes out against the end of the input.
pub enum StepOut {
    Failed(ErrModel),
    Next(Seq<Symbol>, Seq<Frame>, Seq<ValueModel>),
}

/// How many expansion or epsilon steps the engine can still take before it
/// must consume the token: a weight per nonterminal, summed over the top run
/// of symbols that are not real terminals.
pub open spec fn nt_rank(nt: NonTerminal) -> nat {
    match nt {
        NonTerminal::Value => 1,
        NonTerminal::Array1 => 4,
        NonTerminal::ValueList => 2,
        NonTerminal::Object1 => 4,
        NonTerminal::PairList => 2,
        NonTerminal::Pair => 1,
    }
}

/// See `nt_rank`: the measure that every expansion and epsilon pop lowers.
pub open spec fn active_rank(syms: Seq<Symbol>) -> nat
    decreases syms.len(),
{
    if syms.len() == 0 {
        0
    } else {
        match syms.last() {
            Symbol::T(TerminalCat::Epsilon) => 1 + active_rank(syms.drop_last()),
            Symbol::T(_) => 0,
            Symbol::N(nt) => nt_rank(nt) + active_rank(syms.drop_last()),
        }
    }
}

/// Reading `active_rank` one pushed symbol at a time.
pub proof fn lemma_ar_push(s: Seq<Symbol>, x: Symbol)
    ensures
        active_rank(s.push(x)) == (match x {
            Symbol::T(TerminalCat::Epsilon) => 1 + active_rank(s),
            Symbol::T(_) => 0nat,
            Symbol::N(nt) => nt_rank(nt) + active_rank(s),
        }),
{
    assert(s.push(x).drop_last() =~= s);
}

/// Expanding a nonterminal lowers `active_rank`: the right-hand side weighs
/// less than the nonterminal it replaces.
pub proof fn lemma_ar_expand(s: Seq<Symbol>, nt: NonTerminal, p: Production, c: TerminalCat)
    requires
        spec_table(nt, c) == Some(p),
    ensures
        active_rank(s + production_rhs(p).reverse()) < nt_rank(nt) + active_rank(s),
{
    let rhs = production_rhs(p);
    if rhs.len() == 1 {
        assert(s + rhs.reverse() =~= s.push(rhs[0]));
        lemma_ar_push(s, rhs[0]);
    } else if rhs.len() == 2 {
        assert(s + rhs.reverse() =~= s.push(rhs[1]).push(rhs[0]));
        lemma_ar_push(s, rhs[1]);
        lemma_ar_push(s.push(rhs[1]), rhs[0]);
    } else {
        assert(rhs.len() == 3);
        assert(s + rhs.reverse() =~= s.push(rhs[2]).push(rhs[1]).push(rhs[0]));
        lemma_ar_push(s, rhs[2]);
        lemma_ar_push(s.push(rhs[2]), rhs[1]);
        lemma_ar_push(s.push(rhs[2]).push(rhs[1]), rhs[0]);
    }
}

/// The frame stack after expanding production `p`: opening a container
/// records where its members will begin on the value stack.
pub open spec fn expand_frames(p: Production, frames: Seq<Frame>, vals: Seq<ValueModel>) -> Seq<
    Frame,
> {
    match p {
        Production::ValueArray => frames.push(Frame::ArrayAt { base: vals.len() as usize }),
        Production::ValueObject => frames.push(Frame::ObjectAt { base: vals.len() as usize }),
        _ => frames,
    }
}

/// The key-value pairs lying above `base` on the value stack, in source
/// order, or `None` when they are not an even run of string-keyed pairs.
pub open spec fn take_pairs(vals: Seq<ValueModel>, base: int) -> Option<
    Seq<(Seq<u8>, ValueModel)>,
>
    decreases vals.len() - base,
        when 0 <= base <= vals.len()
{
    if vals.len() == base {
        Some(Seq::empty())
    } else if vals.len() >= base + 2 {
        let k = vals[vals.len() - 2];
        let v = vals.last();
        if k is String {
            match take_pairs(vals.drop_last().drop_last(), base) {
                Some(ps) => Some(ps.push((k->String_0, v))),
                None => None,
            }
        } else {
            None
        }
    } else {
        None
    }
}

/// The effect of shifting (consuming) one matched token on the frame and
/// value stacks: a scalar pushes its value, a closing bracket folds the
/// values above the top frame's base into one Array or Object, and the other
/// structural tokens change nothing. `None` is broken bookkeeping.
pub open spec fn spec_shift(t: TokenModel, frames: Seq<Frame>, vals: Seq<ValueModel>) -> Option<
    (Seq<Frame>, Seq<ValueModel>),
> {
    match t {
        TokenModel::Str(s) => Some((frames, vals.push(ValueModel::String(s)))),
        TokenModel::Num(n) => Some((frames, vals.push(ValueModel::Number(n)))),
        TokenModel::Bool(b) => Some((frames, vals.push(ValueModel::Bool(b)))),
        TokenModel::Null => Some((frames, vals.push(ValueModel::Null))),
        TokenModel::LBrace | TokenModel::LBracket | TokenModel::Comma | TokenModel::Colon => Some(
            (frames, vals),
        ),
        TokenModel::RBracket => {
            if frames.len() > 0 && (frames.last() matches Frame::ArrayAt { base } && base
                <= vals.len()) {
                let b = frames.last()->ArrayAt_base as int;
                Some(
                    (
                        frames.drop_last(),
                        vals.subrange(0, b).push(
                            ValueModel::Array(vals.subrange(b, vals.len() as int)),
                        ),
                    ),
                )
            } else {
                None
            }
        },
        TokenModel::RBrace => {
            if frames.len() > 0 && (frames.last() matches Frame::ObjectAt { base } && base
                <= vals.len()) {
                let b = frames.last()->ObjectAt_base as int;
                match take_pairs(vals, b) {
                    Some(ps) => Some(
                        (
                            frames.drop_last(),
                            vals.subrange(0, b).push(ValueModel::Object(object_of(ps))),
                        ),
                    ),
                    None => None,
                }
            } else {
                None
            }
        },
    }
}

/// One fetched token driven through the symbol stack: epsilon markers are
/// discarded, nonterminals are expanded by the predictive table, and the
/// loop ends when the token is consumed against a matching terminal — or in
/// an error, either the grammar's or, for broken bookkeeping, the engine's
/// own.
pub open spec fn spec_settle(
    t: TokenModel,
    start: int,
    syms: Seq<Symbol>,
    frames: Seq<Frame>,
    vals: Seq<ValueModel>,
) -> StepOut
    decreases active_rank(syms),
{
    if syms.len() == 0 {
        StepOut::Failed(ErrModel::InternalInvariantViolation)
    } else {
        match syms.last() {
            Symbol::T(TerminalCat::Epsilon) => spec_settle(t, start, syms.drop_last(), frames, vals),
            Symbol::T(cat) => {
                if cat == spec_token_cat(t) {
                    match spec_shift(t, frames, vals) {
                        None => StepOut::Failed(ErrModel::InternalInvariantViolation),
                        Some((frames2, vals2)) => StepOut::Next(
                            syms.drop_last(),
                            frames2,
                            vals2,
                        ),
                    }
                } else {
                    StepOut::Failed(
                        ErrModel::UnexpectedTerminal {
                            offset: start,
                            expected: seq![cat],
                            found: spec_token_cat(t),
                        },
                    )
                }
            },
            Symbol::N(nt) => {
                match spec_table(nt, spec_token_cat(t)) {
                    None => StepOut::Failed(
                        ErrModel::UnexpectedTerminal {
                            offset: start,
                            expected: select_row(nt),
                            found: spec_token_cat(t),
                        },
                    ),
                    Some(p) => {
                        proof {
                            lemma_ar_expand(syms.drop_last(), nt, p, spec_token_cat(t));
                        }
                        spec_settle(
                            t,
                            start,
                            syms.drop_last() + production_rhs(p).reverse(),
                            expand_frames(p, frames, vals),
                            vals,
                        )
                    },
                }
            },
        }
    }
}

/// The engine, run to its end: fetch a token, drive it through the symbol
/// stack, and go on with the configuration that leaves, until the input or
/// the grammar gives out. It accepts only when the symbol stack and the
/// token stream are both exhausted with exactly one finished value; a token
/// left over once the symbol stack is empty is an error naming its offset,
/// with nothing in its expected set.
pub open spec fn spec_machine_run(
    bytes: Seq<u8>,
    pos: int,
    syms: Seq<Symbol>,
    frames: Seq<Frame>,
    vals: Seq<ValueModel>,
) -> Result<(ValueModel, int), ErrModel>
    decreases bytes.len() - pos,
        when 0 <= pos <= bytes.len()
{
    if syms.len() == 0 {
        if vals.len() == 1 {
            match spec_lex(bytes, pos) {
                LexStep::EofAt(o) => Ok((vals[0], pos)),
                LexStep::BadAt(o) => Err(ErrModel::UnexpectedToken(o)),
                LexStep::Tok { t, start, end } => Err(
                    ErrModel::UnexpectedTerminal {
                        offset: start,
                        expected: Seq::empty(),
                        found: spec_token_cat(t),
                    },
                ),
            }
        } else {
            Err(ErrModel::InternalInvariantViolation)
        }
    } else {
        match spec_lex(bytes, pos) {
            LexStep::EofAt(o) => Err(ErrModel::EndOfInput(o)),
            LexStep::BadAt(o) => Err(ErrModel::UnexpectedToken(o)),
            LexStep::Tok { t, start, end } => {
                proof {
                    lemma_lex_advances(bytes, pos);
                }
                match spec_settle(t, start, syms, frames, vals) {
                    StepOut::Failed(e) => Err(e),
                    StepOut::Next(syms2, frames2, vals2) => spec_machine_run(
                        bytes,
                        end,
                        syms2,
                        frames2,
                        vals2,
                    ),
                }
            },
        }
    }
}

/// The whole run from the start configuration: the single start symbol, no
/// open container, an empty value stack.
pub open spec fn spec_machine(bytes: Seq<u8>) -> Result<(ValueModel, int), ErrModel> {
    spec_machine_run(
        bytes,
        0,
        seq![Symbol::N(NonTerminal::Value)],
        Seq::empty(),
        Seq::empty(),
    )
}

} // verus!
