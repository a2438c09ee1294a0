use vstd::prelude::*;
use crate::errors::ErrModel;
use crate::grammar::{select_row, NonTerminal};
use crate::lexer::{lemma_lex_advances, spec_lex, LexStep};
use crate::token::{spec_token_cat, TerminalCat, TokenModel};
use crate::value::{object_of, ValueModel};

verus! {

/// What parsing one `Value` from `bytes` at `pos` yields: the value and the
/// offset one past it, or the error the grammar or the lexer finds first.
///
/// These six functions are the meaning of the grammar, one function per
/// nonterminal, each selecting its production by the next token exactly as
/// the predictive table does. A list function leaves the closing bracket of
/// its enclosing rule unconsumed and reports the position of that token as
/// its end. The `InternalInvariantViolation` arms guard positions that a
/// nested parse can in fact never produce (see `lemma_parse_bounds`).
pub open spec fn spec_parse_value(bytes: Seq<u8>, pos: int) -> Result<(ValueModel, int), ErrModel>
    decreases bytes.len() - pos, 0int,
        when 0 <= pos <= bytes.len()
{
    match spec_lex(bytes, pos) {
        LexStep::EofAt(o) => Err(ErrModel::EndOfInput(o)),
        LexStep::BadAt(o) => Err(ErrModel::UnexpectedToken(o)),
        LexStep::Tok { t, start, end } => {
            proof {
                lemma_lex_advances(bytes, pos);
            }
            match t {
                TokenModel::LBracket => spec_parse_array1(bytes, end),
                TokenModel::LBrace => spec_parse_object1(bytes, end),
                TokenModel::Str(s) => Ok((ValueModel::String(s), end)),
                TokenModel::Num(n) => Ok((ValueModel::Number(n), end)),
                TokenModel::Bool(b) => Ok((ValueModel::Bool(b), end)),
                TokenModel::Null => Ok((ValueModel::Null, end)),
                _ => Err(ErrModel::UnexpectedTerminal {
                    offset: start,
                    expected: select_row(NonTerminal::Value),
                    found: spec_token_cat(t),
                }),
            }
        },
    }
}

/// Parses the rest of an array after its `[`: a `]`, or a first value, the
/// remaining values, and the `]`.
pub open spec fn spec_parse_array1(bytes: Seq<u8>, pos: int) -> Result<(ValueModel, int), ErrModel>
    decreases bytes.len() - pos, 1int,
        when 0 <= pos <= bytes.len()
{
    match spec_lex(bytes, pos) {
        LexStep::EofAt(o) => Err(ErrModel::EndOfInput(o)),
        LexStep::BadAt(o) => Err(ErrModel::UnexpectedToken(o)),
        LexStep::Tok { t, start, end } => {
            proof {
                lemma_lex_advances(bytes, pos);
            }
            if t is RBracket {
                Ok((ValueModel::Array(Seq::empty()), end))
            } else if t is Comma || t is Colon || t is RBrace {
                Err(ErrModel::UnexpectedTerminal {
                    offset: start,
                    expected: select_row(NonTerminal::Array1),
                    found: spec_token_cat(t),
                })
            } else {
                match spec_parse_value(bytes, start) {
                    Err(e) => Err(e),
                    Ok((first, mid)) => {
                        if !(pos < mid <= bytes.len()) {
                            Err(ErrModel::InternalInvariantViolation)
                        } else {
                            match spec_parse_value_list(bytes, mid) {
                                Err(e) => Err(e),
                                Ok((rest, stop)) => {
                                    if !(pos < stop <= bytes.len()) {
                                        Err(ErrModel::InternalInvariantViolation)
                                    } else {
                                        match spec_lex(bytes, stop) {
                                            LexStep::EofAt(o) => Err(ErrModel::EndOfInput(o)),
                                            LexStep::BadAt(o) => Err(
                                                ErrModel::UnexpectedToken(o),
                                            ),
                                            LexStep::Tok { t: t2, start: s2, end: e2 } => {
                                                if t2 is RBracket {
                                                    Ok(
                                                        (
                                                            ValueModel::Array(
                                                                seq![first] + rest,
                                                            ),
                                                            e2,
                                                        ),
                                                    )
                                                } else {
                                                    Err(ErrModel::UnexpectedTerminal {
                                                        offset: s2,
                                                        expected: seq![TerminalCat::RBracket],
                                                        found: spec_token_cat(t2),
                                                    })
                                                }
                                            },
                                        }
                                    }
                                },
                            }
                        }
                    },
                }
            }
        },
    }
}

/// Parses the values an array holds after its first one: each a comma and a
/// value, ending before the `]`, which is left unconsumed.
pub open spec fn spec_parse_value_list(bytes: Seq<u8>, pos: int) -> Result<
    (Seq<ValueModel>, int),
    ErrModel,
>
    decreases bytes.len() - pos, 0int,
        when 0 <= pos <= bytes.len()
{
    match spec_lex(bytes, pos) {
        LexStep::EofAt(o) => Err(ErrModel::EndOfInput(o)),
        LexStep::BadAt(o) => Err(ErrModel::UnexpectedToken(o)),
        LexStep::Tok { t, start, end } => {
            proof {
                lemma_lex_advances(bytes, pos);
            }
            if t is RBracket {
                Ok((Seq::empty(), start))
            } else if t is Comma {
                match spec_parse_value(bytes, end) {
                    Err(e) => Err(e),
                    Ok((v, mid)) => {
                        if !(pos < mid <= bytes.len()) {
                            Err(ErrModel::InternalInvariantViolation)
                        } else {
                            match spec_parse_value_list(bytes, mid) {
                                Err(e) => Err(e),
                                Ok((rest, stop)) => Ok((seq![v] + rest, stop)),
                            }
                        }
                    },
                }
            } else {
                Err(ErrModel::UnexpectedTerminal {
                    offset: start,
                    expected: select_row(NonTerminal::ValueList),
                    found: spec_token_cat(t),
                })
            }
        },
    }
}

/// Parses the rest of an object after its `{`: a `}`, or a first pair, the
/// remaining pairs, and the `}`.
pub open spec fn spec_parse_object1(bytes: Seq<u8>, pos: int) -> Result<(ValueModel, int), ErrModel>
    decreases bytes.len() - pos, 1int,
        when 0 <= pos <= bytes.len()
{
    match spec_lex(bytes, pos) {
        LexStep::EofAt(o) => Err(ErrModel::EndOfInput(o)),
        LexStep::BadAt(o) => Err(ErrModel::UnexpectedToken(o)),
        LexStep::Tok { t, start, end } => {
            proof {
                lemma_lex_advances(bytes, pos);
            }
            if t is RBrace {
                Ok((ValueModel::Object(Seq::empty()), end))
            } else if t is Str {
                match spec_parse_pair(bytes, start) {
                    Err(e) => Err(e),
                    Ok((first, mid)) => {
                        if !(pos < mid <= bytes.len()) {
                            Err(ErrModel::InternalInvariantViolation)
                        } else {
                            match spec_parse_pair_list(bytes, mid) {
                                Err(e) => Err(e),
                                Ok((rest, stop)) => {
                                    if !(pos < stop <= bytes.len()) {
                                        Err(ErrModel::InternalInvariantViolation)
                                    } else {
                                        match spec_lex(bytes, stop) {
                                            LexStep::EofAt(o) => Err(ErrModel::EndOfInput(o)),
                                            LexStep::BadAt(o) => Err(
                                                ErrModel::UnexpectedToken(o),
                                            ),
                                            LexStep::Tok { t: t2, start: s2, end: e2 } => {
                                                if t2 is RBrace {
                                                    Ok(
                                                        (
                                                            ValueModel::Object(
                                                                object_of(seq![first] + rest),
                                                            ),
                                                            e2,
                                                        ),
                                                    )
                                                } else {
                                                    Err(ErrModel::UnexpectedTerminal {
                                                        offset: s2,
                                                        expected: seq![TerminalCat::RBrace],
                                                        found: spec_token_cat(t2),
                                                    })
                                                }
                                            },
                                        }
                                    }
                                },
                            }
                        }
                    },
                }
            } else {
                Err(ErrModel::UnexpectedTerminal {
                    offset: start,
                    expected: select_row(NonTerminal::Object1),
                    found: spec_token_cat(t),
                })
            }
        },
    }
}

/// Parses the pairs an object holds after its first one: each a comma and a
/// pair, ending before the `}`, which is left unconsumed.
pub open spec fn spec_parse_pair_list(bytes: Seq<u8>, pos: int) -> Result<
    (Seq<(Seq<u8>, ValueModel)>, int),
    ErrModel,
>
    decreases bytes.len() - pos, 0int,
        when 0 <= pos <= bytes.len()
{
    match spec_lex(bytes, pos) {
        LexStep::EofAt(o) => Err(ErrModel::EndOfInput(o)),
        LexStep::BadAt(o) => Err(ErrModel::UnexpectedToken(o)),
        LexStep::Tok { t, start, end } => {
            proof {
                lemma_lex_advances(bytes, pos);
            }
            if t is RBrace {
                Ok((Seq::empty(), start))
            } else if t is Comma {
                match spec_parse_pair(bytes, end) {
                    Err(e) => Err(e),
                    Ok((p, mid)) => {
                        if !(pos < mid <= bytes.len()) {
                            Err(ErrModel::InternalInvariantViolation)
                        } else {
                            match spec_parse_pair_list(bytes, mid) {
                                Err(e) => Err(e),
                                Ok((rest, stop)) => Ok((seq![p] + rest, stop)),
                            }
                        }
                    },
                }
            } else {
                Err(ErrModel::UnexpectedTerminal {
                    offset: start,
                    expected: select_row(NonTerminal::PairList),
                    found: spec_token_cat(t),
                })
            }
        },
    }
}

/// Parses one pair: a string key, a colon, and a value.
pub open spec fn spec_parse_pair(bytes: Seq<u8>, pos: int) -> Result<
    ((Seq<u8>, ValueModel), int),
    ErrModel,
>
    decreases bytes.len() - pos, 0int,
        when 0 <= pos <= bytes.len()
{
    match spec_lex(bytes, pos) {
        LexStep::EofAt(o) => Err(ErrModel::EndOfInput(o)),
        LexStep::BadAt(o) => Err(ErrModel::UnexpectedToken(o)),
        LexStep::Tok { t, start, end } => {
            proof {
                lemma_lex_advances(bytes, pos);
            }
            match t {
                TokenModel::Str(k) => match spec_lex(bytes, end) {
                    LexStep::EofAt(o) => Err(ErrModel::EndOfInput(o)),
                    LexStep::BadAt(o) => Err(ErrModel::UnexpectedToken(o)),
                    LexStep::Tok { t: t2, start: s2, end: e2 } => {
                        proof {
                            lemma_lex_advances(bytes, end);
                        }
                        if t2 is Colon {
                            match spec_parse_value(bytes, e2) {
                                Err(e) => Err(e),
                                Ok((v, stop)) => Ok(((k, v), stop)),
                            }
                        } else {
                            Err(ErrModel::UnexpectedTerminal {
                                offset: s2,
                                expected: seq![TerminalCat::Colon],
                                found: spec_token_cat(t2),
                            })
                        }
                    },
                },
                _ => Err(ErrModel::UnexpectedTerminal {
                    offset: start,
                    expected: select_row(NonTerminal::Pair),
                    found: spec_token_cat(t),
                }),
            }
        },
    }
}


/// Parses one `Value` and then requires the input to be exhausted: a token
/// left over after the value is an error naming its offset, with nothing in
/// its expected set; trailing whitespace is allowed. This is what the
/// public `parse` methods return.
pub open spec fn spec_parse_document(bytes: Seq<u8>, pos: int) -> Result<
    (ValueModel, int),
    ErrModel,
> {
    match spec_parse_value(bytes, pos) {
        Err(e) => Err(e),
        Ok((v, end)) => {
            if !(0 <= end <= bytes.len()) {
                Err(ErrModel::InternalInvariantViolation)
            } else {
                match spec_lex(bytes, end) {
                    LexStep::EofAt(o) => Ok((v, end)),
                    LexStep::BadAt(o) => Err(ErrModel::UnexpectedToken(o)),
                    LexStep::Tok { t, start, end: e2 } => Err(
                        ErrModel::UnexpectedTerminal {
                            offset: start,
                            expected: Seq::empty(),
                            found: spec_token_cat(t),
                        },
                    ),
                }
            }
        },
    }
}

/// Bounds of `spec_parse_document`: success ends inside the input past
/// where it began, and `InternalInvariantViolation` is never the answer.
pub proof fn lemma_parse_document_bounds(bytes: Seq<u8>, pos: int)
    requires
        0 <= pos <= bytes.len(),
    ensures
        spec_parse_document(bytes, pos) matches Ok(r) ==> pos < r.1 <= bytes.len(),
        spec_parse_document(bytes, pos) != Err::<(ValueModel, int), ErrModel>(
            ErrModel::InternalInvariantViolation,
        ),
{
    lemma_parse_value_bounds(bytes, pos);
}

/// Bounds of the six parse functions: a successful parse ends inside the
/// input and past where it began (a list parse may end where it began, on
/// its closing bracket), and no parse ever yields
/// `InternalInvariantViolation`: the guards in the definitions are never
/// taken.
pub proof fn lemma_parse_value_bounds(bytes: Seq<u8>, pos: int)
    requires
        0 <= pos <= bytes.len(),
    ensures
        spec_parse_value(bytes, pos) matches Ok(r) ==> pos < r.1 <= bytes.len(),
        spec_parse_value(bytes, pos) != Err::<(ValueModel, int), ErrModel>(
            ErrModel::InternalInvariantViolation,
        ),
    decreases bytes.len() - pos, 0int,
{
    lemma_lex_advances(bytes, pos);
    if let LexStep::Tok { t, start, end } = spec_lex(bytes, pos) {
        match t {
            TokenModel::LBracket => lemma_parse_array1_bounds(bytes, end),
            TokenModel::LBrace => lemma_parse_object1_bounds(bytes, end),
            _ => {},
        }
    }
}

/// See `lemma_parse_value_bounds`.
pub proof fn lemma_parse_array1_bounds(bytes: Seq<u8>, pos: int)
    requires
        0 <= pos <= bytes.len(),
    ensures
        spec_parse_array1(bytes, pos) matches Ok(r) ==> pos < r.1 <= bytes.len(),
        spec_parse_array1(bytes, pos) != Err::<(ValueModel, int), ErrModel>(
            ErrModel::InternalInvariantViolation,
        ),
    decreases bytes.len() - pos, 1int,
{
    lemma_lex_advances(bytes, pos);
    if let LexStep::Tok { t, start, end } = spec_lex(bytes, pos) {
        if !(t is RBracket) {
            lemma_parse_value_bounds(bytes, start);
            if let Ok((first, mid)) = spec_parse_value(bytes, start) {
                lemma_parse_value_list_bounds(bytes, mid);
                if let Ok((rest, stop)) = spec_parse_value_list(bytes, mid) {
                    lemma_lex_advances(bytes, stop);
                }
            }
        }
    }
}

/// See `lemma_parse_value_bounds`.
pub proof fn lemma_parse_value_list_bounds(bytes: Seq<u8>, pos: int)
    requires
        0 <= pos <= bytes.len(),
    ensures
        spec_parse_value_list(bytes, pos) matches Ok(r) ==> pos <= r.1 <= bytes.len(),
        spec_parse_value_list(bytes, pos) != Err::<(Seq<ValueModel>, int), ErrModel>(
            ErrModel::InternalInvariantViolation,
        ),
    decreases bytes.len() - pos, 0int,
{
    lemma_lex_advances(bytes, pos);
    if let LexStep::Tok { t, start, end } = spec_lex(bytes, pos) {
        if t is Comma {
            lemma_parse_value_bounds(bytes, end);
            if let Ok((v, mid)) = spec_parse_value(bytes, end) {
                lemma_parse_value_list_bounds(bytes, mid);
            }
        }
    }
}

/// See `lemma_parse_value_bounds`.
pub proof fn lemma_parse_object1_bounds(bytes: Seq<u8>, pos: int)
    requires
        0 <= pos <= bytes.len(),
    ensures
        spec_parse_object1(bytes, pos) matches Ok(r) ==> pos < r.1 <= bytes.len(),
        spec_parse_object1(bytes, pos) != Err::<(ValueModel, int), ErrModel>(
            ErrModel::InternalInvariantViolation,
        ),
    decreases bytes.len() - pos, 1int,
{
    lemma_lex_advances(bytes, pos);
    if let LexStep::Tok { t, start, end } = spec_lex(bytes, pos) {
        if !(t is RBrace) && t is Str {
            lemma_parse_pair_bounds(bytes, start);
            if let Ok((first, mid)) = spec_parse_pair(bytes, start) {
                lemma_parse_pair_list_bounds(bytes, mid);
                if let Ok((rest, stop)) = spec_parse_pair_list(bytes, mid) {
                    lemma_lex_advances(bytes, stop);
                }
            }
        }
    }
}

/// See `lemma_parse_value_bounds`.
pub proof fn lemma_parse_pair_list_bounds(bytes: Seq<u8>, pos: int)
    requires
        0 <= pos <= bytes.len(),
    ensures
        spec_parse_pair_list(bytes, pos) matches Ok(r) ==> pos <= r.1 <= bytes.len(),
        spec_parse_pair_list(bytes, pos) != Err::<(Seq<(Seq<u8>, ValueModel)>, int), ErrModel>(
            ErrModel::InternalInvariantViolation,
        ),
    decreases bytes.len() - pos, 0int,
{
    lemma_lex_advances(bytes, pos);
    if let LexStep::Tok { t, start, end } = spec_lex(bytes, pos) {
        if t is Comma {
            lemma_parse_pair_bounds(bytes, end);
            if let Ok((p, mid)) = spec_parse_pair(bytes, end) {
                lemma_parse_pair_list_bounds(bytes, mid);
            }
        }
    }
}

/// See `lemma_parse_value_bounds`.
pub proof fn lemma_parse_pair_bounds(bytes: Seq<u8>, pos: int)
    requires
        0 <= pos <= bytes.len(),
    ensures
        spec_parse_pair(bytes, pos) matches Ok(r) ==> pos + 2 < r.1 <= bytes.len(),
        spec_parse_pair(bytes, pos) != Err::<((Seq<u8>, ValueModel), int), ErrModel>(
            ErrModel::InternalInvariantViolation,
        ),
    decreases bytes.len() - pos, 0int,
{
    lemma_lex_advances(bytes, pos);
    if let LexStep::Tok { t, start, end } = spec_lex(bytes, pos) {
        if let TokenModel::Str(k) = t {
            lemma_lex_advances(bytes, end);
            if let LexStep::Tok { t: t2, start: s2, end: e2 } = spec_lex(bytes, end) {
                if t2 is Colon {
                    lemma_parse_value_bounds(bytes, e2);
                }
            }
        }
    }
}

} // verus!
