use vstd::prelude::*;
use crate::errors::{ErrModel, ParseError};
use crate::grammar::{expected_of, production_rhs, table, NonTerminal, Production, Symbol};
use crate::lexer::{Lexer, LexerModel};
use crate::machine::{
    expand_frames, spec_machine_run, spec_settle, spec_shift, take_pairs, Frame, StepOut,
};
use crate::token::{token2symbol, TerminalCat, TokenModel, TOKEN};
use crate::value::{
    build_object, entry_models_of, lemma_entry_models_of, lemma_models_of, models_of, Value,
    ValueModel,
};

verus! {

/// The models of a whole value stack.
pub open spec fn vals_model(v: Seq<Value>) -> Seq<ValueModel> {
    models_of(v, v.len() as int)
}

/// Folds the values above the top frame's base into one Array, consuming the
/// frame, as `spec_shift` says of `]`. `false` is broken bookkeeping: no
/// frame, or an object frame on top.
#[verifier::loop_isolation(false)]
fn fold_array(vals: &mut Vec<Value>, frames: &mut Vec<Frame>) -> (ok: bool)
    ensures
        match spec_shift(TokenModel::RBracket, old(frames)@, vals_model(old(vals)@)) {
            Some(fv) => ok && final(frames)@ == fv.0 && vals_model(final(vals)@) == fv.1,
            None => !ok,
        },
{
    let ghost ov = old(vals)@;
    let ghost vm0 = vals_model(ov);
    proof {
        lemma_models_of(ov, ov.len() as int);
    }
    match frames.pop() {
        None => false,
        Some(Frame::ObjectAt { base }) => false,
        Some(Frame::ArrayAt { base }) => {
            if base > vals.len() {
                return false;
            }
            let ghost n0 = ov.len() as int;
            let mut items: Vec<Value> = Vec::new();
            while vals.len() > base
                invariant
                    base as int <= vals@.len() <= n0,
                    ov.len() == n0,
                    vals@ == ov.subrange(0, vals@.len() as int),
                    items@ == ov.subrange(vals@.len() as int, n0),
                decreases vals@.len(),
            {
                let v = vals.pop().unwrap();
                items.insert(0, v);
                proof {
                    assert(vals@ =~= ov.subrange(0, vals@.len() as int));
                    assert(items@ =~= ov.subrange(vals@.len() as int, n0));
                }
            }
            proof {
                lemma_models_of(items@, items@.len() as int);
            }
            vals.push(Value::Array(items));
            proof {
                lemma_models_of(vals@, vals@.len() as int);
                assert(models_of(items@, items@.len() as int) =~= vm0.subrange(base as int, n0));
                assert(vals_model(vals@) =~= vm0.subrange(0, base as int).push(
                    ValueModel::Array(vm0.subrange(base as int, n0)),
                ));
            }
            true
        },
    }
}

/// Folds the values above the top frame's base into one Object, consuming
/// the frame, as `spec_shift` says of `}`: the run must alternate string
/// keys and values, and a later duplicate key overwrites an earlier one.
#[verifier::loop_isolation(false)]
fn fold_object(vals: &mut Vec<Value>, frames: &mut Vec<Frame>) -> (ok: bool)
    ensures
        match spec_shift(TokenModel::RBrace, old(frames)@, vals_model(old(vals)@)) {
            Some(fv) => ok && final(frames)@ == fv.0 && vals_model(final(vals)@) == fv.1,
            None => !ok,
        },
{
    let ghost ov = old(vals)@;
    let ghost vm0 = vals_model(ov);
    proof {
        lemma_models_of(ov, ov.len() as int);
    }
    match frames.pop() {
        None => false,
        Some(Frame::ArrayAt { base }) => false,
        Some(Frame::ObjectAt { base }) => {
            if base > vals.len() {
                return false;
            }
            let ghost n0 = ov.len() as int;
            let mut pairs: Vec<(Vec<u8>, Value)> = Vec::new();
            proof {
                assert(vm0.subrange(0, n0) =~= vm0);
                assert(entry_models_of(pairs@, 0) =~= Seq::<(Seq<u8>, ValueModel)>::empty());
            }
            while vals.len() - base >= 2
                invariant
                    base as int <= vals@.len() <= n0,
                    ov.len() == n0,
                    vals@ == ov.subrange(0, vals@.len() as int),
                    take_pairs(vm0, base as int) == (match take_pairs(
                        vm0.subrange(0, vals@.len() as int),
                        base as int,
                    ) {
                        Some(ps1) => Some(
                            ps1 + entry_models_of(pairs@, pairs@.len() as int),
                        ),
                        None => None::<Seq<(Seq<u8>, ValueModel)>>,
                    }),
                decreases vals@.len(),
            {
                let ghost lpre = vals@.len() as int;
                let ghost pm_pre = entry_models_of(pairs@, pairs@.len() as int);
                proof {
                    lemma_entry_models_of(pairs@, pairs@.len() as int);
                }
                let v = vals.pop().unwrap();
                let kv = vals.pop().unwrap();
                proof {
                    assert(vals@ =~= ov.subrange(0, vals@.len() as int));
                    assert(vm0.subrange(0, lpre).drop_last().drop_last() =~= vm0.subrange(
                        0,
                        lpre - 2,
                    ));
                    assert(v.model() == vm0[lpre - 1]);
                    assert(kv.model() == vm0[lpre - 2]);
                }
                match kv {
                    Value::String(s) => {
                        pairs.insert(0, (s, v));
                        proof {
                            lemma_entry_models_of(pairs@, pairs@.len() as int);
                            assert(entry_models_of(pairs@, pairs@.len() as int) =~= seq![
                                (vm0[lpre - 2]->String_0, vm0[lpre - 1]),
                            ] + pm_pre);
                            if let Some(ps1) = take_pairs(vm0.subrange(0, lpre - 2), base as int) {
                                assert(ps1.push((vm0[lpre - 2]->String_0, vm0[lpre - 1]))
                                    + pm_pre =~= ps1 + entry_models_of(
                                    pairs@,
                                    pairs@.len() as int,
                                ));
                            }
                        }
                    },
                    _ => {
                        return false;
                    },
                }
            }
            if vals.len() != base {
                return false;
            }
            let ghost pm = entry_models_of(pairs@, pairs@.len() as int);
            proof {
                assert(take_pairs(vm0.subrange(0, base as int), base as int) == Some(
                    Seq::<(Seq<u8>, ValueModel)>::empty(),
                ));
                assert(Seq::<(Seq<u8>, ValueModel)>::empty() + pm =~= pm);
                assert(take_pairs(vm0, base as int) == Some(pm));
            }
            let obj = build_object(pairs);
            vals.push(Value::Object(obj));
            proof {
                lemma_models_of(vals@, vals@.len() as int);
                assert(entry_models_of(obj@, obj@.len() as int) == crate::value::object_of(pm));
                assert(vals_model(vals@) =~= vm0.subrange(0, base as int).push(
                    ValueModel::Object(crate::value::object_of(pm)),
                ));
            }
            true
        },
    }
}

/// Pushes a production's right-hand side onto the symbol stack in reverse,
/// so that its first symbol is popped next.
fn push_rhs(syms: &mut Vec<Symbol>, p: Production)
    ensures
        final(syms)@ == old(syms)@ + production_rhs(p).reverse(),
{
    let ghost s0 = syms@;
    match p {
        Production::ValueArray => {
            syms.push(Symbol::N(NonTerminal::Array1));
            syms.push(Symbol::T(TerminalCat::LBracket));
        },
        Production::ValueObject => {
            syms.push(Symbol::N(NonTerminal::Object1));
            syms.push(Symbol::T(TerminalCat::LBrace));
        },
        Production::ValueString => {
            syms.push(Symbol::T(TerminalCat::Str));
        },
        Production::ValueNumber => {
            syms.push(Symbol::T(TerminalCat::Num));
        },
        Production::ValueBool => {
            syms.push(Symbol::T(TerminalCat::Bool));
        },
        Production::ValueNull => {
            syms.push(Symbol::T(TerminalCat::Null));
        },
        Production::Array1Empty => {
            syms.push(Symbol::T(TerminalCat::RBracket));
        },
        Production::Array1Items => {
            syms.push(Symbol::T(TerminalCat::RBracket));
            syms.push(Symbol::N(NonTerminal::ValueList));
            syms.push(Symbol::N(NonTerminal::Value));
        },
        Production::ValueListCons => {
            syms.push(Symbol::N(NonTerminal::ValueList));
            syms.push(Symbol::N(NonTerminal::Value));
            syms.push(Symbol::T(TerminalCat::Comma));
        },
        Production::ValueListEmpty => {
            syms.push(Symbol::T(TerminalCat::Epsilon));
        },
        Production::Object1Empty => {
            syms.push(Symbol::T(TerminalCat::RBrace));
        },
        Production::Object1Items => {
            syms.push(Symbol::T(TerminalCat::RBrace));
            syms.push(Symbol::N(NonTerminal::PairList));
            syms.push(Symbol::N(NonTerminal::Pair));
        },
        Production::PairListCons => {
            syms.push(Symbol::N(NonTerminal::PairList));
            syms.push(Symbol::N(NonTerminal::Pair));
            syms.push(Symbol::T(TerminalCat::Comma));
        },
        Production::PairListEmpty => {
            syms.push(Symbol::T(TerminalCat::Epsilon));
        },
        Production::PairString => {
            syms.push(Symbol::N(NonTerminal::Value));
            syms.push(Symbol::T(TerminalCat::Colon));
            syms.push(Symbol::T(TerminalCat::Str));
        },
    }
    proof {
        assert(syms@ =~= s0 + production_rhs(p).reverse());
    }
}

/// The table-driven engine: a lexer, the stack of pending grammar symbols,
/// the stack of partly built values, and the production-history stack of
/// open containers. The three stacks move in lock step as `spec_settle`
/// says; no recursion is used.
pub struct TableDrivenParser {
    lexer: Lexer,
    symbol_stack: Vec<Symbol>,
    value_stack: Vec<Value>,
    rules_stack: Vec<Frame>,
}

impl TableDrivenParser {
    /// The model of the engine's lexer.
    pub closed spec fn lx(self) -> LexerModel {
        self.lexer@
    }

    /// The model of the symbol stack.
    pub closed spec fn syms(self) -> Seq<Symbol> {
        self.symbol_stack@
    }

    /// The model of the production-history stack.
    pub closed spec fn frames(self) -> Seq<Frame> {
        self.rules_stack@
    }

    /// The model of the value stack.
    pub closed spec fn vals(self) -> Seq<ValueModel> {
        vals_model(self.value_stack@)
    }

    /// An engine over `lexer`, standing at the start configuration: the
    /// start symbol alone on the symbol stack, the other two stacks empty.
    pub fn new(lexer: Lexer) -> (r: TableDrivenParser)
        ensures
            r.lx() == lexer@,
            r.syms() == seq![Symbol::N(NonTerminal::Value)],
            r.frames() == Seq::<Frame>::empty(),
            r.vals() == Seq::<ValueModel>::empty(),
    {
        let r = TableDrivenParser {
            lexer,
            symbol_stack: vec![Symbol::N(NonTerminal::Value)],
            value_stack: Vec::new(),
            rules_stack: Vec::new(),
        };
        proof {
            assert(r.symbol_stack@ =~= seq![Symbol::N(NonTerminal::Value)]);
            assert(r.rules_stack@ =~= Seq::<Frame>::empty());
            assert(vals_model(r.value_stack@) =~= Seq::<ValueModel>::empty());
        }
        r
    }

    /// Drives one fetched token through the symbol stack, as `spec_settle`
    /// says: epsilon markers are discarded, nonterminals are expanded by the
    /// predictive table, and the token is finally consumed against a matching
    /// terminal, leaving a new configuration for the next token.
    #[verifier::loop_isolation(false)]
    fn settle_token(&mut self, tok: TOKEN, cat: TerminalCat, start: usize) -> (r: Result<
        (),
        ParseError,
    >)
        requires
            cat == crate::token::spec_token_cat(tok@),
            cat != TerminalCat::Epsilon,
        ensures
            final(self).lx() == old(self).lx(),
            match r {
                Ok(u) => spec_settle(
                    tok@,
                    start as int,
                    old(self).syms(),
                    old(self).frames(),
                    old(self).vals(),
                ) == StepOut::Next(final(self).syms(), final(self).frames(), final(self).vals()),
                Err(e) => spec_settle(
                    tok@,
                    start as int,
                    old(self).syms(),
                    old(self).frames(),
                    old(self).vals(),
                ) == StepOut::Failed(e@),
            },
    {
        let ghost tm = tok@;
        let ghost tstart = start as int;
        let ghost s0 = spec_settle(tm, tstart, self.symbol_stack@, self.rules_stack@, vals_model(
            self.value_stack@,
        ));
        loop
            invariant
                spec_settle(
                    tm,
                    tstart,
                    self.symbol_stack@,
                    self.rules_stack@,
                    vals_model(self.value_stack@),
                ) == s0,
                self.lexer == old(self).lexer,
            decreases crate::machine::active_rank(self.symbol_stack@),
        {
            let ghost spre = self.symbol_stack@;
            let ghost fpre = self.rules_stack@;
            let ghost vpre = vals_model(self.value_stack@);
            proof {
                lemma_models_of(self.value_stack@, self.value_stack@.len() as int);
            }
            let popped = self.symbol_stack.pop();
            match popped {
                None => {
                    return Err(ParseError::InternalInvariantViolation);
                },
                Some(Symbol::T(TerminalCat::Epsilon)) => {},
                Some(Symbol::T(term)) => {
                    if term == cat {
                        let ok: bool = match tok {
                            TOKEN::STRING(s) => {
                                self.value_stack.push(Value::String(s));
                                true
                            },
                            TOKEN::NUMBER(n) => {
                                self.value_stack.push(Value::Number(n));
                                true
                            },
                            TOKEN::BOOL(b) => {
                                self.value_stack.push(Value::Bool(b));
                                true
                            },
                            TOKEN::NULL => {
                                self.value_stack.push(Value::Null);
                                true
                            },
                            TOKEN::RBRACKET => fold_array(
                                &mut self.value_stack,
                                &mut self.rules_stack,
                            ),
                            TOKEN::RBRACE => fold_object(
                                &mut self.value_stack,
                                &mut self.rules_stack,
                            ),
                            _ => true,
                        };
                        proof {
                            lemma_models_of(self.value_stack@, self.value_stack@.len() as int);
                            if ok && !(tm is RBracket) && !(tm is RBrace) {
                                assert(spec_shift(tm, fpre, vpre) matches Some(fv) && fv.0
                                    == self.rules_stack@ && fv.1 =~= vals_model(
                                    self.value_stack@,
                                ));
                            }
                        }
                        if !ok {
                            return Err(ParseError::InternalInvariantViolation);
                        }
                        let ghost vals2 = vals_model(self.value_stack@);
                        proof {
                            assert(s0 == StepOut::Next(
                                self.symbol_stack@,
                                self.rules_stack@,
                                vals2,
                            ));
                        }
                        return Ok(());
                    } else {
                        let expected = vec![term];
                        proof {
                            assert(expected@ =~= seq![term]);
                        }
                        return Err(
                            ParseError::UnexpectedTerminal { offset: start, expected, found: cat },
                        );
                    }
                },
                Some(Symbol::N(nt)) => {
                    match table(nt, cat) {
                        None => {
                            return Err(
                                ParseError::UnexpectedTerminal {
                                    offset: start,
                                    expected: expected_of(nt),
                                    found: cat,
                                },
                            );
                        },
                        Some(p) => {
                            match p {
                                Production::ValueArray => {
                                    self.rules_stack.push(
                                        Frame::ArrayAt { base: self.value_stack.len() },
                                    );
                                },
                                Production::ValueObject => {
                                    self.rules_stack.push(
                                        Frame::ObjectAt { base: self.value_stack.len() },
                                    );
                                },
                                _ => {},
                            }
                            push_rhs(&mut self.symbol_stack, p);
                            proof {
                                crate::machine::lemma_ar_expand(spre.drop_last(), nt, p, cat);
                                assert(self.rules_stack@ == expand_frames(p, fpre, vpre));
                                assert(spec_settle(
                                    tm,
                                    tstart,
                                    self.symbol_stack@,
                                    self.rules_stack@,
                                    vals_model(self.value_stack@),
                                ) == s0);
                            }
                        },
                    }
                },
            }
        }
    }

    /// Runs the engine to its end, as `spec_machine_run` says of the
    /// configuration it stands in: the parsed `Value`, or the error that the
    /// lexer, the predictive table or a mismatched terminal reports first.
    /// Input past the accepted value is left unread.
    #[verifier::loop_isolation(false)]
    pub fn parse(&mut self) -> (r: Result<Value, ParseError>)
        requires
            old(self).lx().wf(),
        ensures
            match r {
                Ok(v) => spec_machine_run(
                    old(self).lx().bytes,
                    old(self).lx().eff(),
                    old(self).syms(),
                    old(self).frames(),
                    old(self).vals(),
                ) matches Ok(res) && res.0 == v@,
                Err(e) => spec_machine_run(
                    old(self).lx().bytes,
                    old(self).lx().eff(),
                    old(self).syms(),
                    old(self).frames(),
                    old(self).vals(),
                ) == Err::<(ValueModel, int), _>(e@),
            },
    {
        let ghost bytes = self.lexer@.bytes;
        let ghost r0 = spec_machine_run(
            bytes,
            self.lexer@.eff(),
            self.symbol_stack@,
            self.rules_stack@,
            vals_model(self.value_stack@),
        );
        loop
            invariant
                self.lexer@.wf(),
                self.lexer@.bytes == bytes,
                spec_machine_run(
                    bytes,
                    self.lexer@.eff(),
                    self.symbol_stack@,
                    self.rules_stack@,
                    vals_model(self.value_stack@),
                ) == r0,
                0 <= self.lexer@.eff() <= bytes.len(),
            decreases bytes.len() - self.lexer@.eff(),
        {
            let ghost p0 = self.lexer@.eff();
            let ghost syms0 = self.symbol_stack@;
            let ghost frames0 = self.rules_stack@;
            let ghost vals0 = vals_model(self.value_stack@);
            proof {
                lemma_models_of(self.value_stack@, self.value_stack@.len() as int);
            }
            if self.symbol_stack.len() == 0 {
                if self.value_stack.len() != 1 {
                    return Err(ParseError::InternalInvariantViolation);
                }
                match self.lexer.lex() {
                    Err(ParseError::EndOfInput(_)) => {
                        let v = self.value_stack.pop().unwrap();
                        proof {
                            assert(v@ == vals0[0]);
                            assert(r0 == Ok::<(ValueModel, int), ErrModel>((v@, p0)));
                        }
                        return Ok(v);
                    },
                    Err(e) => {
                        return Err(e);
                    },
                    Ok(extra) => {
                        let found = token2symbol(&extra);
                        let offset = self.lexer.token_start();
                        let expected: Vec<TerminalCat> = Vec::new();
                        proof {
                            assert(expected@ =~= Seq::<TerminalCat>::empty());
                        }
                        return Err(
                            ParseError::UnexpectedTerminal { offset, expected, found },
                        );
                    },
                }
            }
            let tok = match self.lexer.lex() {
                Ok(t) => t,
                Err(e) => {
                    proof {
                        assert(spec_machine_run(bytes, p0, syms0, frames0, vals0) == Err::<
                            (ValueModel, int),
                            ErrModel,
                        >(e@));
                    }
                    return Err(e);
                },
            };
            let cat = token2symbol(&tok);
            let start = self.lexer.token_start();
            let ghost tend = self.lexer@.pos;
            proof {
                crate::lexer::lemma_lex_advances(bytes, p0);
            }
            match self.settle_token(tok, cat, start) {
                Err(e) => {
                    proof {
                        assert(spec_machine_run(bytes, p0, syms0, frames0, vals0) == Err::<
                            (ValueModel, int),
                            ErrModel,
                        >(e@));
                    }
                    return Err(e);
                },
                Ok(u) => {
                    proof {
                        assert(spec_machine_run(bytes, p0, syms0, frames0, vals0)
                            == spec_machine_run(
                            bytes,
                            tend,
                            self.symbol_stack@,
                            self.rules_stack@,
                            vals_model(self.value_stack@),
                        ));
                    }
                },
            }
        }
    }
}

} // verus!
