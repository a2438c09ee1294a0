use vstd::prelude::*;
use crate::errors::{ErrModel, ParseError};
use crate::grammar::{expected_of, NonTerminal};
use crate::lexer::{lemma_lex_advances, Lexer, LexerModel};
use crate::syntax::{
    lemma_parse_pair_bounds, lemma_parse_pair_list_bounds, lemma_parse_value_bounds,
    spec_parse_document,
    lemma_parse_value_list_bounds, spec_parse_array1, spec_parse_object1, spec_parse_pair,
    spec_parse_pair_list, spec_parse_value, spec_parse_value_list,
};
use crate::token::{token2symbol, TerminalCat, TOKEN};
use crate::value::{
    build_object, entry_models_of, lemma_entry_models_of, lemma_models_of, models_of, Value,
    ValueModel,
};

verus! {

/// A recursive-descent parser for the grammar, one method per nonterminal,
/// each choosing its production by the next token exactly as the predictive
/// table would. It restates the grammar that the table-driven engine walks
/// and meets the same specification, `spec_parse_value`.
pub struct DefiniteParser {
    lexer: Lexer,
}

impl DefiniteParser {
    /// The model of the parser's lexer.
    pub closed spec fn lx(self) -> LexerModel {
        self.lexer@
    }

    /// A parser drawing tokens from `lexer`.
    pub fn new(lexer: Lexer) -> (r: DefiniteParser)
        ensures
            r.lx() == lexer@,
    {
        DefiniteParser { lexer }
    }

    /// Parses one `Value` and then requires the input to be exhausted: a
    /// token after the value is an error at its offset, with nothing in its
    /// expected set.
    pub fn parse(&mut self) -> (r: Result<Value, ParseError>)
        requires
            old(self).lx().wf(),
        ensures
            final(self).lx().wf(),
            final(self).lx().bytes == old(self).lx().bytes,
            match r {
                Ok(v) => spec_parse_document(old(self).lx().bytes, old(self).lx().eff())
                    matches Ok(res) && res.0 == v@,
                Err(e) => spec_parse_document(old(self).lx().bytes, old(self).lx().eff())
                    == Err::<(ValueModel, int), _>(e@),
            },
    {
        let ghost bytes = self.lx().bytes;
        let ghost p0 = self.lx().eff();
        let v = match self.parse_value() {
            Ok(v) => v,
            Err(e) => {
                return Err(e);
            },
        };
        proof {
            lemma_parse_value_bounds(bytes, p0);
        }
        match self.lexer.lex() {
            Err(ParseError::EndOfInput(o)) => Ok(v),
            Err(e) => Err(e),
            Ok(extra) => {
                let found = token2symbol(&extra);
                let offset = self.lexer.token_start();
                let expected: Vec<TerminalCat> = Vec::new();
                proof {
                    assert(expected@ =~= Seq::<TerminalCat>::empty());
                }
                Err(ParseError::UnexpectedTerminal { offset, expected, found })
            },
        }
    }

    /// One `Value`: a bracketed array, a braced object, or a scalar token.
    fn parse_value(&mut self) -> (r: Result<Value, ParseError>)
        requires
            old(self).lx().wf(),
        ensures
            final(self).lx().wf(),
            final(self).lx().bytes == old(self).lx().bytes,
            match r {
                Ok(v) => final(self).lx().pushed is None && spec_parse_value(
                    old(self).lx().bytes,
                    old(self).lx().eff(),
                ) == Ok::<_, ErrModel>((v@, final(self).lx().pos)),
                Err(e) => spec_parse_value(old(self).lx().bytes, old(self).lx().eff()) == Err::<
                    (ValueModel, int),
                    _,
                >(e@),
            },
        decreases old(self).lx().bytes.len() - old(self).lx().eff(), 1int,
    {
        let ghost bytes = self.lx().bytes;
        let ghost p0 = self.lx().eff();
        proof {
            lemma_lex_advances(bytes, p0);
        }
        match self.lexer.lex() {
            Err(e) => Err(e),
            Ok(TOKEN::LBRACE) => self.parse_object1(),
            Ok(TOKEN::LBRACKET) => self.parse_array1(),
            Ok(TOKEN::STRING(s)) => Ok(Value::String(s)),
            Ok(TOKEN::NUMBER(n)) => Ok(Value::Number(n)),
            Ok(TOKEN::BOOL(b)) => Ok(Value::Bool(b)),
            Ok(TOKEN::NULL) => Ok(Value::Null),
            Ok(tok) => {
                let offset = self.lexer.token_start();
                Err(
                    ParseError::UnexpectedTerminal {
                        offset,
                        expected: expected_of(NonTerminal::Value),
                        found: token2symbol(&tok),
                    },
                )
            },
        }
    }

    /// The rest of an array after its `[`: a `]`, or a first value, the
    /// remaining values, and the `]`.
    fn parse_array1(&mut self) -> (r: Result<Value, ParseError>)
        requires
            old(self).lx().wf(),
        ensures
            final(self).lx().wf(),
            final(self).lx().bytes == old(self).lx().bytes,
            match r {
                Ok(v) => final(self).lx().pushed is None && spec_parse_array1(
                    old(self).lx().bytes,
                    old(self).lx().eff(),
                ) == Ok::<_, ErrModel>((v@, final(self).lx().pos)),
                Err(e) => spec_parse_array1(old(self).lx().bytes, old(self).lx().eff()) == Err::<
                    (ValueModel, int),
                    _,
                >(e@),
            },
        decreases old(self).lx().bytes.len() - old(self).lx().eff(), 2int,
    {
        let ghost bytes = self.lx().bytes;
        let ghost p0 = self.lx().eff();
        proof {
            lemma_lex_advances(bytes, p0);
        }
        match self.lexer.lex() {
            Err(e) => Err(e),
            Ok(TOKEN::RBRACKET) => {
                let items: Vec<Value> = Vec::new();
                proof {
                    assert(models_of(items@, 0) =~= Seq::<ValueModel>::empty());
                }
                Ok(Value::Array(items))
            },
            Ok(tok @ (TOKEN::COMMA | TOKEN::COLON | TOKEN::RBRACE)) => {
                let offset = self.lexer.token_start();
                Err(
                    ParseError::UnexpectedTerminal {
                        offset,
                        expected: expected_of(NonTerminal::Array1),
                        found: token2symbol(&tok),
                    },
                )
            },
            Ok(_) => {
                self.lexer.push_back();
                let ghost start = self.lx().eff();
                let first = match self.parse_value() {
                    Ok(v) => v,
                    Err(e) => {
                        return Err(e);
                    },
                };
                let ghost mid = self.lx().pos;
                proof {
                    lemma_parse_value_bounds(bytes, start);
                }
                let rest = match self.parse_value_list() {
                    Ok(l) => l,
                    Err(e) => {
                        return Err(e);
                    },
                };
                let ghost rm = rest@;
                proof {
                    lemma_parse_value_list_bounds(bytes, mid);
                }
                match self.lexer.lex() {
                    Err(e) => Err(e),
                    Ok(TOKEN::RBRACKET) => {
                        let mut items: Vec<Value> = Vec::new();
                        items.push(first);
                        let mut rest = rest;
                        items.append(&mut rest);
                        proof {
                            lemma_models_of(items@, items@.len() as int);
                            lemma_models_of(rm, rm.len() as int);
                            assert(models_of(items@, items@.len() as int) =~= seq![first@]
                                + models_of(rm, rm.len() as int));
                        }
                        Ok(Value::Array(items))
                    },
                    Ok(tok2) => {
                        let offset = self.lexer.token_start();
                        let expected = vec![TerminalCat::RBracket];
                        proof {
                            assert(expected@ =~= seq![TerminalCat::RBracket]);
                        }
                        Err(
                            ParseError::UnexpectedTerminal {
                                offset,
                                expected,
                                found: token2symbol(&tok2),
                            },
                        )
                    },
                }
            },
        }
    }

    /// The values an array holds after its first one: each a comma and a
    /// value, ending before the `]`, which is pushed back for the caller.
    fn parse_value_list(&mut self) -> (r: Result<Vec<Value>, ParseError>)
        requires
            old(self).lx().wf(),
        ensures
            final(self).lx().wf(),
            final(self).lx().bytes == old(self).lx().bytes,
            match r {
                Ok(l) => spec_parse_value_list(old(self).lx().bytes, old(self).lx().eff())
                    == Ok::<_, ErrModel>((models_of(l@, l@.len() as int), final(self).lx().eff())),
                Err(e) => spec_parse_value_list(old(self).lx().bytes, old(self).lx().eff())
                    == Err::<(Seq<ValueModel>, int), _>(e@),
            },
        decreases old(self).lx().bytes.len() - old(self).lx().eff(), 0int,
    {
        let ghost bytes = self.lx().bytes;
        let ghost p0 = self.lx().eff();
        proof {
            lemma_lex_advances(bytes, p0);
        }
        match self.lexer.lex() {
            Err(e) => Err(e),
            Ok(TOKEN::RBRACKET) => {
                self.lexer.push_back();
                let l: Vec<Value> = Vec::new();
                proof {
                    assert(models_of(l@, 0) =~= Seq::<ValueModel>::empty());
                }
                Ok(l)
            },
            Ok(TOKEN::COMMA) => {
                let ghost e1 = self.lx().pos;
                let v = match self.parse_value() {
                    Ok(v) => v,
                    Err(e) => {
                        return Err(e);
                    },
                };
                let ghost mid = self.lx().pos;
                proof {
                    lemma_parse_value_bounds(bytes, e1);
                }
                let mut rest = match self.parse_value_list() {
                    Ok(l) => l,
                    Err(e) => {
                        return Err(e);
                    },
                };
                let ghost rm = rest@;
                rest.insert(0, v);
                proof {
                    lemma_models_of(rest@, rest@.len() as int);
                    lemma_models_of(rm, rm.len() as int);
                    assert(models_of(rest@, rest@.len() as int) =~= seq![v@] + models_of(
                        rm,
                        rm.len() as int,
                    ));
                }
                Ok(rest)
            },
            Ok(tok) => {
                let offset = self.lexer.token_start();
                Err(
                    ParseError::UnexpectedTerminal {
                        offset,
                        expected: expected_of(NonTerminal::ValueList),
                        found: token2symbol(&tok),
                    },
                )
            },
        }
    }

    /// The rest of an object after its `{`: a `}`, or a first pair, the
    /// remaining pairs, and the `}`.
    fn parse_object1(&mut self) -> (r: Result<Value, ParseError>)
        requires
            old(self).lx().wf(),
        ensures
            final(self).lx().wf(),
            final(self).lx().bytes == old(self).lx().bytes,
            match r {
                Ok(v) => final(self).lx().pushed is None && spec_parse_object1(
                    old(self).lx().bytes,
                    old(self).lx().eff(),
                ) == Ok::<_, ErrModel>((v@, final(self).lx().pos)),
                Err(e) => spec_parse_object1(old(self).lx().bytes, old(self).lx().eff()) == Err::<
                    (ValueModel, int),
                    _,
                >(e@),
            },
        decreases old(self).lx().bytes.len() - old(self).lx().eff(), 2int,
    {
        let ghost bytes = self.lx().bytes;
        let ghost p0 = self.lx().eff();
        proof {
            lemma_lex_advances(bytes, p0);
        }
        match self.lexer.lex() {
            Err(e) => Err(e),
            Ok(TOKEN::RBRACE) => {
                let pairs: Vec<(Vec<u8>, Value)> = Vec::new();
                proof {
                    assert(entry_models_of(pairs@, 0) =~= Seq::<(Seq<u8>, ValueModel)>::empty());
                }
                Ok(Value::Object(pairs))
            },
            Ok(TOKEN::STRING(_)) => {
                self.lexer.push_back();
                let ghost start = self.lx().eff();
                let first = match self.parse_pair() {
                    Ok(p) => p,
                    Err(e) => {
                        return Err(e);
                    },
                };
                let ghost mid = self.lx().pos;
                proof {
                    lemma_parse_pair_bounds(bytes, start);
                }
                let rest = match self.parse_pair_list() {
                    Ok(l) => l,
                    Err(e) => {
                        return Err(e);
                    },
                };
                let ghost rm = rest@;
                proof {
                    lemma_parse_pair_list_bounds(bytes, mid);
                }
                match self.lexer.lex() {
                    Err(e) => Err(e),
                    Ok(TOKEN::RBRACE) => {
                        let mut pairs: Vec<(Vec<u8>, Value)> = Vec::new();
                        pairs.push(first);
                        let mut rest = rest;
                        pairs.append(&mut rest);
                        let ghost fm = (first.0@, first.1@);
                        proof {
                            lemma_entry_models_of(pairs@, pairs@.len() as int);
                            lemma_entry_models_of(rm, rm.len() as int);
                            assert(entry_models_of(pairs@, pairs@.len() as int) =~= seq![fm]
                                + entry_models_of(rm, rm.len() as int));
                        }
                        let obj = build_object(pairs);
                        Ok(Value::Object(obj))
                    },
                    Ok(tok2) => {
                        let offset = self.lexer.token_start();
                        let expected = vec![TerminalCat::RBrace];
                        proof {
                            assert(expected@ =~= seq![TerminalCat::RBrace]);
                        }
                        Err(
                            ParseError::UnexpectedTerminal {
                                offset,
                                expected,
                                found: token2symbol(&tok2),
                            },
                        )
                    },
                }
            },
            Ok(tok) => {
                let offset = self.lexer.token_start();
                Err(
                    ParseError::UnexpectedTerminal {
                        offset,
                        expected: expected_of(NonTerminal::Object1),
                        found: token2symbol(&tok),
                    },
                )
            },
        }
    }

    /// The pairs an object holds after its first one: each a comma and a
    /// pair, ending before the `}`, which is pushed back for the caller.
    fn parse_pair_list(&mut self) -> (r: Result<Vec<(Vec<u8>, Value)>, ParseError>)
        requires
            old(self).lx().wf(),
        ensures
            final(self).lx().wf(),
            final(self).lx().bytes == old(self).lx().bytes,
            match r {
                Ok(l) => spec_parse_pair_list(old(self).lx().bytes, old(self).lx().eff()) == Ok::<
                    _,
                    ErrModel,
                >((entry_models_of(l@, l@.len() as int), final(self).lx().eff())),
                Err(e) => spec_parse_pair_list(old(self).lx().bytes, old(self).lx().eff())
                    == Err::<(Seq<(Seq<u8>, ValueModel)>, int), _>(e@),
            },
        decreases old(self).lx().bytes.len() - old(self).lx().eff(), 0int,
    {
        let ghost bytes = self.lx().bytes;
        let ghost p0 = self.lx().eff();
        proof {
            lemma_lex_advances(bytes, p0);
        }
        match self.lexer.lex() {
            Err(e) => Err(e),
            Ok(TOKEN::RBRACE) => {
                self.lexer.push_back();
                let l: Vec<(Vec<u8>, Value)> = Vec::new();
                proof {
                    assert(entry_models_of(l@, 0) =~= Seq::<(Seq<u8>, ValueModel)>::empty());
                }
                Ok(l)
            },
            Ok(TOKEN::COMMA) => {
                let ghost e1 = self.lx().pos;
                let p = match self.parse_pair() {
                    Ok(p) => p,
                    Err(e) => {
                        return Err(e);
                    },
                };
                let ghost mid = self.lx().pos;
                proof {
                    lemma_parse_pair_bounds(bytes, e1);
                }
                let mut rest = match self.parse_pair_list() {
                    Ok(l) => l,
                    Err(e) => {
                        return Err(e);
                    },
                };
                let ghost rm = rest@;
                let ghost pm = (p.0@, p.1@);
                rest.insert(0, p);
                proof {
                    lemma_entry_models_of(rest@, rest@.len() as int);
                    lemma_entry_models_of(rm, rm.len() as int);
                    assert(entry_models_of(rest@, rest@.len() as int) =~= seq![pm]
                        + entry_models_of(rm, rm.len() as int));
                }
                Ok(rest)
            },
            Ok(tok) => {
                let offset = self.lexer.token_start();
                Err(
                    ParseError::UnexpectedTerminal {
                        offset,
                        expected: expected_of(NonTerminal::PairList),
                        found: token2symbol(&tok),
                    },
                )
            },
        }
    }

    /// One pair: a string key, a colon, and a value.
    fn parse_pair(&mut self) -> (r: Result<(Vec<u8>, Value), ParseError>)
        requires
            old(self).lx().wf(),
        ensures
            final(self).lx().wf(),
            final(self).lx().bytes == old(self).lx().bytes,
            match r {
                Ok(p) => final(self).lx().pushed is None && spec_parse_pair(
                    old(self).lx().bytes,
                    old(self).lx().eff(),
                ) == Ok::<_, ErrModel>(((p.0@, p.1@), final(self).lx().pos)),
                Err(e) => spec_parse_pair(old(self).lx().bytes, old(self).lx().eff()) == Err::<
                    ((Seq<u8>, ValueModel), int),
                    _,
                >(e@),
            },
        decreases old(self).lx().bytes.len() - old(self).lx().eff(), 1int,
    {
        let ghost bytes = self.lx().bytes;
        let ghost p0 = self.lx().eff();
        proof {
            lemma_lex_advances(bytes, p0);
        }
        match self.lexer.lex() {
            Err(e) => Err(e),
            Ok(TOKEN::STRING(s)) => {
                let ghost e1 = self.lx().pos;
                proof {
                    lemma_lex_advances(bytes, e1);
                }
                match self.lexer.lex() {
                    Err(e) => Err(e),
                    Ok(TOKEN::COLON) => {
                        let v = match self.parse_value() {
                            Ok(v) => v,
                            Err(e) => {
                                return Err(e);
                            },
                        };
                        Ok((s, v))
                    },
                    Ok(tok2) => {
                        let offset = self.lexer.token_start();
                        let expected = vec![TerminalCat::Colon];
                        proof {
                            assert(expected@ =~= seq![TerminalCat::Colon]);
                        }
                        Err(
                            ParseError::UnexpectedTerminal {
                                offset,
                                expected,
                                found: token2symbol(&tok2),
                            },
                        )
                    },
                }
            },
            Ok(tok) => {
                let offset = self.lexer.token_start();
                Err(
                    ParseError::UnexpectedTerminal {
                        offset,
                        expected: expected_of(NonTerminal::Pair),
                        found: token2symbol(&tok),
                    },
                )
            },
        }
    }
}

} // verus!
