use vstd::prelude::*;
use crate::errors::ErrModel;
use crate::grammar::{production_rhs, NonTerminal, Production, Symbol};
use crate::lexer::{lemma_lex_advances, lemma_lex_at_start, spec_lex, LexStep};
use crate::machine::{spec_machine, spec_machine_run, spec_settle, take_pairs, Frame, StepOut};
use crate::syntax::{
    lemma_parse_pair_bounds, lemma_parse_pair_list_bounds, lemma_parse_value_bounds,
    lemma_parse_value_list_bounds, spec_parse_array1, spec_parse_document, spec_parse_object1,
    spec_parse_pair, spec_parse_pair_list, spec_parse_value, spec_parse_value_list,
};
use crate::token::{spec_token_cat, TerminalCat, TokenModel};
use crate::value::ValueModel;

verus! {

/// The key-value pairs laid out flat, key then value, as the engine keeps
/// them on its value stack while an object is open.
pub open spec fn flat_pairs(ps: Seq<(Seq<u8>, ValueModel)>) -> Seq<ValueModel>
    decreases ps.len(),
{
    if ps.len() == 0 {
        Seq::empty()
    } else {
        flat_pairs(ps.drop_last()).push(ValueModel::String(ps.last().0)).push(ps.last().1)
    }
}

/// Two stack entries per pair.
proof fn lemma_flat_pairs_len(ps: Seq<(Seq<u8>, ValueModel)>)
    ensures
        flat_pairs(ps).len() == 2 * ps.len(),
    decreases ps.len(),
{
    if ps.len() > 0 {
        lemma_flat_pairs_len(ps.drop_last());
    }
}

/// Flattening one pair followed by the rest.
proof fn lemma_flat_pairs_cons(p: (Seq<u8>, ValueModel), ps: Seq<(Seq<u8>, ValueModel)>)
    ensures
        flat_pairs(seq![p] + ps) == seq![ValueModel::String(p.0), p.1] + flat_pairs(ps),
    decreases ps.len(),
{
    if ps.len() == 0 {
        reveal_with_fuel(flat_pairs, 3);
        assert(seq![p] + ps =~= seq![p]);
        assert(seq![p].drop_last() =~= Seq::<(Seq<u8>, ValueModel)>::empty());
        assert(flat_pairs(seq![p] + ps) =~= seq![ValueModel::String(p.0), p.1] + flat_pairs(ps));
    } else {
        lemma_flat_pairs_cons(p, ps.drop_last());
        assert((seq![p] + ps).drop_last() =~= seq![p] + ps.drop_last());
        assert((seq![p] + ps).last() == ps.last());
        assert(flat_pairs(seq![p] + ps) =~= seq![ValueModel::String(p.0), p.1] + flat_pairs(ps));
    }
}

/// Reading the flat pairs back off the stack yields the pairs, in order.
proof fn lemma_take_pairs_flat(vals: Seq<ValueModel>, ps: Seq<(Seq<u8>, ValueModel)>)
    ensures
        take_pairs(vals + flat_pairs(ps), vals.len() as int) == Some(ps),
    decreases ps.len(),
{
    let w = vals + flat_pairs(ps);
    lemma_flat_pairs_len(ps);
    if ps.len() == 0 {
        assert(w =~= vals);
    } else {
        lemma_take_pairs_flat(vals, ps.drop_last());
        lemma_flat_pairs_len(ps.drop_last());
        assert(w.drop_last().drop_last() =~= vals + flat_pairs(ps.drop_last()));
        assert(w[w.len() - 2] == ValueModel::String(ps.last().0));
        assert(w.last() == ps.last().1);
        assert(ps.drop_last().push((ps.last().0, ps.last().1)) =~= ps);
    }
}

/// A parse is the same from the position lexing began at and from the
/// token's own start: the whitespace between them decides nothing.
proof fn lemma_parse_value_at_start(bytes: Seq<u8>, pos: int)
    requires
        0 <= pos <= bytes.len(),
        spec_lex(bytes, pos) is Tok,
    ensures
        spec_parse_value(bytes, spec_lex(bytes, pos)->Tok_start) == spec_parse_value(bytes, pos),
{
    lemma_lex_advances(bytes, pos);
    lemma_lex_at_start(bytes, pos);
}

/// See `lemma_parse_value_at_start`.
proof fn lemma_parse_pair_at_start(bytes: Seq<u8>, pos: int)
    requires
        0 <= pos <= bytes.len(),
        spec_lex(bytes, pos) is Tok,
    ensures
        spec_parse_pair(bytes, spec_lex(bytes, pos)->Tok_start) == spec_parse_pair(bytes, pos),
{
    lemma_lex_advances(bytes, pos);
    lemma_lex_at_start(bytes, pos);
}

/// The engine with a `Value` to expand on top of its symbol stack runs the
/// grammar's `Value` parse, then continues from the rest of the stack with
/// the parsed value pushed. The byte-count bound keeps every frame base an
/// exact `usize`.
#[verifier::rlimit(100)]
proof fn lemma_sim_value(
    bytes: Seq<u8>,
    pos: int,
    syms: Seq<Symbol>,
    frames: Seq<Frame>,
    vals: Seq<ValueModel>,
)
    requires
        0 <= pos <= bytes.len(),
        syms.len() >= 1,
        syms.last() == Symbol::N(NonTerminal::Value),
        vals.len() + bytes.len() - pos <= usize::MAX,
    ensures
        spec_machine_run(bytes, pos, syms, frames, vals) == (match spec_parse_value(bytes, pos) {
            Ok(r) => spec_machine_run(bytes, r.1, syms.drop_last(), frames, vals.push(r.0)),
            Err(e) => Err(e),
        }),
    decreases bytes.len() - pos, 0int,
{
    lemma_lex_advances(bytes, pos);
    lemma_parse_value_bounds(bytes, pos);
    let dl = syms.drop_last();
    if let LexStep::Tok { t, start, end } = spec_lex(bytes, pos) {
        reveal_with_fuel(spec_settle, 3);
        match t {
            TokenModel::Str(sv) => {
                assert(dl + production_rhs(Production::ValueString).reverse() =~= dl.push(
                    Symbol::T(TerminalCat::Str),
                ));
                assert(dl.push(Symbol::T(TerminalCat::Str)).drop_last() =~= dl);
            },
            TokenModel::Num(nv) => {
                assert(dl + production_rhs(Production::ValueNumber).reverse() =~= dl.push(
                    Symbol::T(TerminalCat::Num),
                ));
                assert(dl.push(Symbol::T(TerminalCat::Num)).drop_last() =~= dl);
            },
            TokenModel::Bool(b) => {
                assert(dl + production_rhs(Production::ValueBool).reverse() =~= dl.push(
                    Symbol::T(TerminalCat::Bool),
                ));
                assert(dl.push(Symbol::T(TerminalCat::Bool)).drop_last() =~= dl);
            },
            TokenModel::Null => {
                assert(dl + production_rhs(Production::ValueNull).reverse() =~= dl.push(
                    Symbol::T(TerminalCat::Null),
                ));
                assert(dl.push(Symbol::T(TerminalCat::Null)).drop_last() =~= dl);
            },
            TokenModel::LBracket => {
                let syms2 = dl.push(Symbol::N(NonTerminal::Array1)).push(
                    Symbol::T(TerminalCat::LBracket),
                );
                assert(dl + production_rhs(Production::ValueArray).reverse() =~= syms2);
                assert(syms2.drop_last() =~= dl.push(Symbol::N(NonTerminal::Array1)));
                let frames2 = frames.push(Frame::ArrayAt { base: vals.len() as usize });
                assert(spec_machine_run(bytes, pos, syms, frames, vals) == spec_machine_run(
                    bytes,
                    end,
                    dl.push(Symbol::N(NonTerminal::Array1)),
                    frames2,
                    vals,
                ));
                assert(vals.len() as usize as int == vals.len());
                lemma_sim_array1(
                    bytes,
                    end,
                    dl.push(Symbol::N(NonTerminal::Array1)),
                    frames2,
                    vals,
                );
                assert(dl.push(Symbol::N(NonTerminal::Array1)).drop_last() =~= dl);
                assert(frames2.drop_last() =~= frames);
            },
            TokenModel::LBrace => {
                let syms2 = dl.push(Symbol::N(NonTerminal::Object1)).push(
                    Symbol::T(TerminalCat::LBrace),
                );
                assert(dl + production_rhs(Production::ValueObject).reverse() =~= syms2);
                assert(syms2.drop_last() =~= dl.push(Symbol::N(NonTerminal::Object1)));
                let frames2 = frames.push(Frame::ObjectAt { base: vals.len() as usize });
                assert(spec_machine_run(bytes, pos, syms, frames, vals) == spec_machine_run(
                    bytes,
                    end,
                    dl.push(Symbol::N(NonTerminal::Object1)),
                    frames2,
                    vals,
                ));
                assert(vals.len() as usize as int == vals.len());
                lemma_sim_object1(
                    bytes,
                    end,
                    dl.push(Symbol::N(NonTerminal::Object1)),
                    frames2,
                    vals,
                );
                assert(dl.push(Symbol::N(NonTerminal::Object1)).drop_last() =~= dl);
                assert(frames2.drop_last() =~= frames);
            },
            _ => {},
        }
    }
}

/// The engine with `Array1` on top of its symbol stack and the array's
/// frame on top of the frame stack runs the grammar's `Array1` parse: the
/// elements pile up above the frame's base and the closing bracket folds
/// them into one Array.
#[verifier::rlimit(100)]
proof fn lemma_sim_array1(
    bytes: Seq<u8>,
    pos: int,
    syms: Seq<Symbol>,
    frames: Seq<Frame>,
    vals: Seq<ValueModel>,
)
    requires
        0 <= pos <= bytes.len(),
        syms.len() >= 1,
        syms.last() == Symbol::N(NonTerminal::Array1),
        frames.len() >= 1,
        frames.last() == (Frame::ArrayAt { base: vals.len() as usize }),
        vals.len() as usize as int == vals.len(),
        vals.len() + bytes.len() - pos <= usize::MAX,
    ensures
        spec_machine_run(bytes, pos, syms, frames, vals) == (match spec_parse_array1(bytes, pos) {
            Ok(r) => spec_machine_run(
                bytes,
                r.1,
                syms.drop_last(),
                frames.drop_last(),
                vals.push(r.0),
            ),
            Err(e) => Err(e),
        }),
    decreases bytes.len() - pos, 1int,
{
    lemma_lex_advances(bytes, pos);
    let dl = syms.drop_last();
    let ghost base = vals.len() as int;
    if let LexStep::Tok { t, start, end } = spec_lex(bytes, pos) {
        reveal_with_fuel(spec_settle, 3);
        if t is RBracket {
            assert(dl + production_rhs(Production::Array1Empty).reverse() =~= dl.push(
                Symbol::T(TerminalCat::RBracket),
            ));
            assert(dl.push(Symbol::T(TerminalCat::RBracket)).drop_last() =~= dl);
            assert(vals.subrange(0, base) =~= vals);
            assert(vals.subrange(base, vals.len() as int) =~= Seq::<ValueModel>::empty());
        } else if t is Comma || t is Colon || t is RBrace {
        } else {
            let syms2 = dl.push(Symbol::T(TerminalCat::RBracket)).push(
                Symbol::N(NonTerminal::ValueList),
            ).push(Symbol::N(NonTerminal::Value));
            assert(dl + production_rhs(Production::Array1Items).reverse() =~= syms2);
            assert(crate::grammar::spec_table(NonTerminal::Array1, spec_token_cat(t)) == Some(
                Production::Array1Items,
            ));
            assert(spec_settle(t, start, syms, frames, vals) == spec_settle(
                t,
                start,
                syms2,
                frames,
                vals,
            ));
            assert(spec_machine_run(bytes, pos, syms, frames, vals) == spec_machine_run(
                bytes,
                pos,
                syms2,
                frames,
                vals,
            ));
            lemma_sim_value(bytes, pos, syms2, frames, vals);
            lemma_parse_value_at_start(bytes, pos);
            lemma_parse_value_bounds(bytes, start);
            let syms3 = dl.push(Symbol::T(TerminalCat::RBracket)).push(
                Symbol::N(NonTerminal::ValueList),
            );
            assert(syms2.drop_last() =~= syms3);
            if let Ok((v1, mid)) = spec_parse_value(bytes, start) {
                lemma_sim_value_list(bytes, mid, syms3, frames, vals.push(v1));
                lemma_parse_value_list_bounds(bytes, mid);
                let syms4 = dl.push(Symbol::T(TerminalCat::RBracket));
                assert(syms3.drop_last() =~= syms4);
                if let Ok((vs, stop)) = spec_parse_value_list(bytes, mid) {
                    let w = vals.push(v1) + vs;
                    lemma_lex_advances(bytes, stop);
                    if let LexStep::Tok { t: t2, start: s2, end: e2 } = spec_lex(bytes, stop) {
                        if t2 is RBracket {
                            assert(w.subrange(0, base) =~= vals);
                            assert(w.subrange(base, w.len() as int) =~= seq![v1] + vs);
                            assert(syms4.drop_last() =~= dl);
                            assert(spec_machine_run(bytes, stop, syms4, frames, w)
                                == spec_machine_run(
                                bytes,
                                e2,
                                dl,
                                frames.drop_last(),
                                vals.push(ValueModel::Array(seq![v1] + vs)),
                            ));
                        }
                    }
                }
            }
        }
    }
}

/// The engine with `ValueList` on top of its symbol stack reads the
/// remaining comma-led elements and leaves the closing bracket, which the
/// symbol below will consume, exactly where the grammar stops.
#[verifier::rlimit(100)]
proof fn lemma_sim_value_list(
    bytes: Seq<u8>,
    pos: int,
    syms: Seq<Symbol>,
    frames: Seq<Frame>,
    vals: Seq<ValueModel>,
)
    requires
        0 <= pos <= bytes.len(),
        syms.len() >= 2,
        syms.last() == Symbol::N(NonTerminal::ValueList),
        vals.len() + bytes.len() - pos <= usize::MAX,
    ensures
        spec_machine_run(bytes, pos, syms, frames, vals) == (match spec_parse_value_list(
            bytes,
            pos,
        ) {
            Ok(r) => spec_machine_run(bytes, r.1, syms.drop_last(), frames, vals + r.0),
            Err(e) => Err(e),
        }),
    decreases bytes.len() - pos, 0int,
{
    lemma_lex_advances(bytes, pos);
    let dl = syms.drop_last();
    if let LexStep::Tok { t, start, end } = spec_lex(bytes, pos) {
        reveal_with_fuel(spec_settle, 3);
        if t is RBracket {
            assert(dl + production_rhs(Production::ValueListEmpty).reverse() =~= dl.push(
                Symbol::T(TerminalCat::Epsilon),
            ));
            assert(dl.push(Symbol::T(TerminalCat::Epsilon)).drop_last() =~= dl);
            lemma_lex_at_start(bytes, pos);
            assert(vals + Seq::<ValueModel>::empty() =~= vals);
        } else if t is Comma {
            let syms2 = dl.push(Symbol::N(NonTerminal::ValueList)).push(
                Symbol::N(NonTerminal::Value),
            ).push(Symbol::T(TerminalCat::Comma));
            assert(dl + production_rhs(Production::ValueListCons).reverse() =~= syms2);
            assert(syms2.drop_last() =~= dl.push(Symbol::N(NonTerminal::ValueList)).push(
                Symbol::N(NonTerminal::Value),
            ));
            let syms3 = dl.push(Symbol::N(NonTerminal::ValueList)).push(
                Symbol::N(NonTerminal::Value),
            );
            assert(spec_machine_run(bytes, pos, syms, frames, vals) == spec_machine_run(
                bytes,
                end,
                syms3,
                frames,
                vals,
            ));
            lemma_sim_value(bytes, end, syms3, frames, vals);
            lemma_parse_value_bounds(bytes, end);
            assert(syms3.drop_last() =~= dl.push(Symbol::N(NonTerminal::ValueList)));
            if let Ok((v2, mid)) = spec_parse_value(bytes, end) {
                lemma_sim_value_list(
                    bytes,
                    mid,
                    dl.push(Symbol::N(NonTerminal::ValueList)),
                    frames,
                    vals.push(v2),
                );
                lemma_parse_value_list_bounds(bytes, mid);
                assert(dl.push(Symbol::N(NonTerminal::ValueList)).drop_last() =~= dl);
                if let Ok((vs2, stop)) = spec_parse_value_list(bytes, mid) {
                    assert(vals.push(v2) + vs2 =~= vals + (seq![v2] + vs2));
                }
            }
        }
    }
}

/// The engine with `Pair` on top of its symbol stack reads a quoted key, a
/// colon and a value, leaving the key and the value as the top two entries
/// of its value stack, as the grammar's `Pair` parse says.
#[verifier::rlimit(100)]
proof fn lemma_sim_pair(
    bytes: Seq<u8>,
    pos: int,
    syms: Seq<Symbol>,
    frames: Seq<Frame>,
    vals: Seq<ValueModel>,
)
    requires
        0 <= pos <= bytes.len(),
        syms.len() >= 1,
        syms.last() == Symbol::N(NonTerminal::Pair),
        vals.len() + bytes.len() - pos <= usize::MAX,
    ensures
        spec_machine_run(bytes, pos, syms, frames, vals) == (match spec_parse_pair(bytes, pos) {
            Ok(r) => spec_machine_run(
                bytes,
                r.1,
                syms.drop_last(),
                frames,
                vals.push(ValueModel::String(r.0.0)).push(r.0.1),
            ),
            Err(e) => Err(e),
        }),
    decreases bytes.len() - pos, 0int,
{
    lemma_lex_advances(bytes, pos);
    let dl = syms.drop_last();
    if let LexStep::Tok { t, start, end } = spec_lex(bytes, pos) {
        reveal_with_fuel(spec_settle, 3);
        if let TokenModel::Str(k) = t {
            let syms2 = dl.push(Symbol::N(NonTerminal::Value)).push(
                Symbol::T(TerminalCat::Colon),
            ).push(Symbol::T(TerminalCat::Str));
            assert(dl + production_rhs(Production::PairString).reverse() =~= syms2);
            let syms3 = dl.push(Symbol::N(NonTerminal::Value)).push(
                Symbol::T(TerminalCat::Colon),
            );
            assert(syms2.drop_last() =~= syms3);
            assert(spec_machine_run(bytes, pos, syms, frames, vals) == spec_machine_run(
                bytes,
                end,
                syms3,
                frames,
                vals.push(ValueModel::String(k)),
            ));
            lemma_lex_advances(bytes, end);
            if let LexStep::Tok { t: t2, start: s2, end: e2 } = spec_lex(bytes, end) {
                if t2 is Colon {
                    let syms4 = dl.push(Symbol::N(NonTerminal::Value));
                    assert(syms3.drop_last() =~= syms4);
                    lemma_sim_value(bytes, e2, syms4, frames, vals.push(ValueModel::String(k)));
                    lemma_parse_value_bounds(bytes, e2);
                    assert(syms4.drop_last() =~= dl);
                }
            }
        }
    }
}

/// The engine with `PairList` on top of its symbol stack reads the
/// remaining comma-led pairs, piling keys and values flat on the value
/// stack, and leaves the closing brace where the grammar stops.
#[verifier::rlimit(100)]
proof fn lemma_sim_pair_list(
    bytes: Seq<u8>,
    pos: int,
    syms: Seq<Symbol>,
    frames: Seq<Frame>,
    vals: Seq<ValueModel>,
)
    requires
        0 <= pos <= bytes.len(),
        syms.len() >= 2,
        syms.last() == Symbol::N(NonTerminal::PairList),
        vals.len() + bytes.len() - pos <= usize::MAX,
    ensures
        spec_machine_run(bytes, pos, syms, frames, vals) == (match spec_parse_pair_list(
            bytes,
            pos,
        ) {
            Ok(r) => spec_machine_run(bytes, r.1, syms.drop_last(), frames, vals + flat_pairs(r.0)),
            Err(e) => Err(e),
        }),
    decreases bytes.len() - pos, 0int,
{
    lemma_lex_advances(bytes, pos);
    let dl = syms.drop_last();
    if let LexStep::Tok { t, start, end } = spec_lex(bytes, pos) {
        reveal_with_fuel(spec_settle, 3);
        if t is RBrace {
            assert(dl + production_rhs(Production::PairListEmpty).reverse() =~= dl.push(
                Symbol::T(TerminalCat::Epsilon),
            ));
            assert(dl.push(Symbol::T(TerminalCat::Epsilon)).drop_last() =~= dl);
            lemma_lex_at_start(bytes, pos);
            assert(vals + flat_pairs(Seq::empty()) =~= vals);
        } else if t is Comma {
            let syms2 = dl.push(Symbol::N(NonTerminal::PairList)).push(
                Symbol::N(NonTerminal::Pair),
            ).push(Symbol::T(TerminalCat::Comma));
            assert(dl + production_rhs(Production::PairListCons).reverse() =~= syms2);
            let syms3 = dl.push(Symbol::N(NonTerminal::PairList)).push(
                Symbol::N(NonTerminal::Pair),
            );
            assert(syms2.drop_last() =~= syms3);
            assert(spec_machine_run(bytes, pos, syms, frames, vals) == spec_machine_run(
                bytes,
                end,
                syms3,
                frames,
                vals,
            ));
            lemma_sim_pair(bytes, end, syms3, frames, vals);
            lemma_parse_pair_bounds(bytes, end);
            assert(syms3.drop_last() =~= dl.push(Symbol::N(NonTerminal::PairList)));
            if let Ok(((k, v), mid)) = spec_parse_pair(bytes, end) {
                lemma_sim_pair_list(
                    bytes,
                    mid,
                    dl.push(Symbol::N(NonTerminal::PairList)),
                    frames,
                    vals.push(ValueModel::String(k)).push(v),
                );
                lemma_parse_pair_list_bounds(bytes, mid);
                assert(dl.push(Symbol::N(NonTerminal::PairList)).drop_last() =~= dl);
                if let Ok((ps2, stop)) = spec_parse_pair_list(bytes, mid) {
                    lemma_flat_pairs_cons((k, v), ps2);
                    assert(vals.push(ValueModel::String(k)).push(v) + flat_pairs(ps2) =~= vals
                        + flat_pairs(seq![(k, v)] + ps2));
                }
            }
        }
    }
}

/// The engine with `Object1` on top of its symbol stack and the object's
/// frame on top of the frame stack runs the grammar's `Object1` parse: the
/// keys and values pile up flat above the frame's base and the closing
/// brace folds them into one Object, a later duplicate key overwriting an
/// earlier one.
#[verifier::rlimit(100)]
proof fn lemma_sim_object1(
    bytes: Seq<u8>,
    pos: int,
    syms: Seq<Symbol>,
    frames: Seq<Frame>,
    vals: Seq<ValueModel>,
)
    requires
        0 <= pos <= bytes.len(),
        syms.len() >= 1,
        syms.last() == Symbol::N(NonTerminal::Object1),
        frames.len() >= 1,
        frames.last() == (Frame::ObjectAt { base: vals.len() as usize }),
        vals.len() as usize as int == vals.len(),
        vals.len() + bytes.len() - pos <= usize::MAX,
    ensures
        spec_machine_run(bytes, pos, syms, frames, vals) == (match spec_parse_object1(bytes, pos) {
            Ok(r) => spec_machine_run(
                bytes,
                r.1,
                syms.drop_last(),
                frames.drop_last(),
                vals.push(r.0),
            ),
            Err(e) => Err(e),
        }),
    decreases bytes.len() - pos, 1int,
{
    lemma_lex_advances(bytes, pos);
    let dl = syms.drop_last();
    let ghost base = vals.len() as int;
    if let LexStep::Tok { t, start, end } = spec_lex(bytes, pos) {
        reveal_with_fuel(spec_settle, 3);
        if t is RBrace {
            assert(dl + production_rhs(Production::Object1Empty).reverse() =~= dl.push(
                Symbol::T(TerminalCat::RBrace),
            ));
            assert(dl.push(Symbol::T(TerminalCat::RBrace)).drop_last() =~= dl);
            assert(take_pairs(vals, base) == Some(Seq::<(Seq<u8>, ValueModel)>::empty()));
            assert(crate::value::object_of(Seq::<(Seq<u8>, ValueModel)>::empty()) =~= Seq::<
                (Seq<u8>, ValueModel),
            >::empty());
            assert(vals.subrange(0, base) =~= vals);
        } else if t is Str {
            let syms2 = dl.push(Symbol::T(TerminalCat::RBrace)).push(
                Symbol::N(NonTerminal::PairList),
            ).push(Symbol::N(NonTerminal::Pair));
            assert(dl + production_rhs(Production::Object1Items).reverse() =~= syms2);
            assert(crate::grammar::spec_table(NonTerminal::Object1, spec_token_cat(t)) == Some(
                Production::Object1Items,
            ));
            assert(spec_settle(t, start, syms, frames, vals) == spec_settle(
                t,
                start,
                syms2,
                frames,
                vals,
            ));
            assert(spec_machine_run(bytes, pos, syms, frames, vals) == spec_machine_run(
                bytes,
                pos,
                syms2,
                frames,
                vals,
            ));
            lemma_sim_pair(bytes, pos, syms2, frames, vals);
            lemma_parse_pair_at_start(bytes, pos);
            lemma_parse_pair_bounds(bytes, start);
            lemma_parse_pair_bounds(bytes, pos);
            let syms3 = dl.push(Symbol::T(TerminalCat::RBrace)).push(
                Symbol::N(NonTerminal::PairList),
            );
            assert(syms2.drop_last() =~= syms3);
            if let Ok(((k1, v1), mid)) = spec_parse_pair(bytes, start) {
                lemma_sim_pair_list(
                    bytes,
                    mid,
                    syms3,
                    frames,
                    vals.push(ValueModel::String(k1)).push(v1),
                );
                lemma_parse_pair_list_bounds(bytes, mid);
                let syms4 = dl.push(Symbol::T(TerminalCat::RBrace));
                assert(syms3.drop_last() =~= syms4);
                if let Ok((ps, stop)) = spec_parse_pair_list(bytes, mid) {
                    let all = seq![(k1, v1)] + ps;
                    lemma_flat_pairs_cons((k1, v1), ps);
                    let w = vals.push(ValueModel::String(k1)).push(v1) + flat_pairs(ps);
                    assert(w =~= vals + flat_pairs(all));
                    lemma_take_pairs_flat(vals, all);
                    lemma_flat_pairs_len(all);
                    lemma_lex_advances(bytes, stop);
                    if let LexStep::Tok { t: t2, start: s2, end: e2 } = spec_lex(bytes, stop) {
                        if t2 is RBrace {
                            assert(take_pairs(w, base) == Some(all));
                            assert(w.subrange(0, base) =~= vals);
                            assert(syms4.drop_last() =~= dl);
                            assert(spec_machine_run(bytes, stop, syms4, frames, w)
                                == spec_machine_run(
                                bytes,
                                e2,
                                dl,
                                frames.drop_last(),
                                vals.push(
                                    ValueModel::Object(crate::value::object_of(all)),
                                ),
                            ));
                        }
                    }
                }
            }
        }
    }
}

/// The table-driven engine and the grammar agree: run from its start
/// configuration, the stack machine returns exactly what the grammar's
/// document parse returns, value, end position and error alike. The bound
/// keeps the engine's frame bases exact; every input an engine can hold
/// satisfies it.
pub proof fn lemma_machine_matches_grammar(bytes: Seq<u8>)
    requires
        bytes.len() <= usize::MAX,
    ensures
        spec_machine(bytes) == spec_parse_document(bytes, 0),
{
    let syms0 = seq![Symbol::N(NonTerminal::Value)];
    assert(syms0.last() == Symbol::N(NonTerminal::Value));
    assert(syms0.drop_last() =~= Seq::<Symbol>::empty());
    lemma_sim_value(bytes, 0, syms0, Seq::empty(), Seq::empty());
    lemma_parse_value_bounds(bytes, 0);
    if let Ok((v, end)) = spec_parse_value(bytes, 0) {
        let vals1 = Seq::<ValueModel>::empty().push(v);
        assert(vals1.len() == 1 && vals1[0] == v);
    }
}

} // verus!
