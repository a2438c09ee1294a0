use vstd::prelude::*;
use crate::bridge::lemma_machine_matches_grammar;
use crate::errors::ErrModel;
use crate::machine::spec_machine;
use crate::lexer::{is_ws, num_end, skip_ws, spec_lex, string_end, LexStep, LexerModel};
use crate::syntax::{
    lemma_parse_document_bounds, lemma_parse_pair_bounds, lemma_parse_pair_list_bounds,
    lemma_parse_value_bounds, spec_parse_document,
    lemma_parse_value_list_bounds, spec_parse_array1, spec_parse_object1, spec_parse_pair,
    spec_parse_pair_list, spec_parse_value, spec_parse_value_list,
};
use crate::token::TokenModel;
use crate::value::{
    lemma_object_of_distinct, object_of, spec_render, spec_render_entries, spec_render_items,
    wf_entries, wf_items, wf_string_bytes, wf_value, ValueModel,
};

verus! {

broadcast use vstd::seq_lib::group_seq_properties;

/// Pushing a token back rewinds the stream by exactly that token: lexing
/// from the state a `push_back` leaves returns the very token that the
/// preceding `lex` handed out, whatever its kind. `after` is the lexer
/// model that `push_back` promises, and `lex` promises to return what
/// `spec_lex` finds at the effective position, so the next `lex` call
/// re-returns the buffered token, start offset and all.
pub proof fn lemma_push_back_then_lex(before: LexerModel, after: LexerModel)
    requires
        before.wf(),
        before.current is Some,
        before.pushed is None,
        after == (LexerModel {
            bytes: before.bytes,
            pos: before.pos,
            current: None::<(TokenModel, int)>,
            pushed: before.current,
        }),
    ensures
        after.wf(),
        spec_lex(after.bytes, after.eff()) == (LexStep::Tok {
            t: (before.current->0).0,
            start: (before.current->0).1,
            end: before.pos,
        }),
{
}

/// No input, well-formed or not, makes the grammar's parse answer
/// `InternalInvariantViolation`: the guards inside the parse functions are
/// never reached. The recursive-descent parsers return exactly what
/// `spec_parse_value` says, so neither ever reports that error.
pub proof fn lemma_parse_never_internal_violation(bytes: Seq<u8>, pos: int)
    requires
        0 <= pos <= bytes.len(),
    ensures
        spec_parse_value(bytes, pos) != Err::<(ValueModel, int), ErrModel>(
            ErrModel::InternalInvariantViolation,
        ),
{
    lemma_parse_value_bounds(bytes, pos);
}

/// The closing quote of a well-formed string content is found exactly at
/// its end: the scan passes every escaped quote inside.
proof fn lemma_string_scan(bytes: Seq<u8>, q: int, e: int)
    requires
        1 <= q <= e < bytes.len(),
        forall|j: int| q <= j < e && #[trigger] bytes[j] == 34 ==> bytes[j - 1] == 92,
        bytes[e] == 34,
        bytes[e - 1] != 92,
    ensures
        string_end(bytes, q) == Some(e),
    decreases e - q,
{
    if q < e {
        lemma_string_scan(bytes, q + 1, e);
    }
}

/// The maximal run of digits and dots from `p` ends exactly at `e`.
proof fn lemma_num_scan(bytes: Seq<u8>, p: int, e: int)
    requires
        0 <= p <= e <= bytes.len(),
        forall|j: int| p <= j < e ==> (48 <= #[trigger] bytes[j] <= 57 || bytes[j] == 46),
        e == bytes.len() || !(48 <= bytes[e] <= 57 || bytes[e] == 46),
    ensures
        num_end(bytes, p) == e,
    decreases e - p,
{
    if p < e {
        lemma_num_scan(bytes, p + 1, e);
    }
}

/// A successful value parse begins with a token that starts a value.
proof fn lemma_value_token(bytes: Seq<u8>, q: int)
    requires
        0 <= q <= bytes.len(),
        spec_parse_value(bytes, q) is Ok,
    ensures
        spec_lex(bytes, q) matches LexStep::Tok { t, start, end } && (t is LBracket || t is LBrace
            || t is Str || t is Num || t is Bool || t is Null),
{
}

/// The text that follows the elements from `i` on inside a rendered array:
/// a comma and an element each, then the closing bracket.
spec fn tail_items(a: Seq<ValueModel>, i: int) -> Seq<u8>
    decreases a, a.len() - i,
        when 0 <= i <= a.len()
{
    if i >= a.len() {
        seq![93u8]
    } else {
        proof {
            assert(decreases_to!(a => a[i]));
        }
        seq![44u8] + spec_render(a[i]) + tail_items(a, i + 1)
    }
}

/// The text that follows the pairs from `i` on inside a rendered object.
spec fn tail_entries(m: Seq<(Seq<u8>, ValueModel)>, i: int) -> Seq<u8>
    decreases m, m.len() - i,
        when 0 <= i <= m.len()
{
    if i >= m.len() {
        seq![125u8]
    } else {
        proof {
            assert(decreases_to!(m => m[i]));
            assert(decreases_to!(m[i] => m[i].1));
        }
        seq![44u8] + seq![34u8] + m[i].0 + seq![34u8, 58u8] + spec_render(m[i].1) + tail_entries(
            m,
            i + 1,
        )
    }
}

/// Splitting a rendered item list after its first element.
proof fn lemma_items_tail(a: Seq<ValueModel>, i: int)
    requires
        0 <= i < a.len(),
    ensures
        spec_render_items(a, i) + seq![93u8] == spec_render(a[i]) + tail_items(a, i + 1),
    decreases a.len() - i,
{
    if i + 1 < a.len() {
        lemma_items_tail(a, i + 1);
        let r0 = spec_render(a[i]);
        let inner = spec_render_items(a, i + 1) + seq![93u8];
        assert(spec_render_items(a, i) + seq![93u8] =~= r0 + seq![44u8] + inner);
        assert(tail_items(a, i + 1) == seq![44u8] + spec_render(a[i + 1]) + tail_items(a, i + 2));
        assert(r0 + seq![44u8] + inner =~= r0 + tail_items(a, i + 1));
    } else {
        assert(spec_render_items(a, i) + seq![93u8] =~= spec_render(a[i]) + tail_items(a, i + 1));
    }
}

/// Splitting a rendered pair list after its first pair.
proof fn lemma_entries_tail(m: Seq<(Seq<u8>, ValueModel)>, i: int)
    requires
        0 <= i < m.len(),
    ensures
        spec_render_entries(m, i) + seq![125u8] == seq![34u8] + m[i].0 + seq![34u8, 58u8]
            + spec_render(m[i].1) + tail_entries(m, i + 1),
    decreases m.len() - i,
{
    let entry = seq![34u8] + m[i].0 + seq![34u8, 58u8] + spec_render(m[i].1);
    if i + 1 < m.len() {
        lemma_entries_tail(m, i + 1);
        let inner = spec_render_entries(m, i + 1) + seq![125u8];
        assert(spec_render_entries(m, i) + seq![125u8] =~= entry + seq![44u8] + inner);
        assert(tail_entries(m, i + 1) == seq![44u8] + seq![34u8] + m[i + 1].0 + seq![34u8, 58u8]
            + spec_render(m[i + 1].1) + tail_entries(m, i + 2));
        assert(entry + seq![44u8] + inner =~= entry + tail_entries(m, i + 1));
    } else {
        assert(spec_render_entries(m, i) + seq![125u8] =~= entry + tail_entries(m, i + 1));
    }
}

/// A rendered value's text is nonempty and starts with a byte that is not
/// whitespace, so lexing it skips nothing.
proof fn lemma_render_head(v: ValueModel)
    requires
        wf_value(v),
    ensures
        spec_render(v).len() > 0,
        !is_ws(spec_render(v)[0]),
{
    match v {
        ValueModel::String(s) => {
            assert(spec_render(v)[0] == 34);
        },
        ValueModel::Number(n) => {
            assert(spec_render(v)[0] == n[0]);
        },
        ValueModel::Array(a) => {
            assert(spec_render(v)[0] == 91);
        },
        ValueModel::Object(m) => {
            assert(spec_render(v)[0] == 123);
        },
        _ => {},
    }
}

/// Parsing a well-formed value's rendered text, embedded in a larger input,
/// yields the value back and stops right after it. The byte after the text,
/// if any, must not extend a numeric literal.
#[verifier::rlimit(60)]
proof fn lemma_render_parses(bytes: Seq<u8>, p: int, v: ValueModel)
    requires
        wf_value(v),
        0 <= p,
        p + spec_render(v).len() <= bytes.len(),
        forall|k: int| 0 <= k < spec_render(v).len() ==> bytes[p + k] == #[trigger] spec_render(
            v,
        )[k],
        p + spec_render(v).len() == bytes.len() || !(48 <= bytes[p + spec_render(v).len()] <= 57
            || bytes[p + spec_render(v).len()] == 46),
    ensures
        spec_parse_value(bytes, p) == Ok::<(ValueModel, int), ErrModel>(
            (v, p + spec_render(v).len()),
        ),
    decreases v, 0int,
{
    let r = spec_render(v);
    let e = p + r.len();
    lemma_render_head(v);
    assert(bytes[p + 0] == r[0]);
    assert(skip_ws(bytes, p) == p);
    match v {
        ValueModel::String(s) => {
            assert(r =~= seq![34u8] + s + seq![34u8]);
            assert forall|j: int| p + 1 <= j < e - 1 && #[trigger] bytes[j] == 34 implies bytes[j
                - 1] == 92 by {
                assert(r[j - p] == s[j - p - 1]);
                assert(bytes[p + (j - p)] == r[j - p]);
                if j - p - 1 > 0 {
                    assert(r[j - 1 - p] == s[j - p - 2]);
                    assert(bytes[p + (j - 1 - p)] == r[j - 1 - p]);
                }
            }
            assert(r[r.len() - 1] == 34);
            assert(bytes[p + (r.len() - 1)] == r[r.len() - 1]);
            if s.len() > 0 {
                assert(r[r.len() - 2] == s[s.len() - 1]);
                assert(bytes[p + (r.len() - 2)] == r[r.len() - 2]);
            }
            lemma_string_scan(bytes, p + 1, e - 1);
            assert(bytes.subrange(p + 1, e - 1) =~= s) by {
                assert forall|k: int| 0 <= k < s.len() implies bytes.subrange(p + 1, e - 1)[k]
                    == s[k] by {
                    assert(r[k + 1] == s[k]);
                    assert(bytes[p + (k + 1)] == r[k + 1]);
                }
            }
        },
        ValueModel::Number(n) => {
            assert(r == n);
            assert forall|j: int| p <= j < e implies (48 <= #[trigger] bytes[j] <= 57 || bytes[j]
                == 46) by {
                assert(bytes[p + (j - p)] == r[j - p]);
            }
            lemma_num_scan(bytes, p, e);
            assert(48 <= bytes[p] <= 57);
            assert(bytes.subrange(p, e) =~= n) by {
                assert forall|k: int| 0 <= k < n.len() implies bytes.subrange(p, e)[k] == n[k] by {
                    assert(bytes[p + k] == r[k]);
                }
            }
        },
        ValueModel::Bool(b) => {
            if b {
                assert(r[1] == 114 && r[2] == 117 && r[3] == 101);
                assert(bytes[p + 1] == r[1] && bytes[p + 2] == r[2] && bytes[p + 3] == r[3]);
            } else {
                assert(r[1] == 97 && r[2] == 108 && r[3] == 115 && r[4] == 101);
                assert(bytes[p + 1] == r[1] && bytes[p + 2] == r[2] && bytes[p + 3] == r[3]
                    && bytes[p + 4] == r[4]);
            }
        },
        ValueModel::Null => {
            assert(r[1] == 117 && r[2] == 108 && r[3] == 108);
            assert(bytes[p + 1] == r[1] && bytes[p + 2] == r[2] && bytes[p + 3] == r[3]);
        },
        ValueModel::Array(a) => {
            assert(bytes[p] == 91);
            assert(spec_lex(bytes, p) == (LexStep::Tok {
                t: TokenModel::LBracket,
                start: p,
                end: p + 1,
            }));
            if a.len() == 0 {
                assert(r =~= seq![91u8, 93u8]);
                assert(r[1] == 93);
                assert(bytes[p + 1] == r[1]);
                assert(skip_ws(bytes, p + 1) == p + 1);
                assert(spec_parse_array1(bytes, p + 1) == Ok::<(ValueModel, int), ErrModel>(
                    (ValueModel::Array(Seq::empty()), p + 2),
                ));
                assert(v =~= ValueModel::Array(Seq::empty()));
            } else {
                assert(decreases_to!(a => a[0]));
                lemma_items_tail(a, 0);
                let r0 = spec_render(a[0]);
                let tail = tail_items(a, 1);
                assert(r =~= seq![91u8] + (spec_render_items(a, 0) + seq![93u8]));
                assert(r =~= seq![91u8] + r0 + tail);
                assert forall|k: int| 0 <= k < r0.len() implies bytes[p + 1 + k] == #[trigger] r0[k] by {
                    assert(r[1 + k] == r0[k]);
                    assert(bytes[p + (1 + k)] == r[1 + k]);
                }
                let mid = p + 1 + r0.len() as int;
                assert(tail.len() > 0);
                assert(tail[0] == 44 || tail[0] == 93) by {
                    if a.len() > 1 {
                        assert(tail[0] == 44);
                    } else {
                        assert(tail[0] == 93);
                    }
                }
                assert(r[1 + r0.len() as int] == tail[0]);
                assert(bytes[p + (1 + r0.len() as int)] == r[1 + r0.len() as int]);
                lemma_render_head(a[0]);
                assert(bytes[p + 1 + 0] == r0[0]);
                assert(skip_ws(bytes, p + 1) == p + 1);
                lemma_render_parses(bytes, p + 1, a[0]);
                lemma_value_token(bytes, p + 1);
                assert forall|k: int| 0 <= k < tail.len() implies bytes[mid + k] == #[trigger] tail[k] by {
                    assert(r[1 + r0.len() + k] == tail[k]);
                    assert(bytes[p + (1 + r0.len() + k)] == r[1 + r0.len() + k]);
                }
                lemma_render_tail_items(bytes, a, 1, mid);
                assert(seq![a[0]] + a.subrange(1, a.len() as int) =~= a);
                lemma_parse_value_bounds(bytes, p + 1);
                lemma_parse_value_list_bounds(bytes, mid);
                assert(spec_parse_value(bytes, p) == Ok::<(ValueModel, int), ErrModel>((v, e)));
            }
        },
        ValueModel::Object(m) => {
            assert(bytes[p] == 123);
            assert(spec_lex(bytes, p) == (LexStep::Tok {
                t: TokenModel::LBrace,
                start: p,
                end: p + 1,
            }));
            lemma_object_of_distinct(m);
            if m.len() == 0 {
                assert(r =~= seq![123u8, 125u8]);
                assert(r[1] == 125);
                assert(bytes[p + 1] == r[1]);
                assert(skip_ws(bytes, p + 1) == p + 1);
                assert(spec_parse_object1(bytes, p + 1) == Ok::<(ValueModel, int), ErrModel>(
                    (ValueModel::Object(Seq::empty()), p + 2),
                ));
                assert(v =~= ValueModel::Object(Seq::empty()));
            } else {
                assert(decreases_to!(m => m[0]));
                assert(decreases_to!(m[0] => m[0].1));
                lemma_entries_tail(m, 0);
                let entry = seq![34u8] + m[0].0 + seq![34u8, 58u8] + spec_render(m[0].1);
                let tail = tail_entries(m, 1);
                assert(r =~= seq![123u8] + (spec_render_entries(m, 0) + seq![125u8]));
                assert(r =~= seq![123u8] + entry + tail);
                assert forall|k: int| 0 <= k < entry.len() implies bytes[p + 1 + k]
                    == #[trigger] entry[k] by {
                    assert(r[1 + k] == entry[k]);
                    assert(bytes[p + (1 + k)] == r[1 + k]);
                }
                let mid = p + 1 + entry.len() as int;
                assert(tail.len() > 0);
                assert(tail[0] == 44 || tail[0] == 125) by {
                    if m.len() > 1 {
                        assert(tail[0] == 44);
                    } else {
                        assert(tail[0] == 125);
                    }
                }
                assert(r[1 + entry.len() as int] == tail[0]);
                assert(bytes[p + (1 + entry.len() as int)] == r[1 + entry.len() as int]);
                let mid2 = lemma_render_pair(bytes, m, 0, p + 1);
                assert(mid2 == mid);
                assert(entry[0] == 34);
                assert(bytes[p + 1] == entry[0]);
                assert(skip_ws(bytes, p + 1) == p + 1);
                assert forall|k: int| 0 <= k < tail.len() implies bytes[mid + k]
                    == #[trigger] tail[k] by {
                    assert(r[1 + entry.len() + k] == tail[k]);
                    assert(bytes[p + (1 + entry.len() + k)] == r[1 + entry.len() + k]);
                }
                lemma_render_tail_entries(bytes, m, 1, mid);
                assert(seq![(m[0].0, m[0].1)] + m.subrange(1, m.len() as int) =~= m);
                lemma_parse_pair_bounds(bytes, p + 1);
                lemma_parse_pair_list_bounds(bytes, mid);
                lemma_object_of_distinct(seq![(m[0].0, m[0].1)] + m.subrange(1, m.len() as int));
                assert(spec_parse_value(bytes, p) == Ok::<(ValueModel, int), ErrModel>((v, e)));
            }
        },
    }
}

/// Parsing one rendered pair embedded at `q`: the quoted key, the colon,
/// the value. Returns the offset one past the pair; the byte there must be
/// a comma or a closing brace.
#[verifier::rlimit(60)]
proof fn lemma_render_pair(bytes: Seq<u8>, m: Seq<(Seq<u8>, ValueModel)>, i: int, q: int) -> (mid:
    int)
    requires
        0 <= i < m.len(),
        wf_string_bytes(m[i].0),
        wf_value(m[i].1),
        1 <= q,
        ({
            let entry = seq![34u8] + m[i].0 + seq![34u8, 58u8] + spec_render(m[i].1);
            &&& q + entry.len() < bytes.len()
            &&& (forall|k: int| 0 <= k < entry.len() ==> bytes[q + k] == #[trigger] entry[k])
            &&& (bytes[q + entry.len()] == 44 || bytes[q + entry.len()] == 125)
        }),
    ensures
        mid == q + (seq![34u8] + m[i].0 + seq![34u8, 58u8] + spec_render(m[i].1)).len(),
        spec_parse_pair(bytes, q) == Ok::<((Seq<u8>, ValueModel), int), ErrModel>(
            ((m[i].0, m[i].1), mid),
        ),
    decreases m, m.len() - i, 1int,
{
    assert(decreases_to!(m => m[i]));
    assert(decreases_to!(m[i] => m[i].1));
    let key = m[i].0;
    let vr = spec_render(m[i].1);
    let entry = seq![34u8] + key + seq![34u8, 58u8] + vr;
    let kq = q + 1 + key.len() as int;
    assert(entry[0] == 34);
    assert(bytes[q + 0] == entry[0]);
    assert(skip_ws(bytes, q) == q);
    assert forall|j: int| q + 1 <= j < kq && #[trigger] bytes[j] == 34 implies bytes[j - 1]
        == 92 by {
        assert(entry[j - q] == key[j - q - 1]);
        assert(bytes[q + (j - q)] == entry[j - q]);
        if j - q - 1 > 0 {
            assert(entry[j - 1 - q] == key[j - q - 2]);
            assert(bytes[q + (j - 1 - q)] == entry[j - 1 - q]);
        }
    }
    assert(entry[kq - q] == 34);
    assert(bytes[q + (kq - q)] == entry[kq - q]);
    if key.len() > 0 {
        assert(entry[kq - 1 - q] == key[key.len() - 1]);
        assert(bytes[q + (kq - 1 - q)] == entry[kq - 1 - q]);
    }
    lemma_string_scan(bytes, q + 1, kq);
    assert(bytes.subrange(q + 1, kq) =~= key) by {
        assert forall|k: int| 0 <= k < key.len() implies bytes.subrange(q + 1, kq)[k]
            == key[k] by {
            assert(entry[k + 1] == key[k]);
            assert(bytes[q + (k + 1)] == entry[k + 1]);
        }
    }
    assert(entry[kq + 1 - q] == 58);
    assert(bytes[q + (kq + 1 - q)] == entry[kq + 1 - q]);
    assert(skip_ws(bytes, kq + 1) == kq + 1);
    assert(spec_lex(bytes, kq + 1) == (LexStep::Tok {
        t: TokenModel::Colon,
        start: kq + 1,
        end: kq + 2,
    }));
    assert forall|k: int| 0 <= k < vr.len() implies bytes[kq + 2 + k] == #[trigger] vr[k] by {
        assert(entry[kq + 2 + k - q] == vr[k]);
        assert(bytes[q + (kq + 2 + k - q)] == entry[kq + 2 + k - q]);
    }
    assert(kq + 2 + vr.len() == q + entry.len());
    assert(bytes[kq + 2 + vr.len() as int] == 44 || bytes[kq + 2 + vr.len() as int] == 125);
    lemma_render_parses(bytes, kq + 2, m[i].1);
    assert(spec_parse_pair(bytes, q) == Ok::<((Seq<u8>, ValueModel), int), ErrModel>(
        ((m[i].0, m[i].1), q + entry.len() as int),
    ));
    q + entry.len() as int
}

/// Parsing the rendered tail of an array: the elements from `i` on, each
/// after a comma, then the closing bracket.
#[verifier::rlimit(60)]
proof fn lemma_render_tail_items(bytes: Seq<u8>, a: Seq<ValueModel>, i: int, q: int)
    requires
        1 <= i <= a.len(),
        wf_items(a, i),
        0 <= q,
        q + tail_items(a, i).len() <= bytes.len(),
        forall|k: int| 0 <= k < tail_items(a, i).len() ==> bytes[q + k] == #[trigger] tail_items(
            a,
            i,
        )[k],
    ensures
        spec_parse_value_list(bytes, q) == Ok::<(Seq<ValueModel>, int), ErrModel>(
            (a.subrange(i, a.len() as int), q + tail_items(a, i).len() - 1),
        ),
        spec_lex(bytes, q + tail_items(a, i).len() - 1) == (LexStep::Tok {
            t: TokenModel::RBracket,
            start: q + tail_items(a, i).len() - 1,
            end: q + tail_items(a, i).len(),
        }),
    decreases a, a.len() - i, 2int,
{
    let tl = tail_items(a, i);
    if i >= a.len() {
        assert(tl[0] == 93);
        assert(bytes[q + 0] == tl[0]);
        assert(skip_ws(bytes, q) == q);
        assert(a.subrange(i, a.len() as int) =~= Seq::<ValueModel>::empty());
    } else {
        assert(decreases_to!(a => a[i]));
        let r0 = spec_render(a[i]);
        let rest = tail_items(a, i + 1);
        assert(tl =~= seq![44u8] + r0 + rest);
        assert(tl[0] == 44);
        assert(bytes[q + 0] == tl[0]);
        assert(skip_ws(bytes, q) == q);
        assert forall|k: int| 0 <= k < r0.len() implies bytes[q + 1 + k] == #[trigger] r0[k] by {
            assert(tl[1 + k] == r0[k]);
            assert(bytes[q + (1 + k)] == tl[1 + k]);
        }
        assert(rest.len() > 0);
        assert(rest[0] == 44 || rest[0] == 93) by {
            if i + 1 < a.len() {
                assert(rest[0] == 44);
            } else {
                assert(rest[0] == 93);
            }
        }
        assert(tl[1 + r0.len() as int] == rest[0]);
        assert(bytes[q + (1 + r0.len() as int)] == tl[1 + r0.len() as int]);
        lemma_render_parses(bytes, q + 1, a[i]);
        let mid = q + 1 + r0.len() as int;
        assert forall|k: int| 0 <= k < rest.len() implies bytes[mid + k] == #[trigger] rest[k] by {
            assert(tl[1 + r0.len() + k] == rest[k]);
            assert(bytes[q + (1 + r0.len() + k)] == tl[1 + r0.len() + k]);
        }
        lemma_render_tail_items(bytes, a, i + 1, mid);
        lemma_parse_value_bounds(bytes, q + 1);
        lemma_parse_value_list_bounds(bytes, mid);
        assert(seq![a[i]] + a.subrange(i + 1, a.len() as int) =~= a.subrange(i, a.len() as int));
    }
}

/// Parsing the rendered tail of an object: the pairs from `i` on, each
/// after a comma, then the closing brace.
#[verifier::rlimit(60)]
proof fn lemma_render_tail_entries(bytes: Seq<u8>, m: Seq<(Seq<u8>, ValueModel)>, i: int, q: int)
    requires
        1 <= i <= m.len(),
        wf_entries(m, i),
        1 <= q,
        q + tail_entries(m, i).len() <= bytes.len(),
        forall|k: int| 0 <= k < tail_entries(m, i).len() ==> bytes[q + k]
            == #[trigger] tail_entries(m, i)[k],
    ensures
        spec_parse_pair_list(bytes, q) == Ok::<(Seq<(Seq<u8>, ValueModel)>, int), ErrModel>(
            (m.subrange(i, m.len() as int), q + tail_entries(m, i).len() - 1),
        ),
        spec_lex(bytes, q + tail_entries(m, i).len() - 1) == (LexStep::Tok {
            t: TokenModel::RBrace,
            start: q + tail_entries(m, i).len() - 1,
            end: q + tail_entries(m, i).len(),
        }),
    decreases m, m.len() - i, 2int,
{
    let tl = tail_entries(m, i);
    if i >= m.len() {
        assert(tl[0] == 125);
        assert(bytes[q + 0] == tl[0]);
        assert(skip_ws(bytes, q) == q);
        assert(m.subrange(i, m.len() as int) =~= Seq::<(Seq<u8>, ValueModel)>::empty());
    } else {
        assert(decreases_to!(m => m[i]));
        assert(decreases_to!(m[i] => m[i].1));
        let entry = seq![34u8] + m[i].0 + seq![34u8, 58u8] + spec_render(m[i].1);
        let rest = tail_entries(m, i + 1);
        assert(tl =~= seq![44u8] + entry + rest);
        assert(tl[0] == 44);
        assert(bytes[q + 0] == tl[0]);
        assert(skip_ws(bytes, q) == q);
        assert forall|k: int| 0 <= k < entry.len() implies bytes[q + 1 + k]
            == #[trigger] entry[k] by {
            assert(tl[1 + k] == entry[k]);
            assert(bytes[q + (1 + k)] == tl[1 + k]);
        }
        assert(rest.len() > 0);
        assert(rest[0] == 44 || rest[0] == 125) by {
            if i + 1 < m.len() {
                assert(rest[0] == 44);
            } else {
                assert(rest[0] == 125);
            }
        }
        assert(tl[1 + entry.len() as int] == rest[0]);
        assert(bytes[q + (1 + entry.len() as int)] == tl[1 + entry.len() as int]);
        let mid = lemma_render_pair(bytes, m, i, q + 1);
        assert forall|k: int| 0 <= k < rest.len() implies bytes[mid + k] == #[trigger] rest[k] by {
            assert(tl[1 + entry.len() + k] == rest[k]);
            assert(bytes[q + (1 + entry.len() + k)] == tl[1 + entry.len() + k]);
        }
        lemma_render_tail_entries(bytes, m, i + 1, mid);
        lemma_parse_pair_bounds(bytes, q + 1);
        lemma_parse_pair_list_bounds(bytes, mid);
        assert(seq![(m[i].0, m[i].1)] + m.subrange(i + 1, m.len() as int) =~= m.subrange(
            i,
            m.len() as int,
        ));
    }
}

/// Round trip: parsing the rendered text of any well-formed value — its
/// strings and numbers lexically sound, no object with a duplicate key —
/// yields a structurally equal value, consuming the whole text, and the
/// document-level parse of the public `parse` methods accepts it.
pub proof fn lemma_round_trip(v: ValueModel)
    requires
        wf_value(v),
    ensures
        spec_parse_value(spec_render(v), 0) == Ok::<(ValueModel, int), ErrModel>(
            (v, spec_render(v).len() as int),
        ),
        spec_parse_document(spec_render(v), 0) == Ok::<(ValueModel, int), ErrModel>(
            (v, spec_render(v).len() as int),
        ),
{
    lemma_render_parses(spec_render(v), 0, v);
    let n = spec_render(v).len() as int;
    assert(skip_ws(spec_render(v), n) == n);
}

/// The round trip through the table-driven engine: run on the rendered
/// text of a well-formed value, the stack machine accepts with that very
/// value. Follows from the grammar round trip and the engine's agreement
/// with the grammar.
pub proof fn lemma_machine_round_trip(v: ValueModel)
    requires
        wf_value(v),
        spec_render(v).len() <= usize::MAX,
    ensures
        spec_machine(spec_render(v)) == Ok::<(ValueModel, int), ErrModel>(
            (v, spec_render(v).len() as int),
        ),
{
    lemma_round_trip(v);
    lemma_machine_matches_grammar(spec_render(v));
}

/// No input the engine can hold makes it answer
/// `InternalInvariantViolation`: its stack bookkeeping never breaks, on
/// valid and malformed input alike.
pub proof fn lemma_machine_never_internal_violation(bytes: Seq<u8>)
    requires
        bytes.len() <= usize::MAX,
    ensures
        spec_machine(bytes) != Err::<(ValueModel, int), ErrModel>(
            ErrModel::InternalInvariantViolation,
        ),
{
    lemma_machine_matches_grammar(bytes);
    lemma_parse_document_bounds(bytes, 0);
}

} // verus!
