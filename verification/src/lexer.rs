use vstd::prelude::*;
use crate::errors::{ErrModel, ParseError};
use crate::token::{TokenModel, TOKEN};

verus! {

/// One step of lexing: the next token with its start and end offsets, the
/// end of the input, or a byte sequence matching no lexical rule.
pub enum LexStep {
    Tok { t: TokenModel, start: int, end: int },
    EofAt(int),
    BadAt(int),
}

/// ASCII whitespace skipped between tokens: space, newline, tab, carriage
/// return.
pub open spec fn is_ws(b: u8) -> bool {
    b == 32 || b == 10 || b == 9 || b == 13
}

/// An ASCII digit.
pub open spec fn is_digit(b: u8) -> bool {
    48 <= b <= 57
}

/// The first position at or after `pos` holding a byte that is not
/// whitespace, or the end of the input.
pub open spec fn skip_ws(bytes: Seq<u8>, pos: int) -> int
    decreases bytes.len() - pos,
        when 0 <= pos <= bytes.len()
{
    if pos >= bytes.len() {
        pos
    } else if is_ws(bytes[pos]) {
        skip_ws(bytes, pos + 1)
    } else {
        pos
    }
}

/// The position of the quote closing a string whose content starts at
/// `pos`, or `None` when the input ends first. A quote immediately preceded
/// by a backslash does not close the string.
pub open spec fn string_end(bytes: Seq<u8>, pos: int) -> Option<int>
    decreases bytes.len() - pos,
        when 1 <= pos <= bytes.len()
{
    if pos >= bytes.len() {
        None
    } else if bytes[pos] == 34 && bytes[pos - 1] != 92 {
        Some(pos)
    } else {
        string_end(bytes, pos + 1)
    }
}

/// The end of the maximal run of digits and dots starting at `pos`.
pub open spec fn num_end(bytes: Seq<u8>, pos: int) -> int
    decreases bytes.len() - pos,
        when 0 <= pos <= bytes.len()
{
    if pos < bytes.len() && (is_digit(bytes[pos]) || bytes[pos] == 46) {
        num_end(bytes, pos + 1)
    } else {
        pos
    }
}

/// True when `bytes` holds the keyword `true` at `pos`.
pub open spec fn kw_true_at(bytes: Seq<u8>, pos: int) -> bool {
    pos + 4 <= bytes.len() && bytes[pos] == 116 && bytes[pos + 1] == 114 && bytes[pos + 2] == 117
        && bytes[pos + 3] == 101
}

/// True when `bytes` holds the keyword `false` at `pos`.
pub open spec fn kw_false_at(bytes: Seq<u8>, pos: int) -> bool {
    pos + 5 <= bytes.len() && bytes[pos] == 102 && bytes[pos + 1] == 97 && bytes[pos + 2] == 108
        && bytes[pos + 3] == 115 && bytes[pos + 4] == 101
}

/// True when `bytes` holds the keyword `null` at `pos`.
pub open spec fn kw_null_at(bytes: Seq<u8>, pos: int) -> bool {
    pos + 4 <= bytes.len() && bytes[pos] == 110 && bytes[pos + 1] == 117 && bytes[pos + 2] == 108
        && bytes[pos + 3] == 108
}

/// The token found at or after `pos`, after skipping whitespace.
///
/// Lexical forms in match priority order: the single-byte structural tokens
/// `{ } [ ] , :`; a double-quoted string, whose content runs to the first
/// quote not immediately preceded by a backslash; a numeric literal, the
/// maximal run of digits and dots starting with a digit; the keywords
/// `true`, `false` and `null`. Running out of bytes while a token is still
/// open is the end of the input; any other byte matches no rule.
pub open spec fn spec_lex(bytes: Seq<u8>, pos: int) -> LexStep {
    let p = skip_ws(bytes, pos);
    if p >= bytes.len() {
        LexStep::EofAt(bytes.len() as int)
    } else {
        let b = bytes[p];
        if b == 123 {
            LexStep::Tok { t: TokenModel::LBrace, start: p, end: p + 1 }
        } else if b == 125 {
            LexStep::Tok { t: TokenModel::RBrace, start: p, end: p + 1 }
        } else if b == 91 {
            LexStep::Tok { t: TokenModel::LBracket, start: p, end: p + 1 }
        } else if b == 93 {
            LexStep::Tok { t: TokenModel::RBracket, start: p, end: p + 1 }
        } else if b == 44 {
            LexStep::Tok { t: TokenModel::Comma, start: p, end: p + 1 }
        } else if b == 58 {
            LexStep::Tok { t: TokenModel::Colon, start: p, end: p + 1 }
        } else if b == 34 {
            match string_end(bytes, p + 1) {
                Some(e) => LexStep::Tok {
                    t: TokenModel::Str(bytes.subrange(p + 1, e)),
                    start: p,
                    end: e + 1,
                },
                None => LexStep::EofAt(bytes.len() as int),
            }
        } else if is_digit(b) {
            let e = num_end(bytes, p);
            LexStep::Tok { t: TokenModel::Num(bytes.subrange(p, e)), start: p, end: e }
        } else if kw_true_at(bytes, p) {
            LexStep::Tok { t: TokenModel::Bool(true), start: p, end: p + 4 }
        } else if kw_false_at(bytes, p) {
            LexStep::Tok { t: TokenModel::Bool(false), start: p, end: p + 5 }
        } else if kw_null_at(bytes, p) {
            LexStep::Tok { t: TokenModel::Null, start: p, end: p + 4 }
        } else {
            LexStep::BadAt(p)
        }
    }
}

/// Bounds of `skip_ws`: the result stays inside the input and stops on a
/// byte that is not whitespace.
pub proof fn lemma_skip_ws(bytes: Seq<u8>, pos: int)
    requires
        0 <= pos <= bytes.len(),
    ensures
        pos <= skip_ws(bytes, pos) <= bytes.len(),
        skip_ws(bytes, pos) == bytes.len() || !is_ws(bytes[skip_ws(bytes, pos)]),
    decreases bytes.len() - pos,
{
    if pos < bytes.len() && is_ws(bytes[pos]) {
        lemma_skip_ws(bytes, pos + 1);
    }
}

/// Bounds of `string_end`: a found closing quote lies inside the input, at
/// or after the content start.
pub proof fn lemma_string_end(bytes: Seq<u8>, pos: int)
    requires
        1 <= pos <= bytes.len(),
    ensures
        string_end(bytes, pos) matches Some(e) ==> pos <= e < bytes.len(),
    decreases bytes.len() - pos,
{
    if pos < bytes.len() && !(bytes[pos] == 34 && bytes[pos - 1] != 92) {
        lemma_string_end(bytes, pos + 1);
    }
}

/// Bounds of `num_end`.
pub proof fn lemma_num_end(bytes: Seq<u8>, pos: int)
    requires
        0 <= pos <= bytes.len(),
    ensures
        pos <= num_end(bytes, pos) <= bytes.len(),
    decreases bytes.len() - pos,
{
    if pos < bytes.len() && (is_digit(bytes[pos]) || bytes[pos] == 46) {
        lemma_num_end(bytes, pos + 1);
    }
}

/// A token starts past the position lexing began at, ends past its start,
/// and lies inside the input.
pub proof fn lemma_lex_advances(bytes: Seq<u8>, pos: int)
    requires
        0 <= pos <= bytes.len(),
    ensures
        spec_lex(bytes, pos) matches LexStep::Tok { t, start, end } ==> pos <= start < end
            <= bytes.len(),
        spec_lex(bytes, pos) matches LexStep::BadAt(o) ==> pos <= o < bytes.len(),
{
    lemma_skip_ws(bytes, pos);
    let p = skip_ws(bytes, pos);
    if p < bytes.len() {
        if bytes[p] == 34 {
            lemma_string_end(bytes, p + 1);
        } else if is_digit(bytes[p]) {
            lemma_num_end(bytes, p + 1);
            assert(num_end(bytes, p) == num_end(bytes, p + 1));
        }
    }
}

/// Lexing from a token's own start yields the same token: the start is not
/// whitespace, so no skipping happens.
pub proof fn lemma_lex_at_start(bytes: Seq<u8>, pos: int)
    requires
        0 <= pos <= bytes.len(),
        spec_lex(bytes, pos) is Tok,
    ensures
        spec_lex(bytes, pos) matches LexStep::Tok { t, start, end } ==> spec_lex(bytes, start)
            == spec_lex(bytes, pos),
{
    lemma_skip_ws(bytes, pos);
    lemma_lex_advances(bytes, pos);
}

/// The lexer: an input buffer, a cursor, and a two-slot token buffer. The
/// `current` slot remembers the token most recently handed out, with its
/// start offset; `push_back` moves it to the `pushed` slot, from which the
/// next `lex` call re-returns it.
pub struct Lexer {
    bytes: Vec<u8>,
    pos: usize,
    current: Option<(TOKEN, usize)>,
    pushed: Option<(TOKEN, usize)>,
}

/// The mathematical model of a [`Lexer`].
pub struct LexerModel {
    pub bytes: Seq<u8>,
    pub pos: int,
    pub current: Option<(TokenModel, int)>,
    pub pushed: Option<(TokenModel, int)>,
}

impl View for Lexer {
    type V = LexerModel;

    closed spec fn view(&self) -> LexerModel {
        LexerModel {
            bytes: self.bytes@,
            pos: self.pos as int,
            current: match self.current {
                Some((t, s)) => Some((t@, s as int)),
                None => None,
            },
            pushed: match self.pushed {
                Some((t, s)) => Some((t@, s as int)),
                None => None,
            },
        }
    }
}

impl LexerModel {
    /// Well-formedness: the cursor stays inside the input, at most one
    /// buffer slot is full, and a buffered token is what lexing from its
    /// start offset finds, ending at the cursor.
    pub open spec fn wf(self) -> bool {
        &&& 0 <= self.pos <= self.bytes.len()
        &&& !(self.current is Some && self.pushed is Some)
        &&& (self.current matches Some((t, s)) ==> 0 <= s <= self.bytes.len() && spec_lex(
            self.bytes,
            s,
        ) == LexStep::Tok { t, start: s, end: self.pos })
        &&& (self.pushed matches Some((t, s)) ==> 0 <= s <= self.bytes.len() && spec_lex(
            self.bytes,
            s,
        ) == LexStep::Tok { t, start: s, end: self.pos })
    }

    /// The position the token stream effectively stands at: the start of the
    /// pushed-back token if there is one, else the cursor.
    pub open spec fn eff(self) -> int {
        match self.pushed {
            Some((t, s)) => s,
            None => self.pos,
        }
    }
}

/// A copy of `v[from..to]`.
fn copy_range(v: &Vec<u8>, from: usize, to: usize) -> (r: Vec<u8>)
    requires
        from <= to <= v@.len(),
    ensures
        r@ == v@.subrange(from as int, to as int),
{
    let mut r: Vec<u8> = Vec::new();
    let mut k = from;
    while k < to
        invariant
            from <= k <= to <= v@.len(),
            r@ == v@.subrange(from as int, k as int),
        decreases to - k,
    {
        r.push(v[k]);
        k = k + 1;
        proof {
            assert(r@ =~= v@.subrange(from as int, k as int));
        }
    }
    r
}

/// True when the byte at `i` is whitespace.
fn ws_at(v: &Vec<u8>, i: usize) -> (r: bool)
    requires
        i < v@.len(),
    ensures
        r == is_ws(v@[i as int]),
{
    let b = v[i];
    b == 32 || b == 10 || b == 9 || b == 13
}

/// True when the quote at `i` closes a string: it is a quote and the byte
/// before it is not a backslash.
fn quote_closes_at(v: &Vec<u8>, i: usize) -> (r: bool)
    requires
        1 <= i < v@.len(),
    ensures
        r == (v@[i as int] == 34 && v@[i as int - 1] != 92),
{
    v[i] == 34 && v[i - 1] != 92
}

/// True when the byte at `i` is a digit or a dot.
fn digit_or_dot_at(v: &Vec<u8>, i: usize) -> (r: bool)
    requires
        i < v@.len(),
    ensures
        r == (is_digit(v@[i as int]) || v@[i as int] == 46),
{
    let b = v[i];
    (48 <= b && b <= 57) || b == 46
}

impl Lexer {
    /// A lexer over `json`, standing at its start.
    pub fn new(json: Vec<u8>) -> (r: Lexer)
        ensures
            r@ == (LexerModel {
                bytes: json@,
                pos: 0,
                current: None::<(TokenModel, int)>,
                pushed: None::<(TokenModel, int)>,
            }),
            r@.wf(),
    {
        Lexer { bytes: json, pos: 0, current: None, pushed: None }
    }

    /// The cursor: the byte offset one past the token most recently read.
    pub fn index(&self) -> (r: usize)
        ensures
            r as int == self@.pos,
    {
        self.pos
    }

    /// The start offset of the token most recently handed out.
    pub fn token_start(&self) -> (r: usize)
        requires
            self@.current is Some,
        ensures
            r as int == (self@.current->0).1,
    {
        match &self.current {
            Some((t, s)) => *s,
            None => 0,
        }
    }

    /// Rewinds exactly one token: the next `lex` call returns the token this
    /// one handed out last. Calling it twice without a `lex` between, or
    /// before any token was read, is rejected.
    pub fn push_back(&mut self)
        requires
            old(self)@.wf(),
            old(self)@.current is Some,
            old(self)@.pushed is None,
        ensures
            final(self)@.wf(),
            final(self)@ == (LexerModel {
                bytes: old(self)@.bytes,
                pos: old(self)@.pos,
                current: None::<(TokenModel, int)>,
                pushed: old(self)@.current,
            }),
            final(self)@.eff() == (old(self)@.current->0).1,
    {
        self.pushed = self.current.take();
    }

    /// The next token. A pushed-back token is re-returned first; otherwise
    /// the input is scanned from the cursor as `spec_lex` says. On an error
    /// the token buffer is cleared.
    pub fn lex(&mut self) -> (r: Result<TOKEN, ParseError>)
        requires
            old(self)@.wf(),
        ensures
            final(self)@.wf(),
            final(self)@.bytes == old(self)@.bytes,
            final(self)@.pushed is None,
            match r {
                Ok(tok) => {
                    &&& final(self)@.current matches Some((t, s)) && t == tok@ && spec_lex(
                        old(self)@.bytes,
                        old(self)@.eff(),
                    ) == LexStep::Tok { t, start: s, end: final(self)@.pos }
                    &&& final(self)@.eff() == final(self)@.pos
                },
                Err(e) => {
                    &&& final(self)@.current is None
                    &&& match spec_lex(old(self)@.bytes, old(self)@.eff()) {
                        LexStep::EofAt(o) => e@ == ErrModel::EndOfInput(o),
                        LexStep::BadAt(o) => e@ == ErrModel::UnexpectedToken(o),
                        LexStep::Tok { t, start, end } => false,
                    }
                },
            },
    {
        if let Some((t, s)) = self.pushed.take() {
            let copy = t.duplicate();
            self.current = Some((t, s));
            return Ok(copy);
        }
        let ghost bytes = self.bytes@;
        let ghost pos0 = self.pos as int;
        let n = self.bytes.len();
        proof {
            lemma_skip_ws(bytes, pos0);
        }
        while self.pos < n && ws_at(&self.bytes, self.pos)
            invariant
                self.bytes@ == bytes,
                n == bytes.len(),
                0 <= pos0 <= self.pos as int <= bytes.len(),
                skip_ws(bytes, pos0) == skip_ws(bytes, self.pos as int),
                self.current == old(self).current,
                self.pushed.is_none(),
            decreases bytes.len() - self.pos,
    {
            self.pos = self.pos + 1;
        }
        let ghost p = skip_ws(bytes, pos0);
        assert(p == self.pos as int);
        if self.pos >= n {
            self.current = None;
            return Err(ParseError::EndOfInput(n));
        }
        let start = self.pos;
        let b = self.bytes[start];
        if b == 123 {
            self.pos = self.pos + 1;
            self.current = Some((TOKEN::LBRACE, start));
            return Ok(TOKEN::LBRACE);
        }
        if b == 125 {
            self.pos = self.pos + 1;
            self.current = Some((TOKEN::RBRACE, start));
            return Ok(TOKEN::RBRACE);
        }
        if b == 91 {
            self.pos = self.pos + 1;
            self.current = Some((TOKEN::LBRACKET, start));
            return Ok(TOKEN::LBRACKET);
        }
        if b == 93 {
            self.pos = self.pos + 1;
            self.current = Some((TOKEN::RBRACKET, start));
            return Ok(TOKEN::RBRACKET);
        }
        if b == 44 {
            self.pos = self.pos + 1;
            self.current = Some((TOKEN::COMMA, start));
            return Ok(TOKEN::COMMA);
        }
        if b == 58 {
            self.pos = self.pos + 1;
            self.current = Some((TOKEN::COLON, start));
            return Ok(TOKEN::COLON);
        }
        if b == 34 {
            let mut j = start + 1;
            while j < n && !quote_closes_at(&self.bytes, j)
                invariant
                    self.bytes@ == bytes,
                    n == bytes.len(),
                    (start + 1) as int <= j as int <= bytes.len(),
                    string_end(bytes, (start + 1) as int) == string_end(bytes, j as int),
                    self.pos == start,
                    self.current == old(self).current,
                    self.pushed.is_none(),
                decreases bytes.len() - j,
            {
                j = j + 1;
            }
            if j >= n {
                self.current = None;
                return Err(ParseError::EndOfInput(n));
            }
            let content = copy_range(&self.bytes, start + 1, j);
            self.pos = j + 1;
            let tok = TOKEN::STRING(content);
            let copy = tok.duplicate();
            self.current = Some((tok, start));
            return Ok(copy);
        }
        if 48 <= b && b <= 57 {
            let mut j = start;
            while j < n && digit_or_dot_at(&self.bytes, j)
                invariant
                    self.bytes@ == bytes,
                    n == bytes.len(),
                    start as int <= j as int <= bytes.len(),
                    num_end(bytes, start as int) == num_end(bytes, j as int),
                    self.pos == start,
                    self.current == old(self).current,
                    self.pushed.is_none(),
                decreases bytes.len() - j,
            {
                j = j + 1;
            }
            let text = copy_range(&self.bytes, start, j);
            self.pos = j;
            let tok = TOKEN::NUMBER(text);
            let copy = tok.duplicate();
            self.current = Some((tok, start));
            return Ok(copy);
        }
        if n - start >= 4 && b == 116 && self.bytes[start + 1] == 114 && self.bytes[start + 2]
            == 117 && self.bytes[start + 3] == 101 {
            self.pos = start + 4;
            self.current = Some((TOKEN::BOOL(true), start));
            return Ok(TOKEN::BOOL(true));
        }
        if n - start >= 5 && b == 102 && self.bytes[start + 1] == 97 && self.bytes[start + 2]
            == 108 && self.bytes[start + 3] == 115 && self.bytes[start + 4] == 101 {
            self.pos = start + 5;
            self.current = Some((TOKEN::BOOL(false), start));
            return Ok(TOKEN::BOOL(false));
        }
        if n - start >= 4 && b == 110 && self.bytes[start + 1] == 117 && self.bytes[start + 2]
            == 108 && self.bytes[start + 3] == 108 {
            self.pos = start + 4;
            self.current = Some((TOKEN::NULL, start));
            return Ok(TOKEN::NULL);
        }
        self.current = None;
        Err(ParseError::UnexpectedToken(start))
    }
}

} // verus!
