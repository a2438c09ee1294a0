use vstd::prelude::*;

verus! {

/// A lexical token. String and number tokens carry the raw bytes of their
/// payload: a number token holds the text of the literal, so no precision is
/// lost and no float enters the token stream.
#[allow(non_camel_case_types)]
#[derive(Debug, PartialEq)]
pub enum TOKEN {
    LBRACE,
    RBRACE,
    LBRACKET,
    RBRACKET,
    COMMA,
    COLON,
    STRING(Vec<u8>),
    NUMBER(Vec<u8>),
    BOOL(bool),
    NULL,
}

/// The mathematical model of a [`TOKEN`].
pub enum TokenModel {
    LBrace,
    RBrace,
    LBracket,
    RBracket,
    Comma,
    Colon,
    Str(Seq<u8>),
    Num(Seq<u8>),
    Bool(bool),
    Null,
}

impl View for TOKEN {
    type V = TokenModel;

    open spec fn view(&self) -> TokenModel {
        match self {
            TOKEN::LBRACE => TokenModel::LBrace,
            TOKEN::RBRACE => TokenModel::RBrace,
            TOKEN::LBRACKET => TokenModel::LBracket,
            TOKEN::RBRACKET => TokenModel::RBracket,
            TOKEN::COMMA => TokenModel::Comma,
            TOKEN::COLON => TokenModel::Colon,
            TOKEN::STRING(s) => TokenModel::Str(s@),
            TOKEN::NUMBER(n) => TokenModel::Num(n@),
            TOKEN::BOOL(b) => TokenModel::Bool(*b),
            TOKEN::NULL => TokenModel::Null,
        }
    }
}

/// A terminal category of the grammar: the lexical categories plus the
/// explicit epsilon marker. Tokens are classified into every category but
/// `Epsilon`, which only stands on the parser's symbol stack.
#[derive(Debug, Clone, Copy, PartialEq, Eq, Structural)]
pub enum TerminalCat {
    LBrace,
    RBrace,
    LBracket,
    RBracket,
    Comma,
    Colon,
    Str,
    Num,
    Bool,
    Null,
    Epsilon,
}

/// The terminal category of a token.
pub open spec fn spec_token_cat(t: TokenModel) -> TerminalCat {
    match t {
        TokenModel::LBrace => TerminalCat::LBrace,
        TokenModel::RBrace => TerminalCat::RBrace,
        TokenModel::LBracket => TerminalCat::LBracket,
        TokenModel::RBracket => TerminalCat::RBracket,
        TokenModel::Comma => TerminalCat::Comma,
        TokenModel::Colon => TerminalCat::Colon,
        TokenModel::Str(_) => TerminalCat::Str,
        TokenModel::Num(_) => TerminalCat::Num,
        TokenModel::Bool(_) => TerminalCat::Bool,
        TokenModel::Null => TerminalCat::Null,
    }
}

/// Classifies a token into its terminal category.
pub fn token2symbol(token: &TOKEN) -> (c: TerminalCat)
    ensures
        c == spec_token_cat(token@),
        c != TerminalCat::Epsilon,
{
    match token {
        TOKEN::LBRACE => TerminalCat::LBrace,
        TOKEN::RBRACE => TerminalCat::RBrace,
        TOKEN::LBRACKET => TerminalCat::LBracket,
        TOKEN::RBRACKET => TerminalCat::RBracket,
        TOKEN::COMMA => TerminalCat::Comma,
        TOKEN::COLON => TerminalCat::Colon,
        TOKEN::STRING(_) => TerminalCat::Str,
        TOKEN::NUMBER(_) => TerminalCat::Num,
        TOKEN::BOOL(_) => TerminalCat::Bool,
        TOKEN::NULL => TerminalCat::Null,
    }
}

/// A copy of the byte vector, made element by element.
pub fn clone_bytes(v: &Vec<u8>) -> (r: Vec<u8>)
    ensures
        r@ == v@,
{
    let mut r: Vec<u8> = Vec::new();
    let n = v.len();
    for i in 0..n
        invariant
            n == v.len(),
            r@ == v@.subrange(0, i as int),
    {
        r.push(v[i]);
        proof {
            assert(r@ =~= v@.subrange(0, i as int + 1));
        }
    }
    proof {
        assert(v@.subrange(0, n as int) =~= v@);
    }
    r
}

impl TOKEN {
    /// A copy of the token.
    pub fn duplicate(&self) -> (t: TOKEN)
        ensures
            t@ == self@,
    {
        match self {
            TOKEN::LBRACE => TOKEN::LBRACE,
            TOKEN::RBRACE => TOKEN::RBRACE,
            TOKEN::LBRACKET => TOKEN::LBRACKET,
            TOKEN::RBRACKET => TOKEN::RBRACKET,
            TOKEN::COMMA => TOKEN::COMMA,
            TOKEN::COLON => TOKEN::COLON,
            TOKEN::STRING(s) => TOKEN::STRING(clone_bytes(s)),
            TOKEN::NUMBER(n) => TOKEN::NUMBER(clone_bytes(n)),
            TOKEN::BOOL(b) => TOKEN::BOOL(*b),
            TOKEN::NULL => TOKEN::NULL,
        }
    }
}

} // verus!
