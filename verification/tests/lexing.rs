use lljson::errors::ParseError;
use lljson::lexer::Lexer;
use lljson::token::TOKEN;

#[test]
fn tokens_in_order() {
    let mut lx = Lexer::new(b"{}[],: \"s\" 1.5 true false null".to_vec());
    assert_eq!(lx.lex().unwrap(), TOKEN::LBRACE);
    assert_eq!(lx.lex().unwrap(), TOKEN::RBRACE);
    assert_eq!(lx.lex().unwrap(), TOKEN::LBRACKET);
    assert_eq!(lx.lex().unwrap(), TOKEN::RBRACKET);
    assert_eq!(lx.lex().unwrap(), TOKEN::COMMA);
    assert_eq!(lx.lex().unwrap(), TOKEN::COLON);
    assert_eq!(lx.lex().unwrap(), TOKEN::STRING(b"s".to_vec()));
    assert_eq!(lx.lex().unwrap(), TOKEN::NUMBER(b"1.5".to_vec()));
    assert_eq!(lx.lex().unwrap(), TOKEN::BOOL(true));
    assert_eq!(lx.lex().unwrap(), TOKEN::BOOL(false));
    assert_eq!(lx.lex().unwrap(), TOKEN::NULL);
    assert_eq!(lx.lex().unwrap_err(), ParseError::EndOfInput(30));
}

#[test]
fn push_back_then_lex_returns_same_token() {
    let inputs: [&[u8]; 10] = [
        b"{", b"}", b"[", b"]", b",", b":", b"\"key\"", b"3.14", b"true", b"null",
    ];
    for input in inputs {
        let mut lx = Lexer::new(input.to_vec());
        let first = lx.lex().unwrap();
        lx.push_back();
        let second = lx.lex().unwrap();
        assert_eq!(first, second);
    }
}

#[test]
fn push_back_mid_stream() {
    let mut lx = Lexer::new(b"[1,2]".to_vec());
    assert_eq!(lx.lex().unwrap(), TOKEN::LBRACKET);
    assert_eq!(lx.lex().unwrap(), TOKEN::NUMBER(b"1".to_vec()));
    lx.push_back();
    assert_eq!(lx.lex().unwrap(), TOKEN::NUMBER(b"1".to_vec()));
    assert_eq!(lx.lex().unwrap(), TOKEN::COMMA);
}

#[test]
fn index_reports_cursor() {
    let mut lx = Lexer::new(b"  null".to_vec());
    assert_eq!(lx.index(), 0);
    lx.lex().unwrap();
    assert_eq!(lx.index(), 6);
    assert_eq!(lx.token_start(), 2);
}

#[test]
fn number_is_maximal_run_of_digits_and_dots() {
    let mut lx = Lexer::new(b"1.2.3,".to_vec());
    assert_eq!(lx.lex().unwrap(), TOKEN::NUMBER(b"1.2.3".to_vec()));
    assert_eq!(lx.lex().unwrap(), TOKEN::COMMA);
}

#[test]
fn string_quote_escaped_by_backslash() {
    let mut lx = Lexer::new(b"\"a\\\"b\"".to_vec());
    assert_eq!(lx.lex().unwrap(), TOKEN::STRING(b"a\\\"b".to_vec()));
}

#[test]
fn bad_byte_reports_offset() {
    let mut lx = Lexer::new(b"  @".to_vec());
    assert_eq!(lx.lex().unwrap_err(), ParseError::UnexpectedToken(2));
}
