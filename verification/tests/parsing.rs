use lljson::definite_parser::DefiniteParser;
use lljson::indefinite_parser::IndefiniteParser;
use lljson::errors::ParseError;
use lljson::lexer::Lexer;
use lljson::table_driven_parser::TableDrivenParser;
use lljson::token::TerminalCat;
use lljson::value::Value;

fn parse_table(input: &[u8]) -> Result<Value, ParseError> {
    let mut p = TableDrivenParser::new(Lexer::new(input.to_vec()));
    p.parse()
}

fn parse_definite(input: &[u8]) -> Result<Value, ParseError> {
    let mut p = DefiniteParser::new(Lexer::new(input.to_vec()));
    p.parse()
}

fn num(text: &[u8]) -> Value {
    Value::Number(text.to_vec())
}

fn st(text: &[u8]) -> Value {
    Value::String(text.to_vec())
}

#[test]
fn empty_array() {
    assert_eq!(parse_table(b"[]").unwrap(), Value::Array(vec![]));
    assert_eq!(parse_definite(b"[]").unwrap(), Value::Array(vec![]));
}

#[test]
fn empty_object() {
    assert_eq!(parse_table(b"{}").unwrap(), Value::Object(vec![]));
    assert_eq!(parse_definite(b"{}").unwrap(), Value::Object(vec![]));
}

#[test]
fn nested_arrays() {
    let expected = Value::Array(vec![
        Value::Array(vec![num(b"1"), num(b"2")]),
        Value::Array(vec![num(b"3"), num(b"4")]),
    ]);
    assert_eq!(parse_table(b"[[1,2],[3,4]]").unwrap(), expected);
    let expected2 = Value::Array(vec![
        Value::Array(vec![num(b"1"), num(b"2")]),
        Value::Array(vec![num(b"3"), num(b"4")]),
    ]);
    assert_eq!(parse_definite(b"[[1,2],[3,4]]").unwrap(), expected2);
}

#[test]
fn duplicate_key_last_wins() {
    let expected = Value::Object(vec![(b"a".to_vec(), num(b"2"))]);
    assert_eq!(parse_table(b"{\"a\":1,\"a\":2}").unwrap(), expected);
    let expected2 = Value::Object(vec![(b"a".to_vec(), num(b"2"))]);
    assert_eq!(parse_definite(b"{\"a\":1,\"a\":2}").unwrap(), expected2);
}

#[test]
fn mixed_array() {
    let expected = Value::Array(vec![
        num(b"1"),
        st(b"x"),
        Value::Bool(true),
        Value::Null,
        Value::Object(vec![(b"k".to_vec(), num(b"1"))]),
    ]);
    assert_eq!(parse_table(b"[1, \"x\", true, null, {\"k\": 1}]").unwrap(), expected);
}

#[test]
fn missing_value_names_expected_set() {
    let value_starts = vec![
        TerminalCat::LBrace,
        TerminalCat::LBracket,
        TerminalCat::Str,
        TerminalCat::Num,
        TerminalCat::Bool,
        TerminalCat::Null,
    ];
    let err = parse_table(b"{\"a\": }").unwrap_err();
    assert_eq!(
        err,
        ParseError::UnexpectedTerminal {
            offset: 6,
            expected: value_starts.clone(),
            found: TerminalCat::RBrace,
        }
    );
    let err2 = parse_definite(b"{\"a\": }").unwrap_err();
    assert_eq!(
        err2,
        ParseError::UnexpectedTerminal {
            offset: 6,
            expected: value_starts,
            found: TerminalCat::RBrace,
        }
    );
}

#[test]
fn truncated_array_is_end_of_input() {
    assert_eq!(parse_table(b"[1,2").unwrap_err(), ParseError::EndOfInput(4));
    assert_eq!(parse_definite(b"[1,2").unwrap_err(), ParseError::EndOfInput(4));
}

#[test]
fn scalars() {
    assert_eq!(parse_table(b"42").unwrap(), num(b"42"));
    assert_eq!(parse_table(b"1.25").unwrap(), num(b"1.25"));
    assert_eq!(parse_table(b"\"hi\"").unwrap(), st(b"hi"));
    assert_eq!(parse_table(b"true").unwrap(), Value::Bool(true));
    assert_eq!(parse_table(b"false").unwrap(), Value::Bool(false));
    assert_eq!(parse_table(b"null").unwrap(), Value::Null);
}

#[test]
fn whitespace_is_skipped() {
    let expected = Value::Array(vec![num(b"1"), num(b"2")]);
    assert_eq!(parse_table(b" \t\r\n[ 1 ,\n2 ]").unwrap(), expected);
}

#[test]
fn nested_object() {
    let expected = Value::Object(vec![(
        b"o".to_vec(),
        Value::Object(vec![(b"i".to_vec(), Value::Array(vec![num(b"7")]))]),
    )]);
    assert_eq!(parse_table(b"{\"o\":{\"i\":[7]}}").unwrap(), expected);
}

#[test]
fn unrecognized_byte() {
    assert_eq!(parse_table(b"[@]").unwrap_err(), ParseError::UnexpectedToken(1));
}

#[test]
fn truncated_keyword() {
    assert_eq!(parse_table(b"tru").unwrap_err(), ParseError::UnexpectedToken(0));
}

#[test]
fn missing_colon() {
    let err = parse_table(b"{\"a\" 1}").unwrap_err();
    assert_eq!(
        err,
        ParseError::UnexpectedTerminal {
            offset: 5,
            expected: vec![TerminalCat::Colon],
            found: TerminalCat::Num,
        }
    );
}

#[test]
fn empty_input_is_end_of_input() {
    assert_eq!(parse_table(b"").unwrap_err(), ParseError::EndOfInput(0));
    assert_eq!(parse_table(b"   ").unwrap_err(), ParseError::EndOfInput(3));
}

#[test]
fn unterminated_string() {
    assert_eq!(parse_table(b"\"abc").unwrap_err(), ParseError::EndOfInput(4));
}

#[test]
fn escaped_quote_stays_in_content() {
    assert_eq!(parse_table(b"\"a\\\"b\"").unwrap(), st(b"a\\\"b"));
}

#[test]
fn trailing_input_is_an_error() {
    let err = parse_table(b"[1] 5").unwrap_err();
    assert_eq!(
        err,
        ParseError::UnexpectedTerminal { offset: 4, expected: vec![], found: TerminalCat::Num }
    );
    let err2 = parse_definite(b"[1] 5").unwrap_err();
    assert_eq!(
        err2,
        ParseError::UnexpectedTerminal { offset: 4, expected: vec![], found: TerminalCat::Num }
    );
    let err3 = parse_table(b"[1] @").unwrap_err();
    assert_eq!(err3, ParseError::UnexpectedToken(4));
    assert_eq!(parse_table(b"[1] ").unwrap(), Value::Array(vec![num(b"1")]));
}

#[test]
fn comma_inside_empty_array_names_array_row() {
    let array_row = vec![
        TerminalCat::LBrace,
        TerminalCat::LBracket,
        TerminalCat::RBracket,
        TerminalCat::Str,
        TerminalCat::Num,
        TerminalCat::Bool,
        TerminalCat::Null,
    ];
    let err = parse_table(b"[,]").unwrap_err();
    assert_eq!(
        err,
        ParseError::UnexpectedTerminal {
            offset: 1,
            expected: array_row.clone(),
            found: TerminalCat::Comma,
        }
    );
    let err2 = parse_definite(b"[,]").unwrap_err();
    assert_eq!(
        err2,
        ParseError::UnexpectedTerminal {
            offset: 1,
            expected: array_row,
            found: TerminalCat::Comma,
        }
    );
}

#[test]
fn accessors() {
    let v = parse_table(b"{\"k\":[10,20]}").unwrap();
    let arr = v.get(&b"k".to_vec()).unwrap();
    assert_eq!(arr.at(0), Some(&num(b"10")));
    assert_eq!(arr.at(1), Some(&num(b"20")));
    assert_eq!(arr.at(2), None);
    assert_eq!(v.get(&b"absent".to_vec()), None);
    assert_eq!(v.at(0), None);
}

#[test]
fn render_then_parse_round_trips() {
    let v = Value::Object(vec![
        (b"nums".to_vec(), Value::Array(vec![num(b"1"), num(b"2.5")])),
        (b"name".to_vec(), st(b"x")),
        (b"flag".to_vec(), Value::Bool(false)),
        (b"none".to_vec(), Value::Null),
        (b"empty".to_vec(), Value::Object(vec![])),
    ]);
    let text = v.to_text();
    assert_eq!(parse_table(&text).unwrap(), v);
    assert_eq!(parse_definite(&text).unwrap(), v);
}

#[test]
fn render_is_compact() {
    let v = Value::Array(vec![num(b"1"), Value::Object(vec![(b"k".to_vec(), st(b"v"))])]);
    assert_eq!(v.to_text(), b"[1,{\"k\":\"v\"}]".to_vec());
}

#[test]
fn render_escaped_quote_round_trips() {
    let v = st(b"a\\\"b");
    let text = v.to_text();
    assert_eq!(text, b"\"a\\\"b\"".to_vec());
    assert_eq!(parse_table(&text).unwrap(), v);
}

#[test]
fn indefinite_parser_agrees() {
    let cases: [&[u8]; 6] = [
        b"[]",
        b"{}",
        b"[[1,2],[3,4]]",
        b"{\"a\":1,\"a\":2}",
        b"[1, \"x\", true, null, {\"k\": 1}]",
        b"{\"o\":{\"i\":[7]}}",
    ];
    for input in cases {
        let mut p = IndefiniteParser::new(Lexer::new(input.to_vec()));
        assert_eq!(p.parse().unwrap(), parse_table(input).unwrap());
    }
    let mut p = IndefiniteParser::new(Lexer::new(b"[1,2".to_vec()));
    assert_eq!(p.parse().unwrap_err(), ParseError::EndOfInput(4));
}
