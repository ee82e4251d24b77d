use ir::ir_lexer::{LexError, TokLoc, Token, tokenize_line};

fn loc(row: u64, col: u64) -> TokLoc {
    TokLoc { row, col }
}

#[test]
fn empty_line_has_no_tokens() {
    let tokens = tokenize_line("", 0).unwrap();
    assert!(tokens.is_empty());
}

#[test]
fn whitespace_only_line_has_no_tokens() {
    let tokens = tokenize_line("   \t  ", 3).unwrap();
    assert!(tokens.is_empty());
}

#[test]
fn comment_stops_the_line() {
    let tokens = tokenize_line("add ; this is a comment", 0).unwrap();
    assert_eq!(tokens, vec![Token::AddKeyword(loc(0, 0))]);
}

#[test]
fn keywords_are_recognized() {
    let tokens = tokenize_line("func add sub let ret call void", 1).unwrap();
    assert_eq!(
        tokens,
        vec![
            Token::FuncKeyword(loc(1, 0)),
            Token::AddKeyword(loc(1, 5)),
            Token::SubKeyword(loc(1, 9)),
            Token::LetKeyword(loc(1, 13)),
            Token::RetKeyword(loc(1, 17)),
            Token::CallKeyword(loc(1, 21)),
            Token::VoidKeyword(loc(1, 26)),
        ]
    );
}

#[test]
fn type_keywords_are_recognized() {
    let tokens = tokenize_line("i8 i16 i32 i64 f32 f64", 0).unwrap();
    assert_eq!(
        tokens,
        vec![
            Token::I8Keyword(loc(0, 0)),
            Token::I16Keyword(loc(0, 3)),
            Token::I32Keyword(loc(0, 7)),
            Token::I64Keyword(loc(0, 11)),
            Token::F32Keyword(loc(0, 15)),
            Token::F64Keyword(loc(0, 19)),
        ]
    );
}

#[test]
fn var_and_func_names_carry_their_text() {
    let tokens = tokenize_line("%value @main", 0).unwrap();
    assert_eq!(
        tokens,
        vec![
            Token::VarName("value".to_string(), loc(0, 0)),
            Token::FuncName("main".to_string(), loc(0, 7)),
        ]
    );
}

#[test]
fn an_identifier_is_not_a_keyword() {
    let tokens = tokenize_line("adder", 0).unwrap();
    assert_eq!(tokens, vec![Token::Ident("adder".to_string(), loc(0, 0))]);
}

#[test]
fn underscore_is_its_own_token() {
    let tokens = tokenize_line("_", 0).unwrap();
    assert_eq!(tokens, vec![Token::Underscore(loc(0, 0))]);
}

#[test]
fn integers_are_parsed() {
    let tokens = tokenize_line("0 42 9223372036854775807", 0).unwrap();
    assert_eq!(
        tokens,
        vec![
            Token::Integer(0, loc(0, 0)),
            Token::Integer(42, loc(0, 2)),
            Token::Integer(i64::MAX, loc(0, 5)),
        ]
    );
}

#[test]
fn an_oversized_integer_is_a_lex_error() {
    let err = tokenize_line("9223372036854775808", 0).unwrap_err();
    assert_eq!(err, LexError::IntegerOverflow(loc(0, 0)));
}

#[test]
fn a_bare_percent_is_a_lex_error() {
    let err = tokenize_line("%", 4).unwrap_err();
    assert_eq!(err, LexError::ZeroLengthVarName(loc(4, 0)));
}

#[test]
fn a_bare_at_sign_is_a_lex_error() {
    let err = tokenize_line("  @", 2).unwrap_err();
    assert_eq!(err, LexError::ZeroLengthFuncName(loc(2, 2)));
}

#[test]
fn an_empty_char_literal_is_a_lex_error() {
    let err = tokenize_line("''", 0).unwrap_err();
    assert_eq!(err, LexError::BadCharLit(loc(0, 0)));
}

#[test]
fn an_overlong_char_literal_is_a_lex_error() {
    let err = tokenize_line("'abcd'", 0).unwrap_err();
    assert_eq!(err, LexError::BadCharLit(loc(0, 0)));
}

#[test]
fn char_and_string_literals_keep_their_bodies() {
    let tokens = tokenize_line("'a' \"hello\"", 0).unwrap();
    assert_eq!(
        tokens,
        vec![
            Token::CharLit("a".to_string(), loc(0, 0)),
            Token::StrLit("hello".to_string(), loc(0, 4)),
        ]
    );
}

#[test]
fn escaped_quote_stays_inside_a_string() {
    let tokens = tokenize_line("\"a\\\"b\"", 0).unwrap();
    assert_eq!(tokens, vec![Token::StrLit("a\\\"b".to_string(), loc(0, 0))]);
}

#[test]
fn punctuation_single_and_double() {
    let tokens = tokenize_line(": ( ) { } , *", 0).unwrap();
    assert_eq!(
        tokens,
        vec![
            Token::Colon(loc(0, 0)),
            Token::LParen(loc(0, 2)),
            Token::RParen(loc(0, 4)),
            Token::LBrace(loc(0, 6)),
            Token::RBrace(loc(0, 8)),
            Token::Comma(loc(0, 10)),
            Token::Asterisk(loc(0, 12)),
        ]
    );
}

#[test]
fn two_character_operators_take_the_second_column() {
    let tokens = tokenize_line(":: -> => == ..", 0).unwrap();
    assert_eq!(
        tokens,
        vec![
            Token::DoubleColon(loc(0, 1)),
            Token::RThinArrow(loc(0, 4)),
            Token::RFatArrow(loc(0, 7)),
            Token::DoubleEquals(loc(0, 10)),
            Token::DotDot(loc(0, 13)),
        ]
    );
}

#[test]
fn an_unknown_character_is_skipped() {
    let tokens = tokenize_line("$ %x", 0).unwrap();
    assert_eq!(tokens, vec![Token::VarName("x".to_string(), loc(0, 2))]);
}

#[test]
fn a_full_instruction_line() {
    let tokens = tokenize_line("add %c:i32 %a %b", 7).unwrap();
    assert_eq!(
        tokens,
        vec![
            Token::AddKeyword(loc(7, 0)),
            Token::VarName("c".to_string(), loc(7, 4)),
            Token::Colon(loc(7, 6)),
            Token::I32Keyword(loc(7, 7)),
            Token::VarName("a".to_string(), loc(7, 11)),
            Token::VarName("b".to_string(), loc(7, 14)),
        ]
    );
}
