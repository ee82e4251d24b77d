use ir::ir_lexer::{Token, tokenize_line};
use ir::ir_parser::{
    LetValue, Node, Stmt, SyntaxError, Type, VarTypePair, Variable, ast_tokens,
    is_promotable_to, parse,
};

fn lex(lines: &[&str]) -> Vec<Token> {
    let mut tokens = Vec::new();
    for (row, line) in lines.iter().enumerate() {
        tokens.extend(tokenize_line(line, row as u64).unwrap());
    }
    tokens
}

fn var(name: &str) -> Variable {
    Variable { name: name.to_string() }
}

fn vtp(name: &str, t: Type) -> VarTypePair {
    VarTypePair { name: name.to_string(), typename: t }
}

#[test]
fn promotable_is_reflexive_on_primitives() {
    assert!(is_promotable_to(&Type::I8, &Type::I8));
    assert!(is_promotable_to(&Type::I16, &Type::I16));
    assert!(is_promotable_to(&Type::I32, &Type::I32));
    assert!(is_promotable_to(&Type::I64, &Type::I64));
    assert!(is_promotable_to(&Type::F32, &Type::F32));
    assert!(is_promotable_to(&Type::F64, &Type::F64));
    assert!(is_promotable_to(&Type::Void, &Type::Void));
}

#[test]
fn promotable_rejects_mixed_primitives() {
    assert!(!is_promotable_to(&Type::I8, &Type::I32));
    assert!(!is_promotable_to(&Type::I32, &Type::I64));
    assert!(!is_promotable_to(&Type::Void, &Type::I32));
    assert!(!is_promotable_to(&Type::F32, &Type::F64));
}

#[test]
fn promotable_rejects_pointers_even_to_themselves() {
    let p = Type::Ptr(Box::new(Type::I32));
    let q = Type::Ptr(Box::new(Type::I32));
    assert!(!is_promotable_to(&p, &q));
    let u = Type::UserType("point".to_string());
    let v = Type::UserType("point".to_string());
    assert!(!is_promotable_to(&u, &v));
}

#[test]
fn parses_a_minimal_function() {
    let tokens = lex(&["func @f:i32 () {", "ret void", "}"]);
    let node = parse(&tokens).unwrap().unwrap();
    let Node::FuncDef(sig, body) = node;
    assert_eq!(sig.name, "f");
    assert_eq!(sig.typename, Type::I32);
    assert!(sig.arglist.is_empty());
    assert_eq!(body, vec![Stmt::RetInst(None)]);
}

#[test]
fn parses_a_single_add() {
    let tokens = lex(&["func @f:i32 (%a:i32, %b:i32) {", "add %c:i32 %a %b", "ret %c", "}"]);
    let node = parse(&tokens).unwrap().unwrap();
    let Node::FuncDef(sig, body) = node;
    assert_eq!(sig.arglist, vec![vtp("a", Type::I32), vtp("b", Type::I32)]);
    assert_eq!(
        body,
        vec![
            Stmt::AddInst(vtp("c", Type::I32), var("a"), var("b")),
            Stmt::RetInst(Some(var("c"))),
        ]
    );
}

#[test]
fn parses_let_and_call() {
    let tokens = lex(&[
        "func @main:i64 () {",
        "let %x:i64 7",
        "let %y:i64 %x",
        "call %z:i64 @helper(%x, %y)",
        "ret %z",
        "}",
    ]);
    let node = parse(&tokens).unwrap().unwrap();
    let Node::FuncDef(_, body) = node;
    assert_eq!(
        body,
        vec![
            Stmt::LetInst(vtp("x", Type::I64), LetValue::LetInteger(7)),
            Stmt::LetInst(vtp("y", Type::I64), LetValue::LetVariable(var("x"))),
            Stmt::CallInst(
                vtp("z", Type::I64),
                ir::ir_parser::Function { name: "helper".to_string() },
                vec![var("x"), var("y")],
            ),
            Stmt::RetInst(Some(var("z"))),
        ]
    );
}

#[test]
fn input_without_func_gives_none() {
    let tokens = lex(&["add %c:i32 %a %b"]);
    assert_eq!(parse(&tokens).unwrap(), None);
}

#[test]
fn tokens_after_the_function_are_ignored() {
    let tokens = lex(&["func @f:i32 () { ret void } %stray"]);
    assert!(parse(&tokens).unwrap().is_some());
}

#[test]
fn missing_colon_in_pair_is_a_syntax_error() {
    let tokens = lex(&["func @f:i32 (%a i32) { ret void }"]);
    match parse(&tokens) {
        Err(SyntaxError::ExpectedColon(l)) => assert_eq!(l.row, 0),
        other => panic!("unexpected result: {:?}", other),
    }
}

#[test]
fn missing_type_after_colon_is_a_syntax_error() {
    let tokens = lex(&["func @f:i32 (%a:%b) { ret void }"]);
    assert!(matches!(parse(&tokens), Err(SyntaxError::ExpectedType(_))));
}

#[test]
fn add_without_second_operand_is_a_syntax_error() {
    let tokens = lex(&["func @f:i32 () { add %c:i32 %a ret void }"]);
    assert!(matches!(parse(&tokens), Err(SyntaxError::ExpectedSecondOperand(_))));
}

#[test]
fn add_without_destination_is_a_syntax_error() {
    let tokens = lex(&["func @f:i32 () { add ret void }"]);
    assert!(matches!(parse(&tokens), Err(SyntaxError::ExpectedVarTypePair(_))));
}

#[test]
fn let_without_value_is_a_syntax_error() {
    let tokens = lex(&["func @f:i32 () { let %x:i32 }"]);
    assert!(matches!(parse(&tokens), Err(SyntaxError::ExpectedLetValue(_))));
}

#[test]
fn ret_without_value_is_a_syntax_error() {
    let tokens = lex(&["func @f:i32 () { ret }"]);
    assert!(matches!(parse(&tokens), Err(SyntaxError::ExpectedRetValue(_))));
}

#[test]
fn unclosed_parameter_list_is_a_syntax_error() {
    let tokens = lex(&["func @f:i32 (%a:i32 { ret void }"]);
    assert!(matches!(parse(&tokens), Err(SyntaxError::ExpectedRParen(_))));
}

#[test]
fn signature_without_parens_is_a_syntax_error() {
    let tokens = lex(&["func @f:i32 { ret void }"]);
    assert!(matches!(parse(&tokens), Err(SyntaxError::ExpectedLParen)));
}

#[test]
fn trailing_comma_in_signature_is_a_syntax_error() {
    let tokens = lex(&["func @f:i32 (%a:i32,) { ret void }"]);
    assert!(matches!(parse(&tokens), Err(SyntaxError::ExpectedVarTypePair(_))));
}

#[test]
fn trailing_comma_in_call_is_a_syntax_error() {
    let tokens = lex(&["func @f:i32 () { call %x:i32 @g(%a,) ret void }"]);
    assert!(matches!(parse(&tokens), Err(SyntaxError::ExpectedParamName(_))));
}

#[test]
fn unclosed_body_is_a_syntax_error() {
    let tokens = lex(&["func @f:i32 () { ret void"]);
    assert!(matches!(parse(&tokens), Err(SyntaxError::ExpectedRBrace(_))));
}

#[test]
fn missing_body_is_a_syntax_error() {
    let tokens = lex(&["func @f:i32 ()"]);
    assert!(matches!(parse(&tokens), Err(SyntaxError::ExpectedLBrace(_))));
}

#[test]
fn func_without_signature_is_a_syntax_error() {
    let tokens = lex(&["func { ret void }"]);
    assert!(matches!(parse(&tokens), Err(SyntaxError::ExpectedFuncSig)));
}

#[test]
fn call_without_destination_is_a_syntax_error() {
    let tokens = lex(&["func @f:i32 () { call @g() }"]);
    assert!(matches!(parse(&tokens), Err(SyntaxError::ExpectedCallDest)));
}

#[test]
fn call_without_function_name_is_a_syntax_error() {
    let tokens = lex(&["func @f:i32 () { call %x:i32 () }"]);
    assert!(matches!(parse(&tokens), Err(SyntaxError::ExpectedFuncName)));
}

#[test]
fn call_without_parens_is_a_syntax_error() {
    let tokens = lex(&["func @f:i32 () { call %x:i32 @g }"]);
    assert!(matches!(parse(&tokens), Err(SyntaxError::ExpectedCallLParen)));
}

#[test]
fn call_without_closing_paren_is_a_syntax_error() {
    let tokens = lex(&["func @f:i32 () { call %x:i32 @g(%a }"]);
    assert!(matches!(parse(&tokens), Err(SyntaxError::ExpectedCallRParen)));
}

#[test]
fn printing_and_reparsing_gives_the_same_tree() {
    let tokens = lex(&[
        "func @f:i32 (%a:i32, %b:i32, %c:i32) {",
        "add %x:i32 %a %b",
        "sub %y:i32 %x %c",
        "let %z:i32 5",
        "call %w:i32 @g(%z, %y)",
        "ret %w",
        "}",
    ]);
    let node = parse(&tokens).unwrap().unwrap();
    let printed = ast_tokens(&node);
    let reparsed = parse(&printed).unwrap().unwrap();
    assert_eq!(node, reparsed);
}

#[test]
fn round_trip_of_an_empty_body() {
    let tokens = lex(&["func @f:f64 () { }"]);
    let node = parse(&tokens).unwrap().unwrap();
    let printed = ast_tokens(&node);
    let reparsed = parse(&printed).unwrap().unwrap();
    assert_eq!(node, reparsed);
}

#[test]
fn round_trip_of_ret_void() {
    let tokens = lex(&["func @f:i16 (%p:i8) { ret void }"]);
    let node = parse(&tokens).unwrap().unwrap();
    let printed = ast_tokens(&node);
    let reparsed = parse(&printed).unwrap().unwrap();
    assert_eq!(node, reparsed);
}
