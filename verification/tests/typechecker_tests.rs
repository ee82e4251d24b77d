use ir::ir_lexer::tokenize_line;
use ir::ir_parser::{Node, parse};
use ir::ir_typechecker::typecheck;

fn program(lines: &[&str]) -> Node {
    let mut tokens = Vec::new();
    for (row, line) in lines.iter().enumerate() {
        tokens.extend(tokenize_line(line, row as u64).unwrap());
    }
    parse(&tokens).unwrap().unwrap()
}

#[test]
fn empty_body_with_ret_void_passes() {
    let node = program(&["func @f:i32 () { ret void }"]);
    assert!(typecheck(&node));
}

#[test]
fn a_single_add_passes() {
    let node = program(&["func @f:i32 (%a:i32, %b:i32) {", "add %c:i32 %a %b", "ret %c", "}"]);
    assert!(typecheck(&node));
}

#[test]
fn a_chain_of_arithmetic_passes() {
    let node = program(&[
        "func @f:i32 (%a:i32, %b:i32, %c:i32) {",
        "add %x:i32 %a %b",
        "sub %y:i32 %x %c",
        "ret %y",
        "}",
    ]);
    assert!(typecheck(&node));
}

#[test]
fn mismatched_operand_type_is_rejected() {
    let node = program(&["func @f:i32 (%a:i8, %b:i32) {", "add %x:i32 %a %b", "ret %x", "}"]);
    assert!(!typecheck(&node));
}

#[test]
fn unbound_operand_is_rejected() {
    let node = program(&["func @f:i32 (%a:i32) {", "add %x:i32 %a %nowhere", "ret %x", "}"]);
    assert!(!typecheck(&node));
}

#[test]
fn duplicate_destination_is_rejected() {
    let node = program(&[
        "func @f:i32 (%a:i32, %b:i32) {",
        "add %x:i32 %a %b",
        "add %x:i32 %a %b",
        "ret %x",
        "}",
    ]);
    assert!(!typecheck(&node));
}

#[test]
fn rebinding_a_parameter_is_rejected() {
    let node = program(&["func @f:i32 (%a:i32, %b:i32) {", "add %a:i32 %a %b", "ret %a", "}"]);
    assert!(!typecheck(&node));
}

#[test]
fn duplicate_parameter_names_are_rejected() {
    let node = program(&["func @f:i32 (%a:i32, %a:i32) { ret void }"]);
    assert!(!typecheck(&node));
}

#[test]
fn let_from_literal_into_primitive_passes() {
    let node = program(&["func @f:i32 () {", "let %x:i32 41", "ret %x", "}"]);
    assert!(typecheck(&node));
}

#[test]
fn let_from_bound_variable_must_promote() {
    let node = program(&["func @f:i32 (%a:i8) {", "let %x:i32 %a", "ret %x", "}"]);
    assert!(!typecheck(&node));
}

#[test]
fn let_from_unbound_variable_is_accepted_as_observed() {
    // The source variable of a `let` is not required to be bound; the
    // destination is bound regardless.
    let node = program(&["func @f:i32 () {", "let %x:i32 %ghostly", "ret %x", "}"]);
    assert!(typecheck(&node));
}

#[test]
fn returned_variable_must_promote_to_the_return_type() {
    let node = program(&["func @f:i32 (%a:i8) { ret %a }"]);
    assert!(!typecheck(&node));
}

#[test]
fn returning_an_unbound_name_is_checked_as_void() {
    let node = program(&["func @f:i32 () { ret %missing }"]);
    assert!(!typecheck(&node));
}

#[test]
fn call_is_structurally_accepted_without_binding() {
    // The checker leaves calls alone: arguments and arity are not
    // examined, and the destination is not bound.
    let node = program(&["func @f:i32 () {", "call %x:i32 @g(%whatever)", "ret void", "}"]);
    assert!(typecheck(&node));
}

#[test]
fn a_call_destination_is_not_visible_afterwards() {
    let node = program(&[
        "func @f:i32 (%a:i32) {",
        "call %x:i32 @g(%a)",
        "add %y:i32 %x %a",
        "ret %y",
        "}",
    ]);
    assert!(!typecheck(&node));
}
