use ir::ir_lexer::tokenize_line;
use ir::ir_parser::{Node, parse};
use ir::ir_reg_allocer::{
    Rig, active_edges, add_liveset_to_rig, color_mappings, disconnect_k_connected_nodes,
    find_minimum_k, generate_coloring_stack, generate_rig, get_funcdef_liveness_ranges,
    make_palette, reconnect_edges, stmt_liveness,
};

fn program(lines: &[&str]) -> Node {
    let mut tokens = Vec::new();
    for (row, line) in lines.iter().enumerate() {
        tokens.extend(tokenize_line(line, row as u64).unwrap());
    }
    parse(&tokens).unwrap().unwrap()
}

fn body(node: &Node) -> &Vec<ir::ir_parser::Stmt> {
    let Node::FuncDef(_, stmts) = node;
    stmts
}

fn node_index(rig: &Rig, name: &str) -> usize {
    let n = rig.node_count();
    for i in 0..n {
        if rig.node_name(i) == name {
            return i;
        }
    }
    panic!("no node named {}", name);
}

fn has_active_edge(rig: &Rig, a: &str, b: &str) -> bool {
    let ia = node_index(rig, a);
    let ib = node_index(rig, b);
    matches!(rig.edge_weight(ia, ib), Some(w) if w > 0)
}

/// A complete graph on the given names.
fn complete_rig(names: &[&str]) -> Rig {
    let mut rig = Rig::new();
    let liveset: Vec<String> = names.iter().map(|s| s.to_string()).collect();
    add_liveset_to_rig(&mut rig, &liveset);
    rig
}

#[test]
fn def_and_use_lists_of_each_statement() {
    let node = program(&[
        "func @f:i32 (%a:i32, %b:i32) {",
        "add %c:i32 %a %b",
        "sub %d:i32 %c %a",
        "let %e:i32 5",
        "let %g:i32 %e",
        "call %h:i32 @other(%d, %g)",
        "ret %h",
        "}",
    ]);
    let stmts = body(&node);
    let (def, used) = stmt_liveness(&stmts[0]);
    assert_eq!(def, vec!["c"]);
    assert_eq!(used, vec!["a", "b"]);
    let (def, used) = stmt_liveness(&stmts[1]);
    assert_eq!(def, vec!["d"]);
    assert_eq!(used, vec!["c", "a"]);
    let (def, used) = stmt_liveness(&stmts[2]);
    assert_eq!(def, vec!["e"]);
    assert!(used.is_empty());
    let (def, used) = stmt_liveness(&stmts[3]);
    assert_eq!(def, vec!["g"]);
    assert_eq!(used, vec!["e"]);
    let (def, used) = stmt_liveness(&stmts[4]);
    assert_eq!(def, vec!["h"]);
    assert_eq!(used, vec!["d", "g"]);
    let (def, used) = stmt_liveness(&stmts[5]);
    assert!(def.is_empty());
    assert_eq!(used, vec!["h"]);
}

#[test]
fn live_sets_of_a_single_add() {
    // Live sets in reverse execution order: after the `ret` nothing is
    // live; on entry to `ret`, `c`; on entry to `add`, `a` and `b`.
    let node = program(&["func @f:i32 (%a:i32, %b:i32) {", "add %c:i32 %a %b", "ret %c", "}"]);
    let sets = get_funcdef_liveness_ranges(body(&node));
    assert_eq!(sets, vec![vec!["c".to_string()], vec!["a".to_string(), "b".to_string()]]);
}

#[test]
fn live_sets_of_a_three_way_interference() {
    let node = program(&[
        "func @f:i32 (%a:i32, %b:i32, %c:i32) {",
        "add %x:i32 %a %b",
        "add %y:i32 %x %c",
        "ret %y",
        "}",
    ]);
    let sets = get_funcdef_liveness_ranges(body(&node));
    // The snapshots are sets; within each, the order carries names over
    // from the later snapshot first, then appends new uses.
    assert_eq!(
        sets,
        vec![
            vec!["y".to_string()],
            vec!["x".to_string(), "c".to_string()],
            vec!["c".to_string(), "a".to_string(), "b".to_string()],
        ]
    );
}

#[test]
fn rig_of_a_single_add() {
    let node = program(&["func @f:i32 (%a:i32, %b:i32) {", "add %c:i32 %a %b", "ret %c", "}"]);
    let rig = generate_rig(&node);
    assert!(has_active_edge(&rig, "a", "b"));
    assert!(!has_active_edge(&rig, "a", "c"));
    assert!(!has_active_edge(&rig, "b", "c"));
}

#[test]
fn rig_of_a_three_way_interference() {
    let node = program(&[
        "func @f:i32 (%a:i32, %b:i32, %c:i32) {",
        "add %x:i32 %a %b",
        "add %y:i32 %x %c",
        "ret %y",
        "}",
    ]);
    let rig = generate_rig(&node);
    assert!(has_active_edge(&rig, "a", "b"));
    assert!(has_active_edge(&rig, "a", "c"));
    assert!(has_active_edge(&rig, "b", "c"));
    assert!(has_active_edge(&rig, "x", "c"));
    assert!(!has_active_edge(&rig, "x", "y"));
    assert!(!has_active_edge(&rig, "a", "x"));
}

#[test]
fn an_unused_definition_still_appears_as_a_node() {
    let node = program(&["func @f:i32 () {", "let %z:i32 5", "ret void", "}"]);
    let rig = generate_rig(&node);
    assert_eq!(rig.node_count(), 1);
    assert_eq!(rig.node_name(0), "z");
}

#[test]
fn the_rig_is_reproducible() {
    let node = program(&[
        "func @f:i32 (%a:i32, %b:i32, %c:i32) {",
        "add %x:i32 %a %b",
        "add %y:i32 %x %c",
        "ret %y",
        "}",
    ]);
    let rig1 = generate_rig(&node);
    let rig2 = generate_rig(&node);
    assert_eq!(rig1.node_count(), rig2.node_count());
    for i in 0..rig1.node_count() {
        assert_eq!(rig1.node_name(i), rig2.node_name(i));
        for j in 0..rig1.node_count() {
            assert_eq!(rig1.edge_weight(i, j), rig2.edge_weight(i, j));
        }
    }
}

#[test]
fn minimum_k_of_a_single_edge_is_two() {
    let node = program(&["func @f:i32 (%a:i32, %b:i32) {", "add %c:i32 %a %b", "ret %c", "}"]);
    let mut rig = generate_rig(&node);
    let (_, k) = find_minimum_k(&mut rig, 16).unwrap();
    assert_eq!(k, 2);
}

#[test]
fn minimum_k_of_a_triangle_is_three() {
    let node = program(&[
        "func @f:i32 (%a:i32, %b:i32, %c:i32) {",
        "add %x:i32 %a %b",
        "add %y:i32 %x %c",
        "ret %y",
        "}",
    ]);
    let mut rig = generate_rig(&node);
    let (stack, k) = find_minimum_k(&mut rig, 16).unwrap();
    assert_eq!(k, 3);
    assert_eq!(stack.len(), rig.node_count());
}

#[test]
fn a_complete_graph_needs_as_many_colors_as_nodes() {
    let mut rig = complete_rig(&["p", "q", "r", "s"]);
    let (_, k) = find_minimum_k(&mut rig, 16).unwrap();
    assert_eq!(k, 4);
}

#[test]
fn a_complete_graph_at_the_bound_finds_no_mapping() {
    // K_4 needs four colors; with the bound at 4, only 2 and 3 are tried.
    let mut rig = complete_rig(&["p", "q", "r", "s"]);
    assert!(find_minimum_k(&mut rig, 4).is_none());
}

#[test]
fn an_empty_graph_colors_at_two() {
    let node = program(&["func @f:i32 () { ret void }"]);
    let mut rig = generate_rig(&node);
    assert_eq!(rig.node_count(), 0);
    let (stack, k) = find_minimum_k(&mut rig, 16).unwrap();
    assert_eq!(k, 2);
    assert!(stack.is_empty());
}

#[test]
fn the_stack_holds_every_node_once() {
    let mut rig = complete_rig(&["p", "q", "r"]);
    let stack = generate_coloring_stack(&mut rig, 3).unwrap();
    let mut seen = vec![false; rig.node_count()];
    for &id in &stack {
        assert!(!seen[id]);
        seen[id] = true;
    }
    assert!(seen.iter().all(|&s| s));
}

#[test]
fn a_failed_attempt_leaves_the_graph_reconnected() {
    let mut rig = complete_rig(&["p", "q", "r"]);
    assert!(generate_coloring_stack(&mut rig, 2).is_none());
    for i in 0..rig.node_count() {
        for j in 0..rig.node_count() {
            if i != j {
                assert_eq!(rig.edge_weight(i, j), Some(1));
            }
        }
    }
}

#[test]
fn palettes_hold_distinct_colors() {
    let palette = make_palette(16);
    assert_eq!(palette.len(), 16);
    for i in 0..palette.len() {
        for j in 0..palette.len() {
            if i != j {
                assert_ne!(palette[i], palette[j]);
            }
        }
    }
}

#[test]
fn neighbors_get_different_colors() {
    let node = program(&[
        "func @f:i32 (%a:i32, %b:i32, %c:i32) {",
        "add %x:i32 %a %b",
        "add %y:i32 %x %c",
        "ret %y",
        "}",
    ]);
    let mut rig = generate_rig(&node);
    let (stack, k) = find_minimum_k(&mut rig, 16).unwrap();
    let palette = make_palette(k as usize);
    let mapping = color_mappings(&rig, &stack, &palette).unwrap();
    assert_eq!(mapping.len(), rig.node_count());
    for (i, &(a, ca)) in mapping.iter().enumerate() {
        for &(b, cb) in mapping.iter().skip(i + 1) {
            if matches!(rig.edge_weight(a, b), Some(w) if w > 0) {
                assert_ne!(ca, cb);
            }
        }
    }
}

#[test]
fn too_small_a_palette_fails_to_color() {
    let mut rig = complete_rig(&["p", "q", "r"]);
    let stack = generate_coloring_stack(&mut rig, 3).unwrap();
    let palette = make_palette(2);
    assert!(color_mappings(&rig, &stack, &palette).is_none());
}

#[test]
fn success_persists_at_larger_color_counts() {
    // A triangle first colors at three; every larger count succeeds too.
    let mut rig = complete_rig(&["p", "q", "r"]);
    assert!(generate_coloring_stack(&mut rig, 2).is_none());
    for k in 3..10 {
        assert!(generate_coloring_stack(&mut rig, k).is_some());
    }
    let node = program(&["func @f:i32 (%a:i32, %b:i32) {", "add %c:i32 %a %b", "ret %c", "}"]);
    let mut rig2 = generate_rig(&node);
    for k in 2..10 {
        assert!(generate_coloring_stack(&mut rig2, k).is_some());
    }
}

#[test]
fn active_edges_counts_enabled_neighbors() {
    let mut rig = complete_rig(&["p", "q", "r"]);
    for i in 0..3 {
        assert_eq!(active_edges(&rig, i), 2);
    }
    // Nothing has degree one, so a sweep at one disconnects nothing.
    assert!(disconnect_k_connected_nodes(&mut rig, 1).is_empty());
    // A sweep at two takes the first node down and drags the rest along.
    let fallen = disconnect_k_connected_nodes(&mut rig, 2);
    assert_eq!(fallen, vec![0]);
    assert_eq!(active_edges(&rig, 0), 0);
    assert_eq!(active_edges(&rig, 1), 1);
    reconnect_edges(&mut rig);
    for i in 0..3 {
        assert_eq!(active_edges(&rig, i), 2);
    }
}
