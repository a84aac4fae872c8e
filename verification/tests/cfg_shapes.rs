use petgraph::graph::{EdgeIndex, NodeIndex};
use solana_graphs::cfg_builder::{
    build_cfg_from_ast, build_function_cfg, try_build_cfg_from_ast, try_build_function_cfg,
    CfgBuilder,
};
use solana_graphs::cfg_growth::cfg_growth;
use solana_graphs::program_tree::AstNode;

fn node(kind: &str, text: &str, children: Vec<AstNode>) -> AstNode {
    AstNode { kind: kind.to_string(), text: text.to_string(), children }
}

fn leaf(kind: &str, text: &str) -> AstNode {
    node(kind, text, vec![])
}

fn function(body: Vec<AstNode>) -> AstNode {
    node(
        "function_item",
        "fn f() { .. }",
        vec![leaf("identifier", "f"), node("statement_block", "{ .. }", body)],
    )
}

fn edges(builder: &CfgBuilder) -> Vec<(usize, usize)> {
    let g = builder.graph();
    (0..g.edge_count())
        .map(|k| {
            let (a, b) = g.edge_endpoints(EdgeIndex::new(k)).unwrap();
            (a.index(), b.index())
        })
        .collect()
}

fn lines(builder: &CfgBuilder, block: usize) -> Vec<String> {
    builder.graph()[NodeIndex::new(block)].statements.clone()
}

fn in_degree(builder: &CfgBuilder, block: usize) -> usize {
    edges(builder).iter().filter(|e| e.1 == block).count()
}

#[test]
fn new_builder_has_entry_and_exit_only() {
    let builder = CfgBuilder::new();
    assert_eq!(builder.graph().node_count(), 2);
    assert_eq!(builder.graph().edge_count(), 0);
    assert_eq!(builder.entry_node(), 0);
    assert_eq!(builder.exit_node(), 1);
    assert_eq!(builder.current_block(), 0);
    assert_eq!(lines(&builder, 0), vec!["Entry"]);
    assert_eq!(lines(&builder, 1), vec!["Exit"]);
}

#[test]
fn builder_primitives_grow_the_graph() {
    let mut builder = CfgBuilder::new();
    let block = builder.new_block();
    assert_eq!(block, 2);
    assert!(lines(&builder, 2).is_empty());
    builder.add_edge(0, block);
    builder.add_edge(0, block);
    builder.add_statement_to_current_block("x".to_string());
    assert_eq!(edges(&builder), vec![(0, 2), (0, 2)]);
    assert_eq!(lines(&builder, 0), vec!["Entry", "x"]);
    let graph = builder.into_graph();
    assert_eq!(graph.node_count(), 3);
    assert_eq!(graph.edge_count(), 2);
}

#[test]
fn straight_line_body_accumulates_in_entry() {
    let f = function(vec![
        leaf("let_declaration", "  let a = 1;  \n"),
        leaf("expression_statement", "foo();"),
    ]);
    let builder = build_function_cfg(&f);
    assert_eq!(builder.graph().node_count(), 2);
    assert_eq!(edges(&builder), vec![(0, 1)]);
    assert_eq!(lines(&builder, 0), vec!["Entry", "let a = 1;", "foo();"]);
    assert_eq!(lines(&builder, 1), vec!["Exit"]);
}

#[test]
fn function_without_body_is_entry_to_exit() {
    let f = node("function_item", "fn f();", vec![leaf("identifier", "f")]);
    let builder = build_function_cfg(&f);
    assert_eq!(builder.graph().node_count(), 2);
    assert_eq!(edges(&builder), vec![(0, 1)]);
    assert_eq!(lines(&builder, 0), vec!["Entry"]);
}

#[test]
fn function_body_may_be_tagged_block() {
    let f = node(
        "function_item",
        "fn f() { let a = 1; }",
        vec![
            leaf("identifier", "f"),
            node("block", "{ let a = 1; }", vec![leaf("let_declaration", "let a = 1;")]),
        ],
    );
    let builder = build_function_cfg(&f);
    assert_eq!(builder.graph().node_count(), 2);
    assert_eq!(edges(&builder), vec![(0, 1)]);
    assert_eq!(lines(&builder, 0), vec!["Entry", "let a = 1;"]);
}

#[test]
fn function_body_is_the_first_block_child() {
    let f = node(
        "function_item",
        "fn f() { .. }",
        vec![
            leaf("identifier", "f"),
            leaf("parameters", "()"),
            node("block", "{ first(); }", vec![leaf("expression_statement", "first();")]),
            node("statement_block", "{ return }", vec![leaf("return_expression", "return")]),
        ],
    );
    let builder = build_function_cfg(&f);
    assert_eq!(builder.graph().node_count(), 2);
    assert_eq!(edges(&builder), vec![(0, 1)]);
    assert_eq!(lines(&builder, 0), vec!["Entry", "first();"]);
}

#[test]
fn conditional_with_both_branches_merges_once() {
    let conditional = node(
        "if_expression",
        "if x > 0 { a(); } else { b(); }",
        vec![
            leaf("condition", "x > 0"),
            node("consequence", "{ a(); }", vec![leaf("expression_statement", "a();")]),
            node("alternative", "{ b(); }", vec![leaf("expression_statement", "b();")]),
        ],
    );
    let builder = build_function_cfg(&function(vec![conditional]));
    // 0 entry, 1 exit, 2 merge, 3 then, 4 else
    assert_eq!(builder.graph().node_count(), 5);
    assert_eq!(edges(&builder), vec![(0, 3), (3, 2), (0, 4), (4, 2), (2, 1)]);
    assert_eq!(lines(&builder, 0), vec!["Entry", "IF (x > 0)"]);
    assert_eq!(lines(&builder, 3), vec!["a();"]);
    assert_eq!(lines(&builder, 4), vec!["b();"]);
    assert!(lines(&builder, 2).is_empty());
    assert_eq!(in_degree(&builder, 2), 2);
    assert!(!edges(&builder).contains(&(0, 2)));
    assert_eq!(builder.current_block(), 2);
}

#[test]
fn conditional_without_else_falls_through() {
    let conditional = node(
        "if_expression",
        "if ready { go(); }",
        vec![
            leaf("condition", "ready"),
            node("consequence", "{ go(); }", vec![leaf("expression_statement", "go();")]),
        ],
    );
    let builder = build_function_cfg(&function(vec![conditional]));
    assert_eq!(builder.graph().node_count(), 4);
    assert_eq!(edges(&builder), vec![(0, 3), (3, 2), (0, 2), (2, 1)]);
    assert_eq!(lines(&builder, 0), vec!["Entry", "IF (ready)"]);
}

#[test]
fn conditional_without_condition_or_branches() {
    let mut builder = CfgBuilder::new();
    build_cfg_from_ast(&leaf("if_expression", "if"), &mut builder);
    assert_eq!(builder.graph().node_count(), 3);
    assert_eq!(edges(&builder), vec![(0, 2)]);
    assert_eq!(lines(&builder, 0), vec!["Entry", "IF ()"]);
    assert_eq!(builder.current_block(), 2);
}

#[test]
fn conditional_takes_the_first_child_of_each_tag() {
    let conditional = node(
        "if_expression",
        "if",
        vec![
            leaf("condition", "first"),
            leaf("condition", "second"),
            node("consequence", "", vec![leaf("expression_statement", "one();")]),
            node("consequence", "", vec![leaf("expression_statement", "two();")]),
        ],
    );
    let mut builder = CfgBuilder::new();
    build_cfg_from_ast(&conditional, &mut builder);
    assert_eq!(lines(&builder, 0), vec!["Entry", "IF (first)"]);
    assert_eq!(lines(&builder, 3), vec!["one();"]);
    assert_eq!(builder.graph().node_count(), 4);
}

#[test]
fn return_leads_to_exit_and_leaves_an_isolated_block() {
    let mut builder = CfgBuilder::new();
    build_cfg_from_ast(&leaf("return_expression", "return 1"), &mut builder);
    assert_eq!(builder.graph().node_count(), 3);
    assert_eq!(edges(&builder), vec![(0, 1)]);
    assert_eq!(builder.current_block(), 2);
    assert_eq!(lines(&builder, 0), vec!["Entry", "return 1"]);
    assert!(lines(&builder, 2).is_empty());
    assert_eq!(in_degree(&builder, 2), 0);
}

#[test]
fn return_text_is_recorded_whole() {
    let mut builder = CfgBuilder::new();
    build_cfg_from_ast(&leaf("return_expression", "  return a\n    + b  "), &mut builder);
    assert_eq!(lines(&builder, 0), vec!["Entry", "  return a\n    + b  "]);
}

#[test]
fn code_after_return_lands_in_the_unreachable_block() {
    let f = function(vec![
        leaf("return_expression", "return 1"),
        leaf("expression_statement", "never();"),
    ]);
    let builder = build_function_cfg(&f);
    assert_eq!(builder.graph().node_count(), 3);
    assert_eq!(edges(&builder), vec![(0, 1), (2, 1)]);
    assert_eq!(lines(&builder, 2), vec!["never();"]);
    assert_eq!(in_degree(&builder, 2), 0);
}

#[test]
fn loop_with_break_has_exit_and_back_edges() {
    let body = node(
        "statement_block",
        "{ step(); break; }",
        vec![leaf("expression_statement", "step();"), leaf("break_expression", "break")],
    );
    let looping = node("while_expression", "while c { step(); break; }", vec![body]);
    let builder = build_function_cfg(&function(vec![looping]));
    // 0 entry, 1 exit, 2 header, 3 body, 4 after, 5 after the break
    assert_eq!(builder.graph().node_count(), 6);
    assert_eq!(edges(&builder), vec![(0, 2), (2, 3), (2, 4), (3, 4), (5, 2), (4, 1)]);
    assert_eq!(lines(&builder, 3), vec!["step();", "break"]);
    assert!(lines(&builder, 2).is_empty());
    assert_eq!(in_degree(&builder, 5), 0);
    assert_eq!(builder.current_block(), 4);
}

#[test]
fn every_loop_kind_is_handled_alike() {
    for kind in ["loop_expression", "while_expression", "for_expression"] {
        let mut builder = CfgBuilder::new();
        build_cfg_from_ast(&leaf(kind, "loop {}"), &mut builder);
        assert_eq!(builder.graph().node_count(), 5);
        assert_eq!(edges(&builder), vec![(0, 2), (2, 3), (2, 4), (3, 2)]);
        assert_eq!(builder.current_block(), 4);
    }
}

#[test]
fn loop_body_may_be_tagged_block() {
    let looping = node(
        "loop_expression",
        "loop { return }",
        vec![
            leaf("loop_label", "'outer"),
            node("block", "{ return }", vec![leaf("return_expression", "return")]),
        ],
    );
    let mut builder = CfgBuilder::new();
    build_cfg_from_ast(&looping, &mut builder);
    // 2 header, 3 body, 4 after, 5 after the return
    assert_eq!(builder.graph().node_count(), 6);
    assert_eq!(edges(&builder), vec![(0, 2), (2, 3), (2, 4), (3, 1), (5, 2)]);
    assert_eq!(lines(&builder, 3), vec!["return"]);
    assert_eq!(builder.current_block(), 4);
}

#[test]
fn loop_without_a_block_child_has_an_empty_body() {
    let looping = node(
        "while_expression",
        "while c return",
        vec![leaf("condition", "c"), leaf("return_expression", "return")],
    );
    let mut builder = CfgBuilder::new();
    build_cfg_from_ast(&looping, &mut builder);
    assert_eq!(builder.graph().node_count(), 5);
    assert_eq!(edges(&builder), vec![(0, 2), (2, 3), (2, 4), (3, 2)]);
}

#[test]
fn break_outside_a_loop_adds_no_edge() {
    let mut builder = CfgBuilder::new();
    build_cfg_from_ast(&leaf("break_expression", "break"), &mut builder);
    assert_eq!(builder.graph().node_count(), 3);
    assert!(edges(&builder).is_empty());
    assert_eq!(lines(&builder, 0), vec!["Entry", "break"]);
    assert_eq!(builder.current_block(), 2);
}

#[test]
fn break_leaves_the_innermost_loop() {
    let inner = node(
        "loop_expression",
        "loop { break }",
        vec![node("statement_block", "{ break }", vec![leaf("break_expression", "break")])],
    );
    let outer = node(
        "loop_expression",
        "loop { loop { break } break }",
        vec![node(
            "statement_block",
            "{ .. }",
            vec![inner, leaf("break_expression", "break")],
        )],
    );
    let mut builder = CfgBuilder::new();
    build_cfg_from_ast(&outer, &mut builder);
    // outer: 2 header, 3 body, 4 after; inner: 5 header, 6 body, 7 after;
    // 8 after the inner break; 9 after the outer break
    assert_eq!(
        edges(&builder),
        vec![
            (0, 2),
            (2, 3),
            (2, 4),
            (3, 5),
            (5, 6),
            (5, 7),
            (6, 7),
            (8, 5),
            (7, 4),
            (9, 2)
        ]
    );
    assert_eq!(builder.current_block(), 4);
}

#[test]
fn break_after_a_loop_is_outside_again() {
    let f = function(vec![leaf("loop_expression", "loop {}"), leaf("break_expression", "break")]);
    let builder = build_function_cfg(&f);
    // 2 header, 3 body, 4 after, 5 after the break
    assert_eq!(edges(&builder), vec![(0, 2), (2, 3), (2, 4), (3, 2), (5, 1)]);
    assert_eq!(lines(&builder, 4), vec!["break"]);
}

#[test]
fn containers_are_looked_through() {
    let wrapped = node(
        "expression",
        "{ a(); }",
        vec![node("parenthesized", "(a();)", vec![leaf("expression_statement", "a();")])],
    );
    let mut builder = CfgBuilder::new();
    build_cfg_from_ast(&wrapped, &mut builder);
    assert_eq!(builder.graph().node_count(), 2);
    assert_eq!(lines(&builder, 0), vec!["Entry", "a();"]);
}

#[test]
fn statements_are_not_looked_into() {
    let statement = node(
        "expression_statement",
        "f(return 1);",
        vec![leaf("return_expression", "return 1")],
    );
    let mut builder = CfgBuilder::new();
    build_cfg_from_ast(&statement, &mut builder);
    assert_eq!(builder.graph().node_count(), 2);
    assert!(edges(&builder).is_empty());
    assert_eq!(lines(&builder, 0), vec!["Entry", "f(return 1);"]);
}

#[test]
fn statement_with_blank_first_line_is_skipped() {
    let mut builder = CfgBuilder::new();
    build_cfg_from_ast(&leaf("empty_statement", "   \nlet x = 1;"), &mut builder);
    build_cfg_from_ast(&leaf("empty_statement", ""), &mut builder);
    assert_eq!(lines(&builder, 0), vec!["Entry"]);
}

#[test]
fn nested_conditional_in_loop() {
    let conditional = node(
        "if_expression",
        "if done { break }",
        vec![
            leaf("condition", "done"),
            node("consequence", "{ break }", vec![leaf("break_expression", "break")]),
        ],
    );
    let looping = node(
        "loop_expression",
        "loop { if done { break } }",
        vec![node("statement_block", "{ .. }", vec![conditional])],
    );
    let builder = build_function_cfg(&function(vec![looping]));
    // 2 header, 3 body, 4 after, 5 merge, 6 then, 7 after the break
    assert_eq!(
        edges(&builder),
        vec![(0, 2), (2, 3), (2, 4), (3, 6), (6, 4), (7, 5), (3, 5), (5, 2), (4, 1)]
    );
    assert_eq!(lines(&builder, 3), vec!["IF (done)"]);
    assert_eq!(lines(&builder, 6), vec!["break"]);
}

#[test]
fn growth_counts_blocks_and_edges() {
    assert_eq!(cfg_growth(&leaf("expression_statement", "a();"), false), Some((0, 0)));
    assert_eq!(cfg_growth(&leaf("return_expression", "return"), false), Some((1, 1)));
    assert_eq!(cfg_growth(&leaf("break_expression", "break"), false), Some((1, 0)));
    assert_eq!(cfg_growth(&leaf("break_expression", "break"), true), Some((1, 1)));
    assert_eq!(cfg_growth(&leaf("loop_expression", "loop {}"), false), Some((3, 4)));
    assert_eq!(cfg_growth(&leaf("if_expression", "if"), false), Some((1, 1)));
    let body = node(
        "statement_block",
        "{ break }",
        vec![leaf("break_expression", "break"), leaf("return_expression", "return")],
    );
    let looping = node("for_expression", "for .. { break }", vec![body]);
    assert_eq!(cfg_growth(&looping, false), Some((5, 6)));
    let conditional = node(
        "if_expression",
        "if c { return } else { }",
        vec![
            node("consequence", "{ return }", vec![leaf("return_expression", "return")]),
            leaf("alternative", "{ }"),
        ],
    );
    assert_eq!(cfg_growth(&conditional, false), Some((4, 5)));
}

#[test]
fn growth_matches_what_the_builder_adds() {
    let conditional = node(
        "if_expression",
        "if c { return } else { break }",
        vec![
            node("consequence", "{ return }", vec![leaf("return_expression", "return")]),
            node("alternative", "{ break }", vec![leaf("break_expression", "break")]),
        ],
    );
    let looping = node(
        "while_expression",
        "while ..",
        vec![node("statement_block", "{ .. }", vec![conditional])],
    );
    let (blocks, edges_added) = cfg_growth(&looping, false).unwrap();
    let mut builder = CfgBuilder::new();
    build_cfg_from_ast(&looping, &mut builder);
    assert_eq!(builder.graph().node_count(), 2 + blocks as usize);
    assert_eq!(builder.graph().edge_count(), edges_added as usize);
}

#[test]
fn checked_build_agrees_with_plain_build() {
    let f = function(vec![
        leaf("let_declaration", "let a = 1;"),
        node(
            "while_expression",
            "while a < 3 { a += 1; }",
            vec![node("statement_block", "{ a += 1; }", vec![leaf("expression_statement", "a += 1;")])],
        ),
        leaf("return_expression", "return a"),
    ]);
    let plain = build_function_cfg(&f);
    let checked = try_build_function_cfg(&f).expect("a small function fits");
    assert_eq!(plain.graph().node_count(), checked.graph().node_count());
    assert_eq!(edges(&plain), edges(&checked));
    for block in 0..plain.graph().node_count() {
        assert_eq!(lines(&plain, block), lines(&checked, block));
    }
}

#[test]
fn building_a_cfg_twice_gives_the_same_graph() {
    let f = function(vec![
        node(
            "if_expression",
            "if a { return 1 } else { b(); }",
            vec![
                leaf("condition", "a"),
                node("consequence", "{ return 1 }", vec![leaf("return_expression", "return 1")]),
                node("alternative", "{ b(); }", vec![leaf("expression_statement", "b();")]),
            ],
        ),
        leaf("loop_expression", "loop {}"),
    ]);
    let first = build_function_cfg(&f);
    let second = build_function_cfg(&f);
    assert_eq!(first.graph().node_count(), second.graph().node_count());
    assert_eq!(first.graph().edge_count(), second.graph().edge_count());
    assert_eq!(edges(&first), edges(&second));
    for block in 0..first.graph().node_count() {
        assert_eq!(lines(&first, block), lines(&second, block));
    }
}

#[test]
fn checked_walk_agrees_with_plain_walk() {
    let looping = node(
        "for_expression",
        "for x in xs { if x { break } }",
        vec![node(
            "block",
            "{ if x { break } }",
            vec![node(
                "if_expression",
                "if x { break }",
                vec![
                    leaf("condition", "x"),
                    node("consequence", "{ break }", vec![leaf("break_expression", "break")]),
                ],
            )],
        )],
    );
    let mut plain = CfgBuilder::new();
    build_cfg_from_ast(&looping, &mut plain);
    build_cfg_from_ast(&leaf("return_expression", "return"), &mut plain);
    let mut checked = CfgBuilder::new();
    assert!(try_build_cfg_from_ast(&looping, &mut checked));
    assert!(try_build_cfg_from_ast(&leaf("return_expression", "return"), &mut checked));
    assert_eq!(plain.graph().node_count(), checked.graph().node_count());
    assert_eq!(edges(&plain), edges(&checked));
    assert_eq!(plain.current_block(), checked.current_block());
    for block in 0..plain.graph().node_count() {
        assert_eq!(lines(&plain, block), lines(&checked, block));
    }
    // 2 header, 3 body, 4 after, 5 merge, 6 then, 7 after the break, 8 after the return
    assert_eq!(
        edges(&checked),
        vec![(0, 2), (2, 3), (2, 4), (3, 6), (6, 4), (7, 5), (3, 5), (5, 2), (4, 1)]
    );
    assert_eq!(checked.current_block(), 8);
}

#[test]
fn exit_is_reachable_from_entry_without_stray_breaks() {
    let f = function(vec![
        leaf("loop_expression", "loop {}"),
        node(
            "if_expression",
            "if a { return 1 } else { return 2 }",
            vec![
                leaf("condition", "a"),
                node("consequence", "{ return 1 }", vec![leaf("return_expression", "return 1")]),
                node("alternative", "{ return 2 }", vec![leaf("return_expression", "return 2")]),
            ],
        ),
        leaf("expression_statement", "never();"),
    ]);
    let builder = build_function_cfg(&f);
    let all = edges(&builder);
    let mut reached = vec![false; builder.graph().node_count()];
    reached[0] = true;
    let mut changed = true;
    while changed {
        changed = false;
        for (from, to) in &all {
            if reached[*from] && !reached[*to] {
                reached[*to] = true;
                changed = true;
            }
        }
    }
    assert!(reached[1]);
    assert!(all.iter().all(|e| e.1 != 0));
    assert!(all.iter().all(|e| e.0 != 1));
}

#[test]
fn stray_break_can_cut_the_exit_off() {
    let builder = build_function_cfg(&function(vec![leaf("break_expression", "break")]));
    assert_eq!(edges(&builder), vec![(2, 1)]);
}
