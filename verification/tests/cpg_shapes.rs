use petgraph::graph::{EdgeIndex, Graph, NodeIndex};
use petgraph::Directed;
use solana_graphs::cpg_bounds::{cpg_size, try_build_cpg_for_function};
use solana_graphs::cpg_builder::{
    build_cpg_for_function, visit_operand, visit_rvalue, visit_terminator,
};
use solana_graphs::ir::{
    BasicBlockData, Body, Location, Operand, Rvalue, Statement, StatementKind, Terminator,
    TerminatorKind,
};
use solana_graphs::property_graph::{CpgNode, EdgeType};
use std::collections::HashMap;

type Cpg = Graph<CpgNode, EdgeType, Directed, u32>;

fn assign(text: &str, target: u32, rvalue: Rvalue) -> Statement {
    Statement { text: text.to_string(), kind: StatementKind::Assign { target, rvalue } }
}

fn other(text: &str) -> Statement {
    Statement { text: text.to_string(), kind: StatementKind::Other }
}

fn goto(text: &str, successors: Vec<usize>) -> Terminator {
    Terminator { text: text.to_string(), kind: TerminatorKind::Other, successors }
}

fn block(statements: Vec<Statement>, terminator: Terminator) -> BasicBlockData {
    BasicBlockData { statements, terminator }
}

fn edges(cpg: &Cpg) -> Vec<(usize, usize, EdgeType)> {
    (0..cpg.edge_count())
        .map(|k| {
            let (a, b) = cpg.edge_endpoints(EdgeIndex::new(k)).unwrap();
            (a.index(), b.index(), *cpg.edge_weight(EdgeIndex::new(k)).unwrap())
        })
        .collect()
}

fn labels(cpg: &Cpg) -> Vec<String> {
    (0..cpg.node_count()).map(|i| cpg[NodeIndex::new(i)].label.clone()).collect()
}

fn locations(cpg: &Cpg) -> Vec<(usize, usize)> {
    (0..cpg.node_count())
        .map(|i| {
            let l = cpg[NodeIndex::new(i)].location;
            (l.block, l.statement_index)
        })
        .collect()
}

const A: u32 = 1;
const X: u32 = 2;
const Y: u32 = 3;

#[test]
fn straight_line_assignments_chain_their_definitions() {
    let body = Body {
        basic_blocks: vec![block(
            vec![
                assign("x = a", X, Rvalue::Use(Operand::Copy(A))),
                assign("y = x", Y, Rvalue::Use(Operand::Move(X))),
            ],
            Terminator {
                text: "return y".to_string(),
                kind: TerminatorKind::Call { args: vec![Operand::Copy(Y)] },
                successors: vec![],
            },
        )],
    };
    let cpg = build_cpg_for_function(&body);
    assert_eq!(cpg.node_count(), 2 + 1);
    assert_eq!(labels(&cpg), vec!["x = a", "y = x", "return y"]);
    assert_eq!(locations(&cpg), vec![(0, 0), (0, 1), (0, 2)]);
    assert_eq!(edges(&cpg), vec![(0, 1, EdgeType::DataFlow), (1, 2, EdgeType::DataFlow)]);
}

#[test]
fn three_assignments_and_a_plain_return() {
    let body = Body {
        basic_blocks: vec![block(
            vec![
                assign("x = a", X, Rvalue::Use(Operand::Copy(A))),
                assign("y = x", Y, Rvalue::Use(Operand::Copy(X))),
                assign("_0 = y", 0, Rvalue::Use(Operand::Move(Y))),
            ],
            goto("return", vec![]),
        )],
    };
    let cpg = build_cpg_for_function(&body);
    assert_eq!(cpg.node_count(), 3 + 1);
    assert_eq!(edges(&cpg), vec![(0, 1, EdgeType::DataFlow), (1, 2, EdgeType::DataFlow)]);
    assert!(edges(&cpg).iter().all(|e| e.1 != 0));
}

#[test]
fn empty_body_gives_an_empty_graph() {
    let cpg = build_cpg_for_function(&Body { basic_blocks: vec![] });
    assert_eq!(cpg.node_count(), 0);
    assert_eq!(cpg.edge_count(), 0);
}

#[test]
fn every_block_gets_a_terminator_node() {
    let body = Body {
        basic_blocks: vec![
            block(vec![], goto("goto bb1", vec![1])),
            block(vec![other("nop"), other("storage_live(_1)")], goto("goto bb2", vec![2])),
            block(vec![], goto("return", vec![])),
        ],
    };
    let cpg = build_cpg_for_function(&body);
    assert_eq!(labels(&cpg), vec!["goto bb1", "nop", "storage_live(_1)", "goto bb2", "return"]);
    assert_eq!(locations(&cpg), vec![(0, 0), (1, 0), (1, 1), (1, 2), (2, 0)]);
    assert_eq!(edges(&cpg), vec![(0, 1, EdgeType::ControlFlow), (3, 4, EdgeType::ControlFlow)]);
}

#[test]
fn control_flow_reaches_every_successor_in_order() {
    let body = Body {
        basic_blocks: vec![
            block(
                vec![assign("c = a", X, Rvalue::Use(Operand::Copy(A)))],
                Terminator {
                    text: "switch c".to_string(),
                    kind: TerminatorKind::SwitchInt { discr: Operand::Copy(X) },
                    successors: vec![2, 1, 0],
                },
            ),
            block(vec![other("nop")], goto("goto bb2", vec![2])),
            block(vec![], goto("return", vec![])),
        ],
    };
    let cpg = build_cpg_for_function(&body);
    // 0 c = a, 1 switch, 2 nop, 3 goto, 4 return
    assert_eq!(
        edges(&cpg),
        vec![
            (0, 1, EdgeType::DataFlow),
            (1, 4, EdgeType::ControlFlow),
            (1, 2, EdgeType::ControlFlow),
            (1, 0, EdgeType::ControlFlow),
            (3, 4, EdgeType::ControlFlow),
        ]
    );
}

#[test]
fn successor_that_is_no_block_is_skipped() {
    let body = Body {
        basic_blocks: vec![
            block(vec![], goto("goto", vec![7, 1, 2])),
            block(vec![], goto("return", vec![])),
        ],
    };
    let cpg = build_cpg_for_function(&body);
    assert_eq!(edges(&cpg), vec![(0, 1, EdgeType::ControlFlow)]);
}

#[test]
fn binary_operation_reads_both_operands() {
    let body = Body {
        basic_blocks: vec![block(
            vec![
                assign("x = const 1", X, Rvalue::Use(Operand::Constant)),
                assign("y = const 2", Y, Rvalue::Use(Operand::Constant)),
                assign("a = x + y", A, Rvalue::BinaryOp(Operand::Copy(X), Operand::Copy(Y))),
                assign("a = y - x", A, Rvalue::CheckedBinaryOp(Operand::Move(Y), Operand::Move(X))),
                assign("a = x + x", A, Rvalue::BinaryOp(Operand::Copy(X), Operand::Copy(X))),
            ],
            goto("return", vec![]),
        )],
    };
    let cpg = build_cpg_for_function(&body);
    assert_eq!(
        edges(&cpg),
        vec![
            (0, 2, EdgeType::DataFlow),
            (1, 2, EdgeType::DataFlow),
            (1, 3, EdgeType::DataFlow),
            (0, 3, EdgeType::DataFlow),
            (0, 4, EdgeType::DataFlow),
            (0, 4, EdgeType::DataFlow),
        ]
    );
}

#[test]
fn unary_deref_copy_and_aggregate_read_their_operands() {
    let body = Body {
        basic_blocks: vec![block(
            vec![
                assign("x = const", X, Rvalue::Use(Operand::Constant)),
                assign("y = -x", Y, Rvalue::UnaryOp(Operand::Copy(X))),
                assign("a = deref_copy y", A, Rvalue::CopyForDeref(Operand::Copy(Y))),
                assign(
                    "t = (a, 9, x, q)",
                    9,
                    Rvalue::Aggregate(vec![
                        Operand::Move(A),
                        Operand::Constant,
                        Operand::Copy(X),
                        Operand::Copy(77),
                    ]),
                ),
                assign("u = ()", 10, Rvalue::Aggregate(vec![])),
            ],
            goto("return", vec![]),
        )],
    };
    let cpg = build_cpg_for_function(&body);
    assert_eq!(
        edges(&cpg),
        vec![
            (0, 1, EdgeType::DataFlow),
            (1, 2, EdgeType::DataFlow),
            (2, 3, EdgeType::DataFlow),
            (0, 3, EdgeType::DataFlow),
        ]
    );
}

#[test]
fn other_shapes_read_nothing_but_still_define() {
    let body = Body {
        basic_blocks: vec![block(
            vec![
                assign("x = &a", X, Rvalue::Other),
                other("storage_dead(x)"),
                assign("y = x", Y, Rvalue::Use(Operand::Copy(X))),
            ],
            goto("return", vec![]),
        )],
    };
    let cpg = build_cpg_for_function(&body);
    assert_eq!(edges(&cpg), vec![(0, 2, EdgeType::DataFlow)]);
}

#[test]
fn assignment_reads_before_it_writes() {
    let body = Body {
        basic_blocks: vec![block(
            vec![
                assign("x = const 0", X, Rvalue::Use(Operand::Constant)),
                assign("x = x + 1", X, Rvalue::BinaryOp(Operand::Copy(X), Operand::Constant)),
                assign("x = x + 1", X, Rvalue::BinaryOp(Operand::Copy(X), Operand::Constant)),
            ],
            goto("return", vec![]),
        )],
    };
    let cpg = build_cpg_for_function(&body);
    assert_eq!(edges(&cpg), vec![(0, 1, EdgeType::DataFlow), (1, 2, EdgeType::DataFlow)]);
}

#[test]
fn first_use_of_a_variable_defined_by_itself_has_no_edge() {
    let body = Body {
        basic_blocks: vec![block(
            vec![assign("x = x", X, Rvalue::Use(Operand::Copy(X)))],
            goto("return", vec![]),
        )],
    };
    let cpg = build_cpg_for_function(&body);
    assert!(edges(&cpg).is_empty());
}

#[test]
fn last_definition_goes_by_listing_order_not_by_control_flow() {
    // bb0 branches to bb1 and bb2; bb1 assigns x; bb2, its sibling, reads x.
    let body = Body {
        basic_blocks: vec![
            block(
                vec![assign("x = const 0", X, Rvalue::Use(Operand::Constant))],
                goto("switch", vec![1, 2]),
            ),
            block(
                vec![assign("x = const 1", X, Rvalue::Use(Operand::Constant))],
                goto("goto bb3", vec![3]),
            ),
            block(
                vec![assign("y = x", Y, Rvalue::Use(Operand::Copy(X)))],
                goto("goto bb3", vec![3]),
            ),
            block(vec![], goto("return", vec![])),
        ],
    };
    let cpg = build_cpg_for_function(&body);
    // 0 x=0, 1 switch, 2 x=1, 3 goto, 4 y=x, 5 goto, 6 return
    assert_eq!(
        edges(&cpg),
        vec![
            (1, 2, EdgeType::ControlFlow),
            (1, 4, EdgeType::ControlFlow),
            (3, 6, EdgeType::ControlFlow),
            (2, 4, EdgeType::DataFlow),
            (5, 6, EdgeType::ControlFlow),
        ]
    );
}

#[test]
fn call_reads_its_arguments_and_defines_nothing() {
    let body = Body {
        basic_blocks: vec![
            block(
                vec![
                    assign("x = const", X, Rvalue::Use(Operand::Constant)),
                    assign("y = const", Y, Rvalue::Use(Operand::Constant)),
                ],
                Terminator {
                    text: "a = f(y, 1, x, y)".to_string(),
                    kind: TerminatorKind::Call {
                        args: vec![
                            Operand::Copy(Y),
                            Operand::Constant,
                            Operand::Move(X),
                            Operand::Copy(Y),
                        ],
                    },
                    successors: vec![1],
                },
            ),
            block(vec![assign("z = a", 5, Rvalue::Use(Operand::Copy(A)))], goto("return", vec![])),
        ],
    };
    let cpg = build_cpg_for_function(&body);
    assert_eq!(
        edges(&cpg),
        vec![
            (1, 2, EdgeType::DataFlow),
            (0, 2, EdgeType::DataFlow),
            (1, 2, EdgeType::DataFlow),
            (2, 3, EdgeType::ControlFlow),
        ]
    );
}

#[test]
fn loop_edge_goes_back_to_the_first_node_of_the_block() {
    let body = Body {
        basic_blocks: vec![block(
            vec![other("nop"), other("nop")],
            goto("goto bb0", vec![0]),
        )],
    };
    let cpg = build_cpg_for_function(&body);
    assert_eq!(edges(&cpg), vec![(2, 0, EdgeType::ControlFlow)]);
}

fn two_node_graph() -> Cpg {
    let body = Body {
        basic_blocks: vec![block(vec![other("first"), other("second")], goto("end", vec![]))],
    };
    build_cpg_for_function(&body)
}

#[test]
fn visit_operand_links_a_known_definition() {
    let mut cpg = two_node_graph();
    let mut last_def = HashMap::new();
    last_def.insert(X, 0usize);
    visit_operand(&Operand::Copy(X), &last_def, 1, &mut cpg);
    visit_operand(&Operand::Move(X), &last_def, 2, &mut cpg);
    visit_operand(&Operand::Copy(Y), &last_def, 1, &mut cpg);
    visit_operand(&Operand::Constant, &last_def, 1, &mut cpg);
    assert_eq!(edges(&cpg), vec![(0, 1, EdgeType::DataFlow), (0, 2, EdgeType::DataFlow)]);
    assert_eq!(cpg.node_count(), 3);
}

#[test]
fn visit_rvalue_links_every_operand_in_order() {
    let mut cpg = two_node_graph();
    let mut last_def = HashMap::new();
    last_def.insert(X, 0usize);
    last_def.insert(Y, 1usize);
    visit_rvalue(&Rvalue::BinaryOp(Operand::Copy(Y), Operand::Copy(X)), &last_def, 2, &mut cpg);
    visit_rvalue(&Rvalue::Other, &last_def, 2, &mut cpg);
    visit_rvalue(
        &Rvalue::Aggregate(vec![Operand::Copy(X), Operand::Copy(A), Operand::Copy(Y)]),
        &last_def,
        2,
        &mut cpg,
    );
    assert_eq!(
        edges(&cpg),
        vec![
            (1, 2, EdgeType::DataFlow),
            (0, 2, EdgeType::DataFlow),
            (0, 2, EdgeType::DataFlow),
            (1, 2, EdgeType::DataFlow),
        ]
    );
}

#[test]
fn visit_terminator_links_arguments_and_discriminants() {
    let mut cpg = two_node_graph();
    let mut last_def = HashMap::new();
    last_def.insert(X, 0usize);
    let call = Terminator {
        text: "f(x, x)".to_string(),
        kind: TerminatorKind::Call { args: vec![Operand::Copy(X), Operand::Copy(X)] },
        successors: vec![0],
    };
    let switch = Terminator {
        text: "switch x".to_string(),
        kind: TerminatorKind::SwitchInt { discr: Operand::Move(X) },
        successors: vec![0, 0],
    };
    visit_terminator(&call, &last_def, 2, &mut cpg);
    visit_terminator(&switch, &last_def, 1, &mut cpg);
    visit_terminator(&goto("goto", vec![0]), &last_def, 1, &mut cpg);
    assert_eq!(
        edges(&cpg),
        vec![(0, 2, EdgeType::DataFlow), (0, 2, EdgeType::DataFlow), (0, 1, EdgeType::DataFlow)]
    );
}

#[test]
fn edge_kinds_have_short_names() {
    assert_eq!(EdgeType::ControlFlow.label(), "CFG");
    assert_eq!(EdgeType::DataFlow.label(), "DFG");
}

#[test]
fn locations_compare_by_their_fields() {
    let a = Location { block: 1, statement_index: 2 };
    assert_eq!(a, Location { block: 1, statement_index: 2 });
    assert_ne!(a, Location { block: 2, statement_index: 1 });
}

#[test]
fn size_is_counted_without_building() {
    let body = Body {
        basic_blocks: vec![
            block(
                vec![assign("x = a + a", X, Rvalue::BinaryOp(Operand::Copy(A), Operand::Copy(A)))],
                goto("goto", vec![1, 1]),
            ),
            block(vec![], goto("return", vec![])),
        ],
    };
    assert_eq!(cpg_size(&body), Some((3, 2)));
    assert_eq!(cpg_size(&Body { basic_blocks: vec![] }), Some((0, 0)));
    let cpg = try_build_cpg_for_function(&body).expect("a small body fits");
    let plain = build_cpg_for_function(&body);
    assert_eq!(labels(&cpg), labels(&plain));
    assert_eq!(edges(&cpg), edges(&plain));
}

#[test]
fn building_a_cpg_twice_gives_the_same_graph() {
    let body = Body {
        basic_blocks: vec![
            block(
                vec![
                    assign("x = a", X, Rvalue::Use(Operand::Copy(A))),
                    assign("y = x", Y, Rvalue::Use(Operand::Copy(X))),
                ],
                Terminator {
                    text: "switch y".to_string(),
                    kind: TerminatorKind::SwitchInt { discr: Operand::Copy(Y) },
                    successors: vec![1, 0],
                },
            ),
            block(vec![], goto("return", vec![])),
        ],
    };
    let first = build_cpg_for_function(&body);
    let second = build_cpg_for_function(&body);
    assert_eq!(first.node_count(), second.node_count());
    assert_eq!(first.edge_count(), second.edge_count());
    assert_eq!(edges(&first), edges(&second));
    assert_eq!(labels(&first), labels(&second));
    assert_eq!(locations(&first), locations(&second));
}

#[test]
fn size_agrees_with_the_graph_built() {
    let body = Body {
        basic_blocks: vec![
            block(
                vec![
                    assign("x = const", X, Rvalue::Use(Operand::Constant)),
                    assign("y = x + x", Y, Rvalue::BinaryOp(Operand::Copy(X), Operand::Copy(X))),
                    other("nop"),
                    assign(
                        "a = (x, y, q)",
                        A,
                        Rvalue::Aggregate(vec![
                            Operand::Copy(X),
                            Operand::Move(Y),
                            Operand::Copy(77),
                        ]),
                    ),
                ],
                Terminator {
                    text: "f(a, x)".to_string(),
                    kind: TerminatorKind::Call { args: vec![Operand::Move(A), Operand::Copy(X)] },
                    successors: vec![1, 5, 0],
                },
            ),
            block(
                vec![assign("x = y", X, Rvalue::UnaryOp(Operand::Copy(Y)))],
                Terminator {
                    text: "switch x".to_string(),
                    kind: TerminatorKind::SwitchInt { discr: Operand::Copy(X) },
                    successors: vec![0, 1],
                },
            ),
        ],
    };
    let cpg = build_cpg_for_function(&body);
    assert_eq!(cpg_size(&body), Some((cpg.node_count() as u32, cpg.edge_count() as u32)));
    assert_eq!(cpg.node_count(), 7);
    assert_eq!(cpg.edge_count(), 2 + 2 + 2 + 2 + 1 + 1 + 2);
}
