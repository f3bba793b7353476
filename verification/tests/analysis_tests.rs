use flowgraph::analysis::analyze;
use flowgraph::cfg::build_cfg;
use flowgraph::cfg::BasicBlock;
use flowgraph::cfg::ControlFlowGraph;
use flowgraph::cfg::Terminator;
use flowgraph::errors::AnalysisError;
use flowgraph::extract::tree_functions;
use flowgraph::extract::Parameter;
use flowgraph::tree::check_wf;
use flowgraph::tree::FieldTag;
use flowgraph::tree::NodeKind;
use flowgraph::tree::SyntaxNode;
use flowgraph::tree::SyntaxTree;
use flowgraph::walker::tree_nodes;
use flowgraph::walker::TreeWalker;

fn node(
    kind: NodeKind,
    field: FieldTag,
    text: &str,
    parent: Option<usize>,
    child_index: usize,
    children: Vec<usize>,
) -> SyntaxNode {
    SyntaxNode {
        kind,
        span_start: 0,
        span_end: 0,
        text: text.to_string(),
        field,
        parent,
        child_index,
        children,
    }
}

/// A module holding one function `f` without parameters whose body has the
/// given statement subtree layout appended after the fixed prefix
/// (0 module, 1 function, 2 name, 3 parameters, 4 body block).
fn fn_prefix(body_children: Vec<usize>) -> Vec<SyntaxNode> {
    vec![
        node(NodeKind::Module, FieldTag::Unnamed, "", None, 0, vec![1]),
        node(
            NodeKind::FunctionDefinition,
            FieldTag::Unnamed,
            "",
            Some(0),
            0,
            vec![2, 3, 4],
        ),
        node(NodeKind::Identifier, FieldTag::Name, "f", Some(1), 0, vec![]),
        node(NodeKind::Parameters, FieldTag::Parameters, "", Some(1), 1, vec![]),
        node(NodeKind::Block, FieldTag::Body, "", Some(1), 2, body_children),
    ]
}

#[test]
fn walker_visits_in_depth_first_prefix_order() {
    // 0 -> [1, 2], 1 -> [3]: prefix order is 0, 1, 3, 2, not index order.
    let t = SyntaxTree {
        nodes: vec![
            node(NodeKind::Module, FieldTag::Unnamed, "", None, 0, vec![1, 2]),
            node(NodeKind::Other("a".to_string()), FieldTag::Unnamed, "", Some(0), 0, vec![3]),
            node(NodeKind::Other("b".to_string()), FieldTag::Unnamed, "", Some(0), 1, vec![]),
            node(NodeKind::Other("c".to_string()), FieldTag::Unnamed, "", Some(1), 0, vec![]),
        ],
    };
    assert!(check_wf(&t));
    assert_eq!(tree_nodes(&t), vec![0, 1, 3, 2]);
}

#[test]
fn walker_single_node_tree() {
    let t = SyntaxTree {
        nodes: vec![node(NodeKind::Module, FieldTag::Unnamed, "", None, 0, vec![])],
    };
    assert!(check_wf(&t));
    assert_eq!(tree_nodes(&t), vec![0]);
}

#[test]
fn walker_pulls_then_exhausts() {
    let t = SyntaxTree {
        nodes: vec![
            node(NodeKind::Module, FieldTag::Unnamed, "", None, 0, vec![1]),
            node(NodeKind::Other("x".to_string()), FieldTag::Unnamed, "", Some(0), 0, vec![]),
        ],
    };
    assert!(check_wf(&t));
    let mut w = TreeWalker::new(&t);
    assert_eq!(w.next(&t), Some(0));
    assert_eq!(w.next(&t), Some(1));
    assert_eq!(w.next(&t), None);
    assert_eq!(w.next(&t), None);
}

#[test]
fn check_wf_rejects_empty_tree() {
    let t = SyntaxTree { nodes: vec![] };
    assert!(!check_wf(&t));
}

#[test]
fn check_wf_rejects_inconsistent_parent() {
    // Node 1 claims child 2 but node 2 points back at node 0.
    let t = SyntaxTree {
        nodes: vec![
            node(NodeKind::Module, FieldTag::Unnamed, "", None, 0, vec![1]),
            node(NodeKind::Block, FieldTag::Unnamed, "", Some(0), 0, vec![2]),
            node(NodeKind::Block, FieldTag::Unnamed, "", Some(0), 0, vec![]),
        ],
    };
    assert!(!check_wf(&t));
}

#[test]
fn extract_finds_name_params_and_body() {
    let t = SyntaxTree {
        nodes: vec![
            node(NodeKind::Module, FieldTag::Unnamed, "", None, 0, vec![1]),
            node(
                NodeKind::FunctionDefinition,
                FieldTag::Unnamed,
                "",
                Some(0),
                0,
                vec![2, 3, 6],
            ),
            node(NodeKind::Identifier, FieldTag::Name, "add", Some(1), 0, vec![]),
            node(NodeKind::Parameters, FieldTag::Parameters, "", Some(1), 1, vec![4, 5]),
            node(NodeKind::Identifier, FieldTag::Unnamed, "a", Some(3), 0, vec![]),
            node(NodeKind::Identifier, FieldTag::Unnamed, "b", Some(3), 1, vec![]),
            node(NodeKind::Block, FieldTag::Body, "", Some(1), 2, vec![]),
        ],
    };
    assert!(check_wf(&t));
    let (defs, fails) = tree_functions(&t);
    assert_eq!(fails.len(), 0);
    assert_eq!(defs.len(), 1);
    assert_eq!(defs[0].name, "add");
    assert_eq!(
        defs[0].params,
        vec![Parameter::Ident("a".to_string()), Parameter::Ident("b".to_string())]
    );
    assert_eq!(defs[0].body, 6);
}

#[test]
fn extract_reports_malformed_function() {
    // The body named child is missing.
    let t = SyntaxTree {
        nodes: vec![
            node(NodeKind::Module, FieldTag::Unnamed, "", None, 0, vec![1]),
            node(NodeKind::FunctionDefinition, FieldTag::Unnamed, "", Some(0), 0, vec![2, 3]),
            node(NodeKind::Identifier, FieldTag::Name, "f", Some(1), 0, vec![]),
            node(NodeKind::Parameters, FieldTag::Parameters, "", Some(1), 1, vec![]),
        ],
    };
    assert!(check_wf(&t));
    let (defs, fails) = tree_functions(&t);
    assert_eq!(defs.len(), 0);
    assert_eq!(fails.len(), 1);
    assert_eq!(fails[0].node, 1);
    assert_eq!(fails[0].error, AnalysisError::MalformedFunction);
}

#[test]
fn extract_reports_unsupported_parameter() {
    let t = SyntaxTree {
        nodes: vec![
            node(NodeKind::Module, FieldTag::Unnamed, "", None, 0, vec![1]),
            node(
                NodeKind::FunctionDefinition,
                FieldTag::Unnamed,
                "",
                Some(0),
                0,
                vec![2, 3, 5],
            ),
            node(NodeKind::Identifier, FieldTag::Name, "f", Some(1), 0, vec![]),
            node(NodeKind::Parameters, FieldTag::Parameters, "", Some(1), 1, vec![4]),
            node(
                NodeKind::Other("default_parameter".to_string()),
                FieldTag::Unnamed,
                "x=1",
                Some(3),
                0,
                vec![],
            ),
            node(NodeKind::Block, FieldTag::Body, "", Some(1), 2, vec![]),
        ],
    };
    assert!(check_wf(&t));
    let (defs, fails) = tree_functions(&t);
    assert_eq!(defs.len(), 0);
    assert_eq!(fails.len(), 1);
    assert_eq!(
        fails[0].error,
        AnalysisError::UnsupportedParameterSyntax {
            kind: NodeKind::Other("default_parameter".to_string())
        }
    );
}

#[test]
fn cfg_straight_line_function_is_one_block() {
    // x = 1; y = 2; return x + y
    let mut nodes = fn_prefix(vec![5, 6, 7]);
    nodes.push(node(NodeKind::ExpressionStatement, FieldTag::Unnamed, "x = 1", Some(4), 0, vec![]));
    nodes.push(node(NodeKind::ExpressionStatement, FieldTag::Unnamed, "y = 2", Some(4), 1, vec![]));
    nodes.push(node(NodeKind::ReturnStatement, FieldTag::Unnamed, "", Some(4), 2, vec![8]));
    nodes.push(node(
        NodeKind::Other("binary_operator".to_string()),
        FieldTag::Unnamed,
        "x + y",
        Some(7),
        0,
        vec![],
    ));
    let t = SyntaxTree { nodes };
    assert!(check_wf(&t));
    let (g, diags) = build_cfg(&t, 4).unwrap();
    assert_eq!(diags, Vec::<usize>::new());
    assert_eq!(g.entry, 0);
    assert_eq!(
        g.blocks,
        vec![BasicBlock {
            id: 0,
            statements: vec![5, 6, 7],
            terminator: Terminator::Return { value: Some(8) },
        }]
    );
}

#[test]
fn cfg_simple_conditional_has_no_merge() {
    // if cond: return 1
    // return 2
    let mut nodes = fn_prefix(vec![5, 10]);
    nodes.push(node(NodeKind::IfStatement, FieldTag::Unnamed, "", Some(4), 0, vec![6, 7]));
    nodes.push(node(NodeKind::Identifier, FieldTag::Condition, "cond", Some(5), 0, vec![]));
    nodes.push(node(NodeKind::Block, FieldTag::Consequence, "", Some(5), 1, vec![8]));
    nodes.push(node(NodeKind::ReturnStatement, FieldTag::Unnamed, "", Some(7), 0, vec![9]));
    nodes.push(node(NodeKind::Other("integer".to_string()), FieldTag::Unnamed, "1", Some(8), 0, vec![]));
    nodes.push(node(NodeKind::ReturnStatement, FieldTag::Unnamed, "", Some(4), 1, vec![11]));
    nodes.push(node(NodeKind::Other("integer".to_string()), FieldTag::Unnamed, "2", Some(10), 0, vec![]));
    let t = SyntaxTree { nodes };
    assert!(check_wf(&t));
    let (g, diags) = build_cfg(&t, 4).unwrap();
    assert_eq!(diags, Vec::<usize>::new());
    assert_eq!(
        g.blocks,
        vec![
            BasicBlock {
                id: 0,
                statements: vec![],
                terminator: Terminator::Branch { cond: 6, then_target: 1, else_target: 2 },
            },
            BasicBlock {
                id: 1,
                statements: vec![8],
                terminator: Terminator::Return { value: Some(9) },
            },
            BasicBlock {
                id: 2,
                statements: vec![10],
                terminator: Terminator::Return { value: Some(11) },
            },
        ]
    );
}

#[test]
fn cfg_if_else_merges_open_arms() {
    // if cond: x = 1
    // else: y = 2
    // z = 3
    let mut nodes = fn_prefix(vec![5, 12]);
    nodes.push(node(NodeKind::IfStatement, FieldTag::Unnamed, "", Some(4), 0, vec![6, 7, 9]));
    nodes.push(node(NodeKind::Identifier, FieldTag::Condition, "cond", Some(5), 0, vec![]));
    nodes.push(node(NodeKind::Block, FieldTag::Consequence, "", Some(5), 1, vec![8]));
    nodes.push(node(NodeKind::ExpressionStatement, FieldTag::Unnamed, "x = 1", Some(7), 0, vec![]));
    nodes.push(node(NodeKind::ElseClause, FieldTag::Alternative, "", Some(5), 2, vec![10]));
    nodes.push(node(NodeKind::Block, FieldTag::Body, "", Some(9), 0, vec![11]));
    nodes.push(node(NodeKind::ExpressionStatement, FieldTag::Unnamed, "y = 2", Some(10), 0, vec![]));
    nodes.push(node(NodeKind::ExpressionStatement, FieldTag::Unnamed, "z = 3", Some(4), 1, vec![]));
    let t = SyntaxTree { nodes };
    assert!(check_wf(&t));
    let (g, diags) = build_cfg(&t, 4).unwrap();
    assert_eq!(diags, Vec::<usize>::new());
    assert_eq!(
        g.blocks,
        vec![
            BasicBlock {
                id: 0,
                statements: vec![],
                terminator: Terminator::Branch { cond: 6, then_target: 1, else_target: 2 },
            },
            BasicBlock {
                id: 1,
                statements: vec![8],
                terminator: Terminator::Fallthrough { target: 3 },
            },
            BasicBlock {
                id: 2,
                statements: vec![11],
                terminator: Terminator::Fallthrough { target: 3 },
            },
            BasicBlock { id: 3, statements: vec![12], terminator: Terminator::Unreachable },
        ]
    );
}

#[test]
fn cfg_loop_with_break() {
    // while cond:
    //     if x: break
    //     y = y + 1
    // return y
    let mut nodes = fn_prefix(vec![5, 13]);
    nodes.push(node(NodeKind::WhileStatement, FieldTag::Unnamed, "", Some(4), 0, vec![6, 7]));
    nodes.push(node(NodeKind::Identifier, FieldTag::Condition, "cond", Some(5), 0, vec![]));
    nodes.push(node(NodeKind::Block, FieldTag::Body, "", Some(5), 1, vec![8, 12]));
    nodes.push(node(NodeKind::IfStatement, FieldTag::Unnamed, "", Some(7), 0, vec![9, 10]));
    nodes.push(node(NodeKind::Identifier, FieldTag::Condition, "x", Some(8), 0, vec![]));
    nodes.push(node(NodeKind::Block, FieldTag::Consequence, "", Some(8), 1, vec![11]));
    nodes.push(node(NodeKind::BreakStatement, FieldTag::Unnamed, "break", Some(10), 0, vec![]));
    nodes.push(node(
        NodeKind::ExpressionStatement,
        FieldTag::Unnamed,
        "y = y + 1",
        Some(7),
        1,
        vec![],
    ));
    nodes.push(node(NodeKind::ReturnStatement, FieldTag::Unnamed, "", Some(4), 1, vec![14]));
    nodes.push(node(NodeKind::Identifier, FieldTag::Unnamed, "y", Some(13), 0, vec![]));
    let t = SyntaxTree { nodes };
    assert!(check_wf(&t));
    let (g, diags) = build_cfg(&t, 4).unwrap();
    assert_eq!(diags, Vec::<usize>::new());
    assert_eq!(
        g.blocks,
        vec![
            BasicBlock { id: 0, statements: vec![], terminator: Terminator::Jump { target: 1 } },
            BasicBlock {
                id: 1,
                statements: vec![],
                terminator: Terminator::Branch { cond: 6, then_target: 2, else_target: 3 },
            },
            BasicBlock {
                id: 2,
                statements: vec![],
                terminator: Terminator::Branch { cond: 9, then_target: 4, else_target: 5 },
            },
            BasicBlock {
                id: 3,
                statements: vec![13],
                terminator: Terminator::Return { value: Some(14) },
            },
            BasicBlock {
                id: 4,
                statements: vec![11],
                terminator: Terminator::Jump { target: 3 },
            },
            BasicBlock {
                id: 5,
                statements: vec![12],
                terminator: Terminator::Jump { target: 1 },
            },
        ]
    );
}

#[test]
fn cfg_empty_loop_body_jumps_straight_back() {
    // while cond: pass-less empty body, then nothing
    let mut nodes = fn_prefix(vec![5]);
    nodes.push(node(NodeKind::WhileStatement, FieldTag::Unnamed, "", Some(4), 0, vec![6, 7]));
    nodes.push(node(NodeKind::Identifier, FieldTag::Condition, "cond", Some(5), 0, vec![]));
    nodes.push(node(NodeKind::Block, FieldTag::Body, "", Some(5), 1, vec![]));
    let t = SyntaxTree { nodes };
    assert!(check_wf(&t));
    let (g, _diags) = build_cfg(&t, 4).unwrap();
    assert_eq!(
        g.blocks,
        vec![
            BasicBlock { id: 0, statements: vec![], terminator: Terminator::Jump { target: 1 } },
            BasicBlock {
                id: 1,
                statements: vec![],
                terminator: Terminator::Branch { cond: 6, then_target: 2, else_target: 3 },
            },
            BasicBlock { id: 2, statements: vec![], terminator: Terminator::Jump { target: 1 } },
            BasicBlock { id: 3, statements: vec![], terminator: Terminator::Unreachable },
        ]
    );
}

#[test]
fn cfg_continue_jumps_to_header() {
    // while cond: continue
    let mut nodes = fn_prefix(vec![5]);
    nodes.push(node(NodeKind::WhileStatement, FieldTag::Unnamed, "", Some(4), 0, vec![6, 7]));
    nodes.push(node(NodeKind::Identifier, FieldTag::Condition, "cond", Some(5), 0, vec![]));
    nodes.push(node(NodeKind::Block, FieldTag::Body, "", Some(5), 1, vec![8]));
    nodes.push(node(NodeKind::ContinueStatement, FieldTag::Unnamed, "continue", Some(7), 0, vec![]));
    let t = SyntaxTree { nodes };
    assert!(check_wf(&t));
    let (g, _diags) = build_cfg(&t, 4).unwrap();
    assert_eq!(g.blocks[2].statements, vec![8]);
    assert_eq!(g.blocks[2].terminator, Terminator::Jump { target: 1 });
}

#[test]
fn cfg_statements_after_return_are_diagnosed() {
    // return x
    // y = 1
    let mut nodes = fn_prefix(vec![5, 7]);
    nodes.push(node(NodeKind::ReturnStatement, FieldTag::Unnamed, "", Some(4), 0, vec![6]));
    nodes.push(node(NodeKind::Identifier, FieldTag::Unnamed, "x", Some(5), 0, vec![]));
    nodes.push(node(NodeKind::ExpressionStatement, FieldTag::Unnamed, "y = 1", Some(4), 1, vec![]));
    let t = SyntaxTree { nodes };
    assert!(check_wf(&t));
    let (g, diags) = build_cfg(&t, 4).unwrap();
    assert_eq!(diags, vec![7]);
    assert_eq!(
        g.blocks,
        vec![
            BasicBlock {
                id: 0,
                statements: vec![5],
                terminator: Terminator::Return { value: Some(6) },
            },
            BasicBlock { id: 1, statements: vec![7], terminator: Terminator::Unreachable },
        ]
    );
    // the recorded block is present but has no predecessors
    assert_eq!(g.predecessors(1), Vec::<usize>::new());
}

#[test]
fn cfg_rejects_unknown_statement_kind() {
    let mut nodes = fn_prefix(vec![5]);
    nodes.push(node(
        NodeKind::Other("import_statement".to_string()),
        FieldTag::Unnamed,
        "import os",
        Some(4),
        0,
        vec![],
    ));
    let t = SyntaxTree { nodes };
    assert!(check_wf(&t));
    let err = build_cfg(&t, 4).unwrap_err();
    assert_eq!(
        err,
        AnalysisError::UnsupportedStatement {
            kind: NodeKind::Other("import_statement".to_string())
        }
    );
}

#[test]
fn cfg_rejects_break_outside_loop() {
    let mut nodes = fn_prefix(vec![5]);
    nodes.push(node(NodeKind::BreakStatement, FieldTag::Unnamed, "break", Some(4), 0, vec![]));
    let t = SyntaxTree { nodes };
    assert!(check_wf(&t));
    let err = build_cfg(&t, 4).unwrap_err();
    assert_eq!(err, AnalysisError::UnsupportedStatement { kind: NodeKind::BreakStatement });
}

#[test]
fn graph_accessors_follow_the_edge_set() {
    let mut nodes = fn_prefix(vec![5, 10]);
    nodes.push(node(NodeKind::IfStatement, FieldTag::Unnamed, "", Some(4), 0, vec![6, 7]));
    nodes.push(node(NodeKind::Identifier, FieldTag::Condition, "cond", Some(5), 0, vec![]));
    nodes.push(node(NodeKind::Block, FieldTag::Consequence, "", Some(5), 1, vec![8]));
    nodes.push(node(NodeKind::ReturnStatement, FieldTag::Unnamed, "", Some(7), 0, vec![9]));
    nodes.push(node(NodeKind::Other("integer".to_string()), FieldTag::Unnamed, "1", Some(8), 0, vec![]));
    nodes.push(node(NodeKind::ReturnStatement, FieldTag::Unnamed, "", Some(4), 1, vec![11]));
    nodes.push(node(NodeKind::Other("integer".to_string()), FieldTag::Unnamed, "2", Some(10), 0, vec![]));
    let t = SyntaxTree { nodes };
    assert!(check_wf(&t));
    let (g, _diags) = build_cfg(&t, 4).unwrap();
    assert_eq!(g.successors(0), vec![1, 2]);
    assert_eq!(g.successors(1), Vec::<usize>::new());
    assert_eq!(g.predecessors(0), Vec::<usize>::new());
    assert_eq!(g.predecessors(1), vec![0]);
    assert_eq!(g.predecessors(2), vec![0]);
    assert!(g.check_valid());
}

#[test]
fn check_valid_rejects_dangling_edge() {
    let g = ControlFlowGraph {
        entry: 0,
        blocks: vec![BasicBlock {
            id: 0,
            statements: vec![],
            terminator: Terminator::Jump { target: 7 },
        }],
    };
    assert!(!g.check_valid());
}

#[test]
fn analyze_keeps_going_past_a_bad_function() {
    // One sound function and one whose body holds an unknown statement.
    let t = SyntaxTree {
        nodes: vec![
            node(NodeKind::Module, FieldTag::Unnamed, "", None, 0, vec![1, 6]),
            node(
                NodeKind::FunctionDefinition,
                FieldTag::Unnamed,
                "",
                Some(0),
                0,
                vec![2, 3, 4],
            ),
            node(NodeKind::Identifier, FieldTag::Name, "good", Some(1), 0, vec![]),
            node(NodeKind::Parameters, FieldTag::Parameters, "", Some(1), 1, vec![]),
            node(NodeKind::Block, FieldTag::Body, "", Some(1), 2, vec![5]),
            node(NodeKind::PassStatement, FieldTag::Unnamed, "pass", Some(4), 0, vec![]),
            node(
                NodeKind::FunctionDefinition,
                FieldTag::Unnamed,
                "",
                Some(0),
                1,
                vec![7, 8, 9],
            ),
            node(NodeKind::Identifier, FieldTag::Name, "bad", Some(6), 0, vec![]),
            node(NodeKind::Parameters, FieldTag::Parameters, "", Some(6), 1, vec![]),
            node(NodeKind::Block, FieldTag::Body, "", Some(6), 2, vec![10]),
            node(
                NodeKind::Other("global_statement".to_string()),
                FieldTag::Unnamed,
                "global g",
                Some(9),
                0,
                vec![],
            ),
        ],
    };
    assert!(check_wf(&t));
    let (ok, failed) = analyze(&t);
    assert_eq!(ok.len(), 1);
    assert_eq!(ok[0].def.name, "good");
    assert_eq!(ok[0].cfg.entry, 0);
    assert_eq!(ok[0].cfg.blocks.len(), 1);
    assert_eq!(failed.len(), 1);
    assert_eq!(failed[0].node, 9);
    assert_eq!(
        failed[0].error,
        AnalysisError::UnsupportedStatement {
            kind: NodeKind::Other("global_statement".to_string())
        }
    );
}

#[test]
fn analyze_extracts_nested_function_and_treats_it_as_a_statement() {
    // def outer(): def inner(): pass
    let t = SyntaxTree {
        nodes: vec![
            node(NodeKind::Module, FieldTag::Unnamed, "", None, 0, vec![1]),
            node(
                NodeKind::FunctionDefinition,
                FieldTag::Unnamed,
                "",
                Some(0),
                0,
                vec![2, 3, 4],
            ),
            node(NodeKind::Identifier, FieldTag::Name, "outer", Some(1), 0, vec![]),
            node(NodeKind::Parameters, FieldTag::Parameters, "", Some(1), 1, vec![]),
            node(NodeKind::Block, FieldTag::Body, "", Some(1), 2, vec![5]),
            node(
                NodeKind::FunctionDefinition,
                FieldTag::Unnamed,
                "",
                Some(4),
                0,
                vec![6, 7, 8],
            ),
            node(NodeKind::Identifier, FieldTag::Name, "inner", Some(5), 0, vec![]),
            node(NodeKind::Parameters, FieldTag::Parameters, "", Some(5), 1, vec![]),
            node(NodeKind::Block, FieldTag::Body, "", Some(5), 2, vec![9]),
            node(NodeKind::PassStatement, FieldTag::Unnamed, "pass", Some(8), 0, vec![]),
        ],
    };
    assert!(check_wf(&t));
    let (ok, failed) = analyze(&t);
    assert_eq!(failed.len(), 0);
    assert_eq!(ok.len(), 2);
    assert_eq!(ok[0].def.name, "outer");
    assert_eq!(ok[1].def.name, "inner");
    // inner's definition is one straight-line statement of outer's graph
    assert_eq!(ok[0].cfg.blocks.len(), 1);
    assert_eq!(ok[0].cfg.blocks[0].statements, vec![5]);
}

#[test]
fn cfg_reports_traversal_limit_on_pathological_nesting() {
    // 150 nested while loops: deeper than the builder's defensive bound.
    let levels = 150usize;
    let mut nodes = fn_prefix(vec![5]);
    for level in 0..levels {
        let w = 5 + 3 * level;
        let parent = if level == 0 { 4 } else { w - 1 };
        let body_children = if level + 1 < levels { vec![w + 3] } else { vec![] };
        nodes.push(node(NodeKind::WhileStatement, FieldTag::Unnamed, "", Some(parent), 0, vec![
            w + 1,
            w + 2,
        ]));
        nodes.push(node(NodeKind::Identifier, FieldTag::Condition, "cond", Some(w), 0, vec![]));
        nodes.push(node(NodeKind::Block, FieldTag::Body, "", Some(w), 1, body_children));
    }
    let t = SyntaxTree { nodes };
    assert!(check_wf(&t));
    let err = build_cfg(&t, 4).unwrap_err();
    assert_eq!(err, AnalysisError::TraversalLimitExceeded);
}
