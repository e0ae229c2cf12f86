use kre8ntemjs_core::ast::{
    char_index, collect_statement_nodes, insert_at_node, record, width_of, JsAst, NodeKind,
    SyntaxNode, SyntaxTree,
};

fn node(kind: NodeKind, start: usize, end: usize, parent: Option<usize>) -> SyntaxNode {
    SyntaxNode { kind, start_byte: start, end_byte: end, parent, defines: false }
}

#[test]
fn kinds_by_name() {
    assert_eq!(NodeKind::from_name("number"), NodeKind::Number);
    assert_eq!(NodeKind::from_name("identifier"), NodeKind::Identifier);
    assert_eq!(NodeKind::from_name("variable_declarator"), NodeKind::VariableDeclarator);
    assert_eq!(NodeKind::from_name("function_declaration"), NodeKind::FunctionDeclaration);
    assert_eq!(NodeKind::from_name("class_declaration"), NodeKind::ClassDeclaration);
    assert_eq!(NodeKind::from_name("assignment_expression"), NodeKind::AssignmentExpression);
    assert_eq!(NodeKind::from_name("statement_block"), NodeKind::StatementBlock);
    assert_eq!(NodeKind::from_name("variable_declaration"), NodeKind::VariableDeclaration);
    assert_eq!(NodeKind::from_name("lexical_declaration"), NodeKind::LexicalDeclaration);
    assert_eq!(NodeKind::from_name("expression_statement"), NodeKind::ExpressionStatement);
    assert_eq!(NodeKind::from_name("if_statement"), NodeKind::IfStatement);
    assert_eq!(NodeKind::from_name("for_statement"), NodeKind::ForStatement);
    assert_eq!(NodeKind::from_name("for_in_statement"), NodeKind::ForInStatement);
    assert_eq!(NodeKind::from_name("for_of_statement"), NodeKind::ForOfStatement);
    assert_eq!(NodeKind::from_name("while_statement"), NodeKind::WhileStatement);
    assert_eq!(NodeKind::from_name("do_statement"), NodeKind::DoStatement);
    assert_eq!(NodeKind::from_name("return_statement"), NodeKind::ReturnStatement);
    assert_eq!(NodeKind::from_name("throw_statement"), NodeKind::ThrowStatement);
    assert_eq!(NodeKind::from_name("try_statement"), NodeKind::TryStatement);
    assert_eq!(NodeKind::from_name("program"), NodeKind::Other);
    assert_eq!(NodeKind::from_name(""), NodeKind::Other);
    assert_eq!(NodeKind::from_name("Number"), NodeKind::Other);
}

#[test]
fn statement_kinds() {
    for k in [
        NodeKind::StatementBlock,
        NodeKind::VariableDeclaration,
        NodeKind::LexicalDeclaration,
        NodeKind::ExpressionStatement,
        NodeKind::IfStatement,
        NodeKind::ForStatement,
        NodeKind::ForInStatement,
        NodeKind::ForOfStatement,
        NodeKind::WhileStatement,
        NodeKind::DoStatement,
        NodeKind::ReturnStatement,
        NodeKind::ThrowStatement,
        NodeKind::TryStatement,
        NodeKind::FunctionDeclaration,
        NodeKind::ClassDeclaration,
    ] {
        assert!(k.is_statement(), "{:?}", k);
    }
    for k in [
        NodeKind::Number,
        NodeKind::Identifier,
        NodeKind::VariableDeclarator,
        NodeKind::AssignmentExpression,
        NodeKind::Other,
    ] {
        assert!(!k.is_statement(), "{:?}", k);
    }
    assert!(NodeKind::VariableDeclarator.is_naming());
    assert!(NodeKind::FunctionDeclaration.is_naming());
    assert!(NodeKind::ClassDeclaration.is_naming());
    assert!(!NodeKind::AssignmentExpression.is_naming());
    assert!(!NodeKind::LexicalDeclaration.is_naming());
}

#[test]
fn from_nodes_checks_the_shape() {
    assert!(SyntaxTree::from_nodes(Vec::new()).is_none());
    assert!(SyntaxTree::from_nodes(vec![node(NodeKind::Other, 0, 3, None)]).is_some());
    assert!(SyntaxTree::from_nodes(vec![node(NodeKind::Other, 0, 3, Some(0))]).is_none());
    assert!(SyntaxTree::from_nodes(vec![
        node(NodeKind::Other, 0, 3, None),
        node(NodeKind::Number, 0, 1, Some(0)),
        node(NodeKind::Number, 2, 3, Some(1)),
    ])
    .is_some());
    assert!(SyntaxTree::from_nodes(vec![
        node(NodeKind::Other, 0, 3, None),
        node(NodeKind::Number, 0, 1, Some(1)),
    ])
    .is_none());
    assert!(SyntaxTree::from_nodes(vec![
        node(NodeKind::Other, 0, 3, None),
        node(NodeKind::Number, 0, 1, Some(2)),
        node(NodeKind::Number, 0, 1, Some(0)),
    ])
    .is_none());
}

#[test]
fn parse_records_a_tree() {
    let mut js = JsAst::default();
    let src = "let x = 1;\nfoo();";
    let tree = js.parse(src).expect("a tree");
    assert!(tree.nodes.len() > 5);
    assert_eq!(tree.nodes[0].parent, None);
    assert_eq!(tree.nodes[0].start_byte, 0);
    assert_eq!(tree.nodes[0].end_byte, src.len());
    assert_eq!(tree.nodes[0].kind, NodeKind::Other);
    for (i, n) in tree.nodes.iter().enumerate().skip(1) {
        let p = n.parent.expect("a parent");
        assert!(p < i);
        assert!(n.start_byte <= n.end_byte);
        assert!(tree.nodes[p].start_byte <= n.start_byte);
        assert!(n.end_byte <= tree.nodes[p].end_byte);
    }
    let numbers: Vec<&SyntaxNode> =
        tree.nodes.iter().filter(|n| n.kind == NodeKind::Number).collect();
    assert_eq!(numbers.len(), 1);
    assert_eq!(&src[numbers[0].start_byte..numbers[0].end_byte], "1");
    let names: Vec<&str> = tree
        .nodes
        .iter()
        .filter(|n| n.kind == NodeKind::Identifier)
        .map(|n| &src[n.start_byte..n.end_byte])
        .collect();
    assert_eq!(names, vec!["foo", "x"]);
    let defining: Vec<&str> =
        tree.nodes.iter().filter(|n| n.defines).map(|n| &src[n.start_byte..n.end_byte]).collect();
    assert_eq!(defining, vec!["x"]);
}

#[test]
fn parse_marks_what_is_defined() {
    let mut js = JsAst::default();
    let src = "function f(a) { a = 1; }\nclass C {}\nvar v = f;";
    let tree = js.parse(src).expect("a tree");
    let mut defining: Vec<&str> =
        tree.nodes.iter().filter(|n| n.defines).map(|n| &src[n.start_byte..n.end_byte]).collect();
    defining.sort();
    assert_eq!(defining, vec!["C", "a", "f", "v"]);
}

#[test]
fn parser_can_be_used_again() {
    let mut js = JsAst::default();
    let a = js.parse("1;").expect("a tree");
    let b = js.parse("let y = 2; let z = 3;").expect("a tree");
    assert!(a.nodes.len() < b.nodes.len());
    assert!(js.parse("").is_some());
}

#[test]
fn statement_nodes_in_walk_order() {
    let mut js = JsAst::default();
    let src = "let x = 1;\nfoo();";
    let tree = js.parse(src).expect("a tree");
    let points = collect_statement_nodes(&tree, src);
    let got: Vec<(NodeKind, usize)> = points.iter().map(|n| (n.kind, n.start_byte)).collect();
    assert_eq!(got, vec![(NodeKind::ExpressionStatement, 11), (NodeKind::LexicalDeclaration, 0)]);
}

#[test]
fn statement_nodes_nested() {
    let mut js = JsAst::default();
    let src = "if (a) { return 1; } else { while (b) { throw c; } }";
    let tree = js.parse(src).expect("a tree");
    let points = collect_statement_nodes(&tree, src);
    let mut kinds: Vec<String> = points.iter().map(|n| format!("{:?}", n.kind)).collect();
    kinds.sort();
    assert_eq!(
        kinds,
        vec![
            "IfStatement",
            "ReturnStatement",
            "StatementBlock",
            "StatementBlock",
            "StatementBlock",
            "ThrowStatement",
            "WhileStatement"
        ]
    );
}

#[test]
fn statement_nodes_fall_back_to_the_root() {
    let mut js = JsAst::default();
    let tree = js.parse("").expect("a tree");
    let points = collect_statement_nodes(&tree, "");
    assert_eq!(points.len(), 1);
    assert_eq!(points[0].parent, None);
    assert_eq!(points[0].start_byte, 0);
}

#[test]
fn statement_nodes_of_a_hand_made_tree() {
    let tree = SyntaxTree::from_nodes(vec![
        node(NodeKind::Other, 0, 20, None),
        node(NodeKind::IfStatement, 10, 20, Some(0)),
        node(NodeKind::Identifier, 14, 15, Some(1)),
        node(NodeKind::LexicalDeclaration, 0, 9, Some(0)),
        node(NodeKind::VariableDeclarator, 4, 8, Some(3)),
    ])
    .expect("a tree");
    let points = collect_statement_nodes(&tree, "");
    let got: Vec<(NodeKind, usize)> = points.iter().map(|n| (n.kind, n.start_byte)).collect();
    assert_eq!(got, vec![(NodeKind::IfStatement, 10), (NodeKind::LexicalDeclaration, 0)]);
    let bare = SyntaxTree::from_nodes(vec![
        node(NodeKind::Other, 3, 20, None),
        node(NodeKind::Number, 3, 4, Some(0)),
    ])
    .expect("a tree");
    let points = collect_statement_nodes(&bare, "");
    assert_eq!(points.len(), 1);
    assert_eq!((points[0].kind, points[0].start_byte), (NodeKind::Other, 3));
}

#[test]
fn utf8_widths() {
    assert_eq!(width_of('a'), 1);
    assert_eq!(width_of('\u{7f}'), 1);
    assert_eq!(width_of('\u{80}'), 2);
    assert_eq!(width_of('é'), 2);
    assert_eq!(width_of('\u{7ff}'), 2);
    assert_eq!(width_of('\u{800}'), 3);
    assert_eq!(width_of('日'), 3);
    assert_eq!(width_of('\u{ffff}'), 3);
    assert_eq!(width_of('\u{10000}'), 4);
    assert_eq!(width_of('😀'), 4);
    for c in ['a', 'é', '日', '😀', '\u{0}', '\u{10ffff}'] {
        assert_eq!(width_of(c), c.len_utf8());
    }
}

#[test]
fn char_index_of_byte_offsets() {
    let s: Vec<char> = "aé日😀b".chars().collect();
    assert_eq!(char_index(&s, 0), 0);
    assert_eq!(char_index(&s, 1), 1);
    assert_eq!(char_index(&s, 2), 1);
    assert_eq!(char_index(&s, 3), 2);
    assert_eq!(char_index(&s, 5), 2);
    assert_eq!(char_index(&s, 6), 3);
    assert_eq!(char_index(&s, 9), 3);
    assert_eq!(char_index(&s, 10), 4);
    assert_eq!(char_index(&s, 11), 5);
    assert_eq!(char_index(&s, 12), 5);
    assert_eq!(char_index(&s, usize::MAX), 5);
    assert_eq!(char_index(&Vec::new(), 3), 0);
}

#[test]
fn insert_before_a_node() {
    let src = "let x = 1;\nfoo();";
    let at = |b: usize| node(NodeKind::ExpressionStatement, b, b, None);
    assert_eq!(insert_at_node(src, at(11), "X;"), "let x = 1;\nX;\nfoo();");
    assert_eq!(insert_at_node(src, at(0), "X;"), "\nX;\nlet x = 1;\nfoo();");
    assert_eq!(insert_at_node(src, at(4), "X;"), "let \nX;\nx = 1;\nfoo();");
    assert_eq!(insert_at_node(src, at(11), "X;\n"), "let x = 1;\nX;\nfoo();");
    assert_eq!(insert_at_node(src, at(src.len()), "X;"), "let x = 1;\nfoo();\nX;\n");
    assert_eq!(insert_at_node(src, at(src.len() + 5), "X;"), "let x = 1;\nfoo();\nX;\n");
    assert_eq!(insert_at_node("", at(0), ""), "\n\n");
    assert_eq!(insert_at_node("a\n", at(2), ""), "a\n\n");
}

#[test]
fn insert_before_a_node_behind_wide_characters() {
    let src = "é;\n日();";
    let at = |b: usize| node(NodeKind::ExpressionStatement, b, b, None);
    assert_eq!(insert_at_node(src, at(4), "X;"), "é;\nX;\n日();");
    assert_eq!(insert_at_node(src, at(2), "X;"), "é\nX;\n;\n日();");
    assert_eq!(insert_at_node(src, at(1), "X;"), "\nX;\né;\n日();");
}

fn outside_tree(src: &str) -> tree_sitter::Tree {
    let mut parser = tree_sitter::Parser::new();
    parser.set_language(tree_sitter_javascript::language()).expect("the grammar");
    parser.parse(src, None).expect("a tree")
}

fn walk_in_order<'a>(
    node: tree_sitter::Node<'a>,
    parent: Option<usize>,
    defines: bool,
    out: &mut Vec<(tree_sitter::Node<'a>, Option<usize>, bool)>,
) {
    let index = out.len();
    out.push((node, parent, defines));
    let target = match node.kind() {
        "variable_declarator" | "function_declaration" | "class_declaration" => {
            node.child_by_field_name("name")
        }
        "assignment_expression" => node.child_by_field_name("left"),
        _ => None,
    };
    for i in (0..node.child_count()).rev() {
        if let Some(child) = node.child(i) {
            walk_in_order(child, Some(index), target == Some(child), out);
        }
    }
}

#[test]
fn record_lists_every_node_of_the_tree() {
    let sources = [
        "",
        "let x = 1;\nfoo();",
        "function f(a) { a = 1; return [a, 2]; }\nclass C { m() {} }\nvar v = f;",
        "let é = \"日本\"; 変数 = é + 3;",
        "let x = (",
    ];
    for src in sources {
        let tree = outside_tree(src);
        let recorded = record(&tree).expect("a list");
        let mut want = Vec::new();
        walk_in_order(tree.root_node(), None, false, &mut want);
        assert_eq!(recorded.nodes.len(), want.len(), "{:?}", src);
        for (got, (node, parent, defines)) in recorded.nodes.iter().zip(want.iter()) {
            assert_eq!(got.kind, NodeKind::from_name(node.kind()), "{:?}", src);
            assert_eq!(got.start_byte, node.start_byte());
            assert_eq!(got.end_byte, node.end_byte());
            assert_eq!(got.parent, *parent);
            assert_eq!(got.defines, *defines);
        }
    }
}

#[test]
fn record_and_parse_agree() {
    let src = "if (a) { b = 1; } else { let c = a; }";
    let recorded = record(&outside_tree(src)).expect("a list");
    let parsed = JsAst::default().parse(src).expect("a tree");
    assert_eq!(recorded.nodes.len(), parsed.nodes.len());
    for (a, b) in recorded.nodes.iter().zip(parsed.nodes.iter()) {
        assert_eq!(
            (a.kind, a.start_byte, a.end_byte, a.parent, a.defines),
            (b.kind, b.start_byte, b.end_byte, b.parent, b.defines)
        );
    }
    assert_eq!(recorded.nodes[0].parent, None);
    assert!(recorded.nodes.len() > 10);
}

#[test]
fn a_parser_that_takes_the_grammar() {
    let mut js = JsAst::new().expect("a parser");
    assert!(js.parse("let x = 1;").is_some());
}
