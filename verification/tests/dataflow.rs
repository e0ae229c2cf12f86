use kre8ntemjs_core::ast::{JsAst, NodeKind, SyntaxNode, SyntaxTree};
use kre8ntemjs_core::dataflow::{
    collect_defs_uses, dfcomp, incr, text_of, DfReport, JsDf, NameCounts,
};
use kre8ntemjs_core::error::FuzzError;

fn counts(pairs: &[(&str, usize)]) -> NameCounts {
    NameCounts { entries: pairs.iter().map(|(k, v)| (k.to_string(), *v)).collect() }
}

fn sorted(c: &NameCounts) -> Vec<(String, usize)> {
    let mut v = c.entries.clone();
    v.sort();
    v
}

fn owned(pairs: &[(&str, usize)]) -> Vec<(String, usize)> {
    pairs.iter().map(|(k, v)| (k.to_string(), *v)).collect()
}

#[test]
fn incr_adds_and_raises() {
    let mut c = NameCounts::new();
    assert_eq!(c.get("x"), None);
    incr(&mut c, "x".to_string(), 1);
    assert_eq!(c.get("x"), Some(1));
    incr(&mut c, "y".to_string(), 5);
    incr(&mut c, "x".to_string(), 2);
    assert_eq!(c.get("x"), Some(3));
    assert_eq!(c.get("y"), Some(5));
    assert_eq!(c.get("z"), None);
    assert_eq!(c.entries.len(), 2);
    assert_eq!(c.sum(), 8);
    incr(&mut c, "z".to_string(), 0);
    assert_eq!(c.get("z"), Some(0));
    assert_eq!(c.sum(), 8);
}

#[test]
fn duplicate_copies_every_entry() {
    let c = counts(&[("a", 1), ("b", 2)]);
    let d = c.duplicate();
    assert_eq!(d.entries, c.entries);
    assert_eq!(NameCounts::new().duplicate().entries.len(), 0);
}

#[test]
fn dfcomp_adds_definitions_and_uses() {
    let report = DfReport {
        def_count: counts(&[("x", 2), ("f", 1)]),
        use_count: counts(&[("x", 3), ("a", 2), ("f", 1)]),
    };
    let comp = dfcomp(&report);
    assert_eq!(sorted(&comp), owned(&[("a", 2), ("f", 2), ("x", 5)]));
    assert_eq!(comp.sum(), 9);
    let empty = DfReport { def_count: NameCounts::new(), use_count: NameCounts::new() };
    assert_eq!(dfcomp(&empty).entries.len(), 0);
}

#[test]
fn counts_of_a_small_program() {
    let src = "let x = 1; x = x + 2; function f(a){ return a; } f(x);";
    let mut df = JsDf::default();
    let report = df.analyze(src).expect("a report");
    assert_eq!(sorted(&report.def_count), owned(&[("f", 1), ("x", 2)]));
    assert_eq!(sorted(&report.use_count), owned(&[("a", 2), ("f", 1), ("x", 3)]));
    assert_eq!(sorted(&dfcomp(&report)), owned(&[("a", 2), ("f", 2), ("x", 5)]));
}

#[test]
fn counts_of_classes_and_wide_names() {
    let src = "class Ünïcode {}\nvar 変数 = Ünïcode;\n変数 = 変数;";
    let mut df = JsDf::default();
    let report = df.analyze(src).expect("a report");
    assert_eq!(sorted(&report.def_count), owned(&[("Ünïcode", 1), ("変数", 2)]));
    assert_eq!(sorted(&report.use_count), owned(&[("変数", 2)]));
}

#[test]
fn counts_of_an_empty_program() {
    let mut df = JsDf::default();
    let report = df.analyze("").expect("a report");
    assert!(report.def_count.entries.is_empty());
    assert!(report.use_count.entries.is_empty());
}

#[test]
fn counts_of_a_hand_made_tree() {
    let src = "ab = cd";
    let n = |kind, start, end, parent, defines| SyntaxNode {
        kind,
        start_byte: start,
        end_byte: end,
        parent,
        defines,
    };
    let tree = SyntaxTree::from_nodes(vec![
        n(NodeKind::Other, 0, 7, None, false),
        n(NodeKind::AssignmentExpression, 0, 7, Some(0), false),
        n(NodeKind::Identifier, 5, 7, Some(1), false),
        n(NodeKind::Identifier, 0, 2, Some(1), true),
    ])
    .expect("a tree");
    let report = collect_defs_uses(&tree, src);
    assert_eq!(sorted(&report.def_count), owned(&[("ab", 1)]));
    assert_eq!(sorted(&report.use_count), owned(&[("ab", 1), ("cd", 1)]));
    let declared = SyntaxTree::from_nodes(vec![
        n(NodeKind::Other, 0, 7, None, false),
        n(NodeKind::VariableDeclarator, 0, 7, Some(0), false),
        n(NodeKind::Identifier, 5, 7, Some(1), false),
        n(NodeKind::Identifier, 0, 2, Some(1), true),
    ])
    .expect("a tree");
    let report = collect_defs_uses(&declared, src);
    assert_eq!(sorted(&report.def_count), owned(&[("ab", 1)]));
    assert!(report.use_count.entries.is_empty());
    let root_only =
        SyntaxTree::from_nodes(vec![n(NodeKind::Identifier, 0, 2, None, false)]).expect("a tree");
    let report = collect_defs_uses(&root_only, src);
    assert!(report.def_count.entries.is_empty());
    assert!(report.use_count.entries.is_empty());
}

#[test]
fn text_of_a_node() {
    let src: Vec<char> = "aé日b".chars().collect();
    let n = |start, end| SyntaxNode {
        kind: NodeKind::Identifier,
        start_byte: start,
        end_byte: end,
        parent: None,
        defines: false,
    };
    assert_eq!(text_of(&src, &n(1, 6)), "é日");
    assert_eq!(text_of(&src, &n(0, 7)), "aé日b");
    assert_eq!(text_of(&src, &n(3, 3)), "");
    assert_eq!(text_of(&src, &n(6, 1)), "");
    assert_eq!(text_of(&src, &n(6, 100)), "b");
}

#[test]
fn analysis_and_parser_agree() {
    let src = "var a = 1, b = a;";
    let mut js = JsAst::default();
    let tree = js.parse(src).expect("a tree");
    let direct = collect_defs_uses(&tree, src);
    let mut df = JsDf::default();
    let report = df.analyze(src).expect("a report");
    assert_eq!(sorted(&direct.def_count), sorted(&report.def_count));
    assert_eq!(sorted(&direct.use_count), sorted(&report.use_count));
    assert_eq!(sorted(&report.def_count), owned(&[("a", 1), ("b", 1)]));
    assert!(report.use_count.entries.is_empty());
}

#[test]
fn error_messages() {
    assert_eq!(FuzzError::EngineFailed(3).message(), "engine failed with status: 3");
    assert_eq!(FuzzError::EngineFailed(-1).message(), "engine failed with status: -1");
    assert_eq!(FuzzError::Other("parse failed".to_string()).message(), "other: parse failed");
    let io = std::io::Error::new(std::io::ErrorKind::NotFound, "gone");
    assert_eq!(FuzzError::Io(io).message(), "io: gone");
}

#[test]
fn dfcomp_has_an_entry_for_every_name_of_either_table() {
    let report = DfReport {
        def_count: counts(&[("x", 0), ("f", 1)]),
        use_count: counts(&[("y", 0), ("f", 2)]),
    };
    let comp = dfcomp(&report);
    assert_eq!(sorted(&comp), owned(&[("f", 3), ("x", 0), ("y", 0)]));
    assert_eq!(comp.get("x"), Some(0));
    assert_eq!(comp.get("y"), Some(0));
    assert_eq!(comp.get("z"), None);
}
