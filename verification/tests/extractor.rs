use kre8ntemjs_core::ast::{JsAst, NodeKind, SyntaxNode, SyntaxTree};
use kre8ntemjs_core::extractor::{accepts, apply_edit, sort_rightmost_first, Edit, Extractor};
use rand::rngs::StdRng;
use rand::SeedableRng;

fn all(tree: &SyntaxTree, value: bool) -> Vec<bool> {
    vec![value; tree.nodes.len()]
}

#[test]
fn weight_decides_acceptance() {
    assert!(accepts(1, 0));
    assert!(accepts(1, 7));
    assert!(!accepts(1, 8));
    assert!(accepts(2, 15));
    assert!(!accepts(2, 16));
    assert!(!accepts(0, 0));
    assert!(accepts(usize::MAX, usize::MAX));
    assert!(accepts(usize::MAX / 8 + 1, usize::MAX));
    assert!(!accepts(usize::MAX / 8, usize::MAX));
}

#[test]
fn acceptance_rate_follows_the_weight() {
    let total = 80usize;
    let accepted = (0..total).filter(|d| accepts(3, *d)).count();
    assert_eq!(accepted, 24);
    let accepted = (0..total).filter(|d| accepts(10, *d)).count();
    assert_eq!(accepted, 80);
    let accepted = (0..total).filter(|d| accepts(40, *d)).count();
    assert_eq!(accepted, 80);
}

#[test]
fn edits_are_ordered_from_the_right() {
    let e = |s: usize, t: &'static str| Edit { start_byte: s, end_byte: s + 1, token: t };
    let sorted = sort_rightmost_first(&vec![e(3, "a"), e(9, "b"), e(3, "c"), e(0, "d"), e(9, "e")]);
    let got: Vec<(usize, &str)> = sorted.iter().map(|x| (x.start_byte, x.token)).collect();
    assert_eq!(got, vec![(9, "b"), (9, "e"), (3, "a"), (3, "c"), (0, "d")]);
    assert!(sort_rightmost_first(&Vec::new()).is_empty());
}

#[test]
fn one_edit() {
    let s: Vec<char> = "let é = 12;".chars().collect();
    let edit = |start_byte: usize, end_byte: usize, token: &'static str| -> String {
        apply_edit(&s, &Edit { start_byte, end_byte, token }).iter().collect()
    };
    assert_eq!(edit(9, 11, "<integer>"), "let é = <integer>;");
    assert_eq!(edit(4, 6, "<var>"), "let <var> = 12;");
    assert_eq!(edit(6, 4, "<var>"), "let é<var> = 12;");
    assert_eq!(edit(100, 200, "<var>"), "let é = 12;<var>");
}

#[test]
fn template_from_a_tree() {
    let mut js = JsAst::default();
    let src = "let x = 1;";
    let tree = js.parse(src).expect("a tree");
    let every = Extractor::from_tree(src, &tree, &all(&tree, true));
    assert_eq!(every.source, "let <var> = <integer>;");
    assert_eq!(Extractor::from_tree(src, &tree, &all(&tree, false)).source, "let x = <integer>;");
    assert_eq!(Extractor::from_tree(src, &tree, &Vec::new()).source, "let x = <integer>;");
}

#[test]
fn template_keeps_uses_and_replaces_declarations() {
    let mut js = JsAst::default();
    let src = "function add(a, b) { return a + b + 10; }\nclass Box {}\nvar total = add(1, 2.5);";
    let tree = js.parse(src).expect("a tree");
    assert_eq!(
        Extractor::from_tree(src, &tree, &all(&tree, true)).source,
        "function <var>(a, b) { return a + b + <integer>; }\n\
         class <var> {}\n\
         var <var> = add(<integer>, <integer>);"
    );
}

#[test]
fn template_from_a_tree_with_wide_characters() {
    let mut js = JsAst::default();
    let src = "let é = 1; let 変数 = \"日本\" + 22;";
    let tree = js.parse(src).expect("a tree");
    assert_eq!(
        Extractor::from_tree(src, &tree, &all(&tree, true)).source,
        "let <var> = <integer>; let <var> = \"日本\" + <integer>;"
    );
}

#[test]
fn template_from_a_hand_made_tree() {
    let n = |kind, start, end, parent| SyntaxNode {
        kind,
        start_byte: start,
        end_byte: end,
        parent,
        defines: false,
    };
    let src = "ab 12 cd 3";
    let tree = SyntaxTree::from_nodes(vec![
        n(NodeKind::VariableDeclarator, 0, 10, None),
        n(NodeKind::Number, 3, 5, Some(0)),
        n(NodeKind::Identifier, 0, 2, Some(0)),
        n(NodeKind::Number, 9, 10, Some(0)),
        n(NodeKind::Identifier, 6, 8, Some(2)),
    ])
    .expect("a tree");
    let plan = Extractor::plan(&tree, &vec![true; 5]);
    let got: Vec<(usize, usize, &str)> =
        plan.iter().map(|e| (e.start_byte, e.end_byte, e.token)).collect();
    assert_eq!(got, vec![(3, 5, "<integer>"), (0, 2, "<var>"), (9, 10, "<integer>")]);
    assert_eq!(
        Extractor::from_tree(src, &tree, &vec![true; 5]).source,
        "<var> <integer> cd <integer>"
    );
    assert_eq!(
        Extractor::from_tree(src, &tree, &vec![true, true, false, true, true]).source,
        "ab <integer> cd <integer>"
    );
    assert!(Extractor::names_declaration(&tree, 2));
    assert!(!Extractor::names_declaration(&tree, 4));
    assert!(!Extractor::names_declaration(&tree, 0));
    assert!(!Extractor::names_declaration(&tree, 1));
}

#[test]
fn fallback_uses_the_two_expressions() {
    let ex = Extractor::default();
    assert_eq!(
        ex.fallback("let x = 12; let y = x + 3;").source,
        "let <var> = <integer>; let <var> = x + <integer>;"
    );
    assert_eq!(ex.fallback("a1 = 1a + 55;").source, "a1 = 1a + <integer>;");
    assert_eq!(ex.fallback("letter = 1").source, "letter = <integer>");
    assert_eq!(ex.fallback("let\n\t_q9 = 0").source, "let <var> = <integer>");
    assert_eq!(ex.fallback("let 5 = 5").source, "let <integer> = <integer>");
    assert_eq!(ex.fallback("").source, "");
    assert_eq!(ex.fallback("no digits here").source, "no digits here");
}

#[test]
fn extract_of_a_single_declaration() {
    let ex = Extractor::default();
    for seed in 0..10u64 {
        let mut rng = StdRng::seed_from_u64(seed);
        assert_eq!(ex.extract("let x = 1;", &mut rng).source, "let <var> = <integer>;");
    }
}

#[test]
fn extract_always_replaces_numbers() {
    let ex = Extractor::default();
    let src = "let a = 1; let b = 2; let c = 3; let d = 4; let e = 5; \
               let f = 6; let g = 7; let h = 8; let i = 9; let j = 10; \
               use(a); use(a); use(a);";
    let mut some_kept = false;
    let mut some_replaced = false;
    for seed in 0..40u64 {
        let mut rng = StdRng::seed_from_u64(seed);
        let t = ex.extract(src, &mut rng).source;
        assert!(!t.chars().any(|c| c.is_ascii_digit()), "{:?}", t);
        assert_eq!(t.matches("<integer>").count(), 10);
        assert!(t.contains("use(a); use(a); use(a);"));
        let holes = t.matches("let <var>").count();
        if holes < 10 {
            some_kept = true;
        }
        if holes > 0 {
            some_replaced = true;
        }
    }
    assert!(some_kept);
    assert!(some_replaced);
}

#[test]
fn extract_leaves_other_text_alone() {
    let ex = Extractor::default();
    let mut rng = StdRng::seed_from_u64(1);
    assert_eq!(ex.extract("foo(bar);", &mut rng).source, "foo(bar);");
    assert_eq!(ex.extract("", &mut rng).source, "");
}

#[test]
fn extract_takes_the_tree_where_the_parser_gives_one() {
    let ex = Extractor::default();
    let src = "var a1 = 5;";
    assert!(JsAst::default().parse(src).is_some());
    assert_eq!(ex.fallback(src).source, "var a1 = <integer>;");
    for seed in 0..10u64 {
        let mut rng = StdRng::seed_from_u64(seed);
        assert_eq!(ex.extract(src, &mut rng).source, "var <var> = <integer>;");
    }
}
