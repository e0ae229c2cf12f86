use kre8ntemjs_core::ast::JsAst;
use kre8ntemjs_core::mutator::statement_list;
use kre8ntemjs_core::{Extractor, Mutator, Template};
use rand::rngs::StdRng;
use rand::SeedableRng;

fn closed(s: &str) -> bool {
    let tag = regex::Regex::new("<[a-z_]+>").unwrap();
    let chars: Vec<char> = s.chars().collect();
    for start in 0..chars.len() {
        let rest: String = chars[start..].iter().collect();
        if let Some(m) = tag.find(&rest) {
            if m.start() == 0 && !["<var>", "<integer>", "<code_str>"].contains(&m.as_str()) {
                return false;
            }
        }
    }
    true
}

const CLOSED: [&str; 6] = [
    "",
    "let <var> = <integer>;",
    "a < b > c; <<var>> <code_str>",
    "if (x<y) { f(<integer>) }\n<var>\n",
    "<Var> <va r> <> < > é<var>日",
    "function <var>(){ return <code_str>; }",
];

#[test]
fn the_test_for_closed_texts() {
    for s in CLOSED {
        assert!(closed(s), "{:?}", s);
    }
    for s in ["<b>", "x <vars>", "<_>", "<var><integer_>", "<<a>>"] {
        assert!(!closed(s), "{:?}", s);
    }
}

#[test]
fn statements_are_closed() {
    for s in statement_list() {
        assert!(closed(s), "{:?}", s);
    }
}

#[test]
fn fusing_keeps_templates_closed() {
    for a in CLOSED {
        for b in CLOSED {
            let f = Mutator::fuse(&Template::from_source(a), &Template::from_source(b));
            assert!(closed(&f.source), "{:?}", f.source);
        }
    }
}

#[test]
fn substituting_keeps_templates_closed() {
    for a in CLOSED {
        for from in ["<var>", "<integer>", "<code_str>"] {
            for to in ["<var>", "<integer>", "<code_str>"] {
                let r = Mutator::substitute(&Template::from_source(a), from, to);
                assert!(closed(&r.source), "{:?}", r.source);
            }
        }
        for seed in 0..10u64 {
            let mut rng = StdRng::seed_from_u64(seed);
            let r = Mutator::substitute_placeholder(&Template::from_source(a), &mut rng);
            assert!(closed(&r.source), "{:?}", r.source);
        }
    }
}

#[test]
fn inserting_keeps_templates_closed() {
    for a in CLOSED {
        let t = Template::from_source(a);
        for seed in 0..20u64 {
            let mut rng = StdRng::seed_from_u64(seed);
            let r = Mutator::insert_placeholder(&t, &mut rng);
            assert!(closed(&r.source), "{:?}", r.source);
        }
        for idx in 0..=a.split('\n').count() {
            let r = Mutator::insert_line(&t, idx, "let <var> = <integer>;");
            assert!(closed(&r.source), "{:?}", r.source);
        }
    }
}

#[test]
fn extracting_from_a_tree_keeps_sources_closed() {
    let mut js = JsAst::default();
    let sources = [
        "let x = 1; if (x<2) { y = x>3; }",
        "class A {} function f(a) { return a < 1 > 0; }",
        "let <var> = 1 < 2;",
    ];
    for src in sources {
        assert!(closed(src));
        let tree = js.parse(src).expect("a tree");
        for accept in [true, false] {
            let t = Extractor::from_tree(src, &tree, &vec![accept; tree.nodes.len()]);
            assert!(closed(&t.source), "{:?}", t.source);
        }
    }
}

#[test]
fn deleting_can_open_a_closed_template() {
    let t = Template::from_source("<<var>b>");
    assert!(closed(&t.source));
    assert!(!closed(&Mutator::delete_placeholder(&t).source));
}

fn holes(s: &str) -> usize {
    ["<var>", "<integer>", "<code_str>"].iter().map(|t| s.matches(t).count()).sum()
}

#[test]
fn substituting_keeps_the_number_of_holes() {
    let templates =
        ["", "<var>", "<<var>><integer>", "a <var> b <code_str> <var>", "<in<var>eger>"];
    for a in templates {
        let t = Template::from_source(a);
        for from in ["<var>", "<integer>", "<code_str>"] {
            for to in ["<var>", "<integer>", "<code_str>"] {
                let r = Mutator::substitute(&t, from, to);
                assert_eq!(holes(&r.source), holes(a), "{:?} -> {:?}", a, r.source);
            }
        }
    }
}

#[test]
fn deleting_keeps_templates_whose_brackets_are_tokens_closed() {
    for a in ["<var>", "let <var> = <integer>;", "<var><integer><code_str>", "f(<code_str>)"] {
        let r = Mutator::delete_placeholder(&Template::from_source(a));
        assert!(closed(&r.source), "{:?}", r.source);
        assert!(!r.source.contains('<') || holes(&r.source) > 0);
        assert_eq!(holes(&r.source) + 1, holes(a));
    }
}
