use kre8ntemjs_core::mutator::statement_list;
use kre8ntemjs_core::{Mutator, Placeholder, Template};
use rand::rngs::StdRng;
use rand::SeedableRng;

const TOKENS: [&str; 3] = ["<var>", "<integer>", "<code_str>"];

#[test]
fn template_holds_its_source() {
    assert_eq!(Template::from_source("let <var> = <integer>;").source, "let <var> = <integer>;");
    assert_eq!(Template::from_source("").source, "");
}

#[test]
fn tokens_in_search_order() {
    let toks = Template::tokens();
    assert_eq!(toks.len(), 3);
    assert_eq!(toks[0].0, "<var>");
    assert!(matches!(toks[0].1, Placeholder::Var));
    assert_eq!(toks[1].0, "<integer>");
    assert!(matches!(toks[1].1, Placeholder::Integer));
    assert_eq!(toks[2].0, "<code_str>");
    assert!(matches!(toks[2].1, Placeholder::CodeStr));
}

#[test]
fn delete_removes_first_var_before_any_integer() {
    let t = Template::from_source("a <integer> b <var> c <var>");
    assert_eq!(Mutator::delete_placeholder(&t).source, "a <integer> b  c <var>");
}

#[test]
fn delete_falls_through_the_vocabulary() {
    let t = Template::from_source("x <code_str> y <integer> z <integer>");
    assert_eq!(Mutator::delete_placeholder(&t).source, "x <code_str> y  z <integer>");
    let t = Template::from_source("x <code_str> y <code_str>");
    assert_eq!(Mutator::delete_placeholder(&t).source, "x  y <code_str>");
}

#[test]
fn delete_without_holes_is_identity() {
    let t = Template::from_source("let x = 1; // <va r>");
    assert_eq!(Mutator::delete_placeholder(&t).source, "let x = 1; // <va r>");
    assert_eq!(Mutator::delete_placeholder(&Template::from_source("")).source, "");
}

#[test]
fn delete_can_join_what_surrounded_the_hole() {
    let t = Template::from_source("<<var>b>");
    assert_eq!(Mutator::delete_placeholder(&t).source, "<b>");
}

#[test]
fn substitute_replaces_every_occurrence() {
    let t = Template::from_source("<var> = <var> + <integer>");
    assert_eq!(
        Mutator::substitute(&t, "<var>", "<integer>").source,
        "<integer> = <integer> + <integer>"
    );
    assert_eq!(Mutator::substitute(&t, "<var>", "<var>").source, t.source);
    assert_eq!(Mutator::substitute(&t, "<code_str>", "<var>").source, t.source);
}

#[test]
fn substitute_placeholder_is_one_of_nine_results() {
    let t = Template::from_source("<var> = <integer>; f(<code_str>, <var>)");
    let mut seen_change = false;
    for seed in 0..40u64 {
        let mut rng = StdRng::seed_from_u64(seed);
        let r = Mutator::substitute_placeholder(&t, &mut rng);
        let mut ok = false;
        for from in TOKENS {
            for to in TOKENS {
                if t.source.replace(from, to) == r.source {
                    ok = true;
                }
            }
        }
        assert!(ok, "unexpected result {:?}", r.source);
        if r.source != t.source {
            seen_change = true;
        }
    }
    assert!(seen_change);
}

#[test]
fn fuse_joins_with_one_line_feed() {
    let a = Template::from_source("let <var> = 1;");
    let b = Template::from_source("f(<integer>);");
    let f = Mutator::fuse(&a, &b);
    assert_eq!(f.source, "let <var> = 1;\nf(<integer>);");
    assert_eq!(f.source.chars().count(), a.source.chars().count() + 1 + b.source.chars().count());
    assert_eq!(f.source.len(), a.source.len() + 1 + b.source.len());
    let e = Template::from_source("");
    assert_eq!(Mutator::fuse(&e, &e).source, "\n");
}

#[test]
fn fuse_length_with_wide_characters() {
    let a = Template::from_source("é");
    let b = Template::from_source("日本");
    let f = Mutator::fuse(&a, &b);
    assert_eq!(f.source.chars().count(), 1 + 1 + 2);
    assert_eq!(f.source.len(), a.source.len() + 1 + b.source.len());
}

#[test]
fn insert_line_at_each_index() {
    let t = Template::from_source("a\nb");
    assert_eq!(Mutator::insert_line(&t, 0, "X").source, "X\na\nb");
    assert_eq!(Mutator::insert_line(&t, 1, "X").source, "a\nX\nb");
    assert_eq!(Mutator::insert_line(&t, 2, "X").source, "a\nb\nX");
    let e = Template::from_source("");
    assert_eq!(Mutator::insert_line(&e, 0, "X").source, "X\n");
    assert_eq!(Mutator::insert_line(&e, 1, "X").source, "\nX");
}

#[test]
fn statement_list_is_fixed() {
    let list = statement_list();
    assert_eq!(
        list,
        vec![
            "let <var> = <integer>;",
            "const <var> = <integer>;",
            "function <var>(){ return <integer>; } <var>();",
            "try { <var> = <integer>; } catch (e) {}",
            "for (let <var> = 0; <var> < <integer>; <var>++) { }",
            "({ toString(){ return <code_str>; } });",
        ]
    );
}

#[test]
fn insert_placeholder_adds_one_statement_on_its_own_line() {
    let src = "let x = 1;\nfoo(x);\nif (x) { bar(); }";
    let t = Template::from_source(src);
    let list = statement_list();
    let mut distinct = std::collections::HashSet::new();
    for seed in 0..60u64 {
        let mut rng = StdRng::seed_from_u64(seed);
        let r = Mutator::insert_placeholder(&t, &mut rng).source;
        let mut explained = false;
        for stmt in &list {
            let line = format!("{}\n", stmt);
            for (at, _) in r.match_indices(line.as_str()) {
                let mut rest = String::new();
                rest.push_str(&r[..at]);
                rest.push_str(&r[at + line.len()..]);
                if rest == src {
                    explained = true;
                }
                if at > 0 && r.as_bytes()[at - 1] == b'\n' {
                    let mut rest = String::new();
                    rest.push_str(&r[..at - 1]);
                    rest.push_str(&r[at + line.len()..]);
                    if rest == src {
                        explained = true;
                    }
                }
            }
        }
        assert!(explained, "cannot explain {:?}", r);
        distinct.insert(r);
    }
    assert!(distinct.len() > 3);
}

#[test]
fn apply_picks_the_operator_by_number() {
    let t = Template::from_source("a <var> b <integer>");
    let mut rng = StdRng::seed_from_u64(3);
    assert_eq!(Mutator::apply(1, &t, &mut rng).source, "a  b <integer>");
    let inserted = Mutator::apply(0, &t, &mut rng).source;
    assert!(inserted.len() > t.source.len());
    let substituted = Mutator::apply(2, &t, &mut rng).source;
    assert!(!substituted.contains('\n'));
    let also_substituted = Mutator::apply(17, &t, &mut rng).source;
    assert!(!also_substituted.contains('\n'));
}

#[test]
fn mutate_gives_one_of_the_three() {
    let t = Template::from_source("let <var> = <integer>;");
    let mut kinds = std::collections::HashSet::new();
    for seed in 0..60u64 {
        let mut rng = StdRng::seed_from_u64(seed);
        let r = Mutator::mutate(&t, &mut rng).source;
        if r == "let  = <integer>;" {
            kinds.insert("delete");
        } else if r.contains('\n') {
            kinds.insert("insert");
        } else {
            let mut ok = false;
            for from in TOKENS {
                for to in TOKENS {
                    if t.source.replace(from, to) == r {
                        ok = true;
                    }
                }
            }
            assert!(ok, "unexpected {:?}", r);
            kinds.insert("substitute");
        }
    }
    assert_eq!(kinds.len(), 3);
}

#[test]
fn insert_placeholder_behind_wide_characters() {
    let src = "let é = \"日本\";\nvar 変数 = é;";
    let t = Template::from_source(src);
    for seed in 0..30u64 {
        let mut rng = StdRng::seed_from_u64(seed);
        let r = Mutator::insert_placeholder(&t, &mut rng).source;
        assert!(r.contains("let é = \"日本\";"), "{:?}", r);
        assert!(r.contains("var 変数 = é;"), "{:?}", r);
        assert!(r.chars().count() > src.chars().count());
    }
}
