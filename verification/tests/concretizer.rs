use kre8ntemjs_core::concretizer::{
    identifier_pool, keyword, snippet_list, usable_names, Concretizer, INTEGER_MAX, INTEGER_MIN,
};
use kre8ntemjs_core::Template;
use rand::rngs::StdRng;
use rand::SeedableRng;

const SPARE: [&str; 9] = ["a", "b", "c", "x", "y", "z", "tmp", "obj", "v"];

fn hole_free(s: &str) -> bool {
    !s.contains("<var>") && !s.contains("<integer>") && !s.contains("<code_str>")
}

#[test]
fn integer_range() {
    assert_eq!(INTEGER_MIN, -10_000);
    assert_eq!(INTEGER_MAX, 10_000);
}

#[test]
fn keywords() {
    for k in ["let", "const", "var", "function", "class", "try", "catch", "for", "return"] {
        assert!(keyword(k), "{}", k);
    }
    for k in ["if", "while", "Let", "lets", "", "x"] {
        assert!(!keyword(k), "{}", k);
    }
}

#[test]
fn snippets_are_quoted() {
    assert_eq!(
        snippet_list(),
        vec!["\"let k = 1;\"", "\"class C{}\"", "\"({a:1})\"", "\"function f(){}\""]
    );
}

#[test]
fn pool_holds_identifiers_then_spare_names() {
    let pool = identifier_pool("let foo = bar(foo); return _x9;");
    let mut want = vec!["foo", "bar", "foo", "_x9"];
    want.extend(SPARE);
    assert_eq!(pool, want);
    assert_eq!(identifier_pool(""), SPARE);
    assert_eq!(identifier_pool("12 + 3"), SPARE);
}

#[test]
fn pool_reads_hole_tokens_as_words() {
    let pool = identifier_pool("<var> = <code_str>;");
    let mut want = vec!["code_str"];
    want.extend(SPARE);
    assert_eq!(pool, want);
}

#[test]
fn usable_names_reads_the_first_group() {
    let m = |groups: &[Option<&str>]| -> Vec<Option<String>> {
        groups.iter().map(|g| g.map(|s| s.to_string())).collect()
    };
    let matches = vec![
        m(&[Some("foo"), Some("foo")]),
        m(&[Some("let"), Some("let")]),
        m(&[Some("only")]),
        m(&[Some("x"), None]),
        m(&[Some("a<b"), Some("a<b")]),
        m(&[Some("zz"), Some("bar"), Some("ignored")]),
    ];
    assert_eq!(usable_names(&matches), vec!["foo", "bar"]);
    assert!(usable_names(&Vec::new()).is_empty());
}

#[test]
fn concretize_fills_every_hole() {
    let t = Template::from_source("let <var> = <integer>; f(<var>, <integer>, <code_str>);");
    for seed in 0..50u64 {
        let mut rng = StdRng::seed_from_u64(seed);
        let p = Concretizer::concretize(&t, &mut rng);
        assert!(hole_free(&p), "{:?}", p);
        assert!(p.starts_with("let "));
        assert!(p.ends_with(");"));
    }
}

#[test]
fn concretize_draws_integers_in_range() {
    let t = Template::from_source("<integer>");
    let mut low = i32::MAX;
    let mut high = i32::MIN;
    for seed in 0..200u64 {
        let mut rng = StdRng::seed_from_u64(seed);
        let p = Concretizer::concretize(&t, &mut rng);
        let v: i32 = p.parse().expect("an integer");
        assert!((-10_000..=10_000).contains(&v));
        assert_eq!(v.to_string(), p);
        low = low.min(v);
        high = high.max(v);
    }
    assert!(low < 0 && high > 0);
}

#[test]
fn concretize_draws_names_from_the_pool() {
    let t = Template::from_source("foo(<var>)");
    let mut seen = std::collections::HashSet::new();
    for seed in 0..200u64 {
        let mut rng = StdRng::seed_from_u64(seed);
        let p = Concretizer::concretize(&t, &mut rng);
        let inner = p.strip_prefix("foo(").and_then(|r| r.strip_suffix(")"));
        let name = inner.expect("the frame").to_string();
        assert!(name == "foo" || SPARE.contains(&name.as_str()), "{:?}", name);
        seen.insert(name);
    }
    assert!(seen.contains("foo"));
    assert!(seen.len() > 3);
}

#[test]
fn concretize_draws_snippets() {
    let t = Template::from_source("<code_str>");
    let list = snippet_list();
    let mut seen = std::collections::HashSet::new();
    for seed in 0..100u64 {
        let mut rng = StdRng::seed_from_u64(seed);
        let p = Concretizer::concretize(&t, &mut rng);
        assert!(list.contains(&p.as_str()), "{:?}", p);
        seen.insert(p);
    }
    assert_eq!(seen.len(), 4);
}

#[test]
fn concretize_without_holes_is_identity() {
    let mut rng = StdRng::seed_from_u64(0);
    for s in ["", "let x = 1;", "a < b > c", "<va r>"] {
        assert_eq!(Concretizer::concretize(&Template::from_source(s), &mut rng), s);
    }
}

#[test]
fn concretize_fills_holes_that_filling_brings_about() {
    let sources =
        ["t <in<var>eger>", "r <va<var>>", "<<integer>var>", "_str <code<var>>", "<<var><var>>"];
    for src in sources {
        let t = Template::from_source(src);
        for seed in 0..300u64 {
            let mut rng = StdRng::seed_from_u64(seed);
            let p = Concretizer::concretize(&t, &mut rng);
            assert!(hole_free(&p), "{:?} from {:?}", p, src);
        }
    }
}

#[test]
fn concretize_is_fixed_by_the_seed() {
    let t = Template::from_source("let <var> = <integer>; <code_str>");
    let mut a = StdRng::seed_from_u64(11);
    let mut b = StdRng::seed_from_u64(11);
    assert_eq!(Concretizer::concretize(&t, &mut a), Concretizer::concretize(&t, &mut b));
}

#[test]
fn concretize_keeps_wide_characters() {
    let t = Template::from_source("let 変数 = <integer>; // é <var> 日本 <code_str>");
    for seed in 0..20u64 {
        let mut rng = StdRng::seed_from_u64(seed);
        let p = Concretizer::concretize(&t, &mut rng);
        assert!(hole_free(&p));
        assert!(p.starts_with("let 変数 = "));
        assert!(p.contains("; // é "));
        assert!(p.contains(" 日本 \""));
    }
}

#[test]
fn pool_takes_names_that_begin_with_a_plain_letter() {
    let pool = identifier_pool("let café = été + 変数;");
    assert_eq!(&pool[..pool.len() - 9], ["café"]);
}
