use kre8ntemjs_core::driver::{generate, reduction_for, seed_name, select_seeds, MinimizeBy};
use kre8ntemjs_core::triage::Class;
use kre8ntemjs_core::error::FuzzError;
use kre8ntemjs_core::extractor::Extractor;
use rand::rngs::StdRng;
use rand::SeedableRng;

#[test]
fn minimizer_modes() {
    assert_eq!(MinimizeBy::from_name("coverage"), MinimizeBy::Coverage);
    assert_eq!(MinimizeBy::from_name("signature"), MinimizeBy::Signature);
    assert_eq!(MinimizeBy::from_name("Coverage"), MinimizeBy::Signature);
    assert_eq!(MinimizeBy::from_name(""), MinimizeBy::Signature);
    assert_eq!(MinimizeBy::Coverage.effective(true), MinimizeBy::Coverage);
    assert_eq!(MinimizeBy::Coverage.effective(false), MinimizeBy::Signature);
    assert_eq!(MinimizeBy::Signature.effective(true), MinimizeBy::Signature);
    assert_eq!(MinimizeBy::Signature.effective(false), MinimizeBy::Signature);
}

#[test]
fn only_crashes_are_reduced() {
    let (sig, cov) = (MinimizeBy::Signature, MinimizeBy::Coverage);
    assert_eq!(reduction_for(Class::Crash, sig, true), Some(sig));
    assert_eq!(reduction_for(Class::Crash, sig, false), Some(sig));
    assert_eq!(reduction_for(Class::Crash, cov, true), Some(cov));
    assert_eq!(reduction_for(Class::Crash, cov, false), Some(sig));
    for class in [Class::Timeout, Class::Boring, Class::Plain] {
        for mode in [sig, cov] {
            assert_eq!(reduction_for(class, mode, true), None);
            assert_eq!(reduction_for(class, mode, false), None);
        }
    }
}

#[test]
fn seed_names() {
    assert!(seed_name("a.js"));
    assert!(seed_name("/corpus/deep/test.min.js"));
    assert!(seed_name("é.js"));
    assert!(seed_name("..js"));
    assert!(seed_name("dir/a.js"));
    assert!(!seed_name(".js"));
    assert!(!seed_name("dir/.js"));
    assert!(!seed_name("dir.js/file"));
    assert!(!seed_name("js"));
    assert!(!seed_name("a.JS"));
    assert!(!seed_name("a.jsx"));
    assert!(!seed_name("a.js.txt"));
    assert!(!seed_name(""));
    assert!(!seed_name("ajs"));
}

#[test]
fn seeds_are_selected_in_order() {
    let found: Vec<String> =
        ["b.js", "readme.md", "a.js", ".js"].iter().map(|s| s.to_string()).collect();
    assert_eq!(select_seeds(found).ok(), Some(vec!["b.js".to_string(), "a.js".to_string()]));
}

#[test]
fn no_seeds_is_an_error() {
    assert!(matches!(select_seeds(Vec::new()), Err(FuzzError::Other(_))));
    assert!(matches!(select_seeds(vec!["a.txt".to_string()]), Err(FuzzError::Other(_))));
}

fn hole_free(p: &str) -> bool {
    !p.contains("<var>") && !p.contains("<integer>") && !p.contains("<code_str>")
}

#[test]
fn generated_programs_hold_no_hole() {
    let ex = Extractor::default();
    let seeds = ["let x = 1;\nfoo(x);", "function f(a) { return a + 2; }\nf(3);", "let x = (", ""];
    for seed in 0..40u64 {
        let mut rng = StdRng::seed_from_u64(seed);
        for a in seeds {
            let p = generate(&ex, a, None, &mut rng);
            assert!(hole_free(&p), "{:?}", p);
            for b in seeds {
                let p = generate(&ex, a, Some(b), &mut rng);
                assert!(hole_free(&p), "{:?}", p);
                assert!(p.contains('\n'));
            }
        }
    }
}

#[test]
fn generation_is_fixed_by_the_seed() {
    let ex = Extractor::default();
    let mut a = StdRng::seed_from_u64(5);
    let mut b = StdRng::seed_from_u64(5);
    let src = "let x = 1; let y = x + 2;";
    let first = generate(&ex, src, Some("f(7);"), &mut a);
    let second = generate(&ex, src, Some("f(7);"), &mut b);
    assert_eq!(first, second);
}
