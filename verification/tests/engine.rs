use kre8ntemjs_core::engine::{Engine, PollStep, RunOutcome, POLL_INTERVAL_MS};
use std::time::Duration;

fn engine() -> Engine {
    Engine {
        cmd: "d8".to_string(),
        args: vec!["--harmony".to_string(), "--fuzzing".to_string()],
        timeout: Duration::from_millis(500),
    }
}

#[test]
fn arguments_end_with_the_path() {
    let e = engine();
    assert_eq!(e.arguments(&Vec::new(), "/tmp/p.js"), vec!["--harmony", "--fuzzing", "/tmp/p.js"]);
    assert_eq!(
        e.arguments(&vec!["--cov".to_string(), "x".to_string()], "/tmp/p.js"),
        vec!["--harmony", "--fuzzing", "--cov", "x", "/tmp/p.js"]
    );
    let bare = Engine { cmd: "js".to_string(), args: Vec::new(), timeout: Duration::from_secs(1) };
    assert_eq!(bare.arguments(&Vec::new(), "p.js"), vec!["p.js"]);
}

#[test]
fn polling() {
    let e = engine();
    assert_eq!(e.next_step(true, &Duration::from_millis(0)), PollStep::Collect);
    assert_eq!(e.next_step(true, &Duration::from_secs(100)), PollStep::Collect);
    assert_eq!(e.next_step(false, &Duration::from_millis(0)), PollStep::Wait);
    assert_eq!(e.next_step(false, &Duration::from_millis(499)), PollStep::Wait);
    assert_eq!(e.next_step(false, &Duration::from_nanos(499_999_999)), PollStep::Wait);
    assert_eq!(e.next_step(false, &Duration::from_millis(500)), PollStep::Kill);
    assert_eq!(e.next_step(false, &Duration::from_secs(3)), PollStep::Kill);
    let none = Engine { cmd: "js".to_string(), args: Vec::new(), timeout: Duration::from_secs(0) };
    assert_eq!(none.next_step(false, &Duration::from_secs(0)), PollStep::Kill);
    assert_eq!(POLL_INTERVAL_MS, 10);
}

fn parts(o: &RunOutcome) -> (i32, bool, &str, &str) {
    (o.status, o.timed_out, o.stdout.as_str(), o.stderr.as_str())
}

#[test]
fn outcomes() {
    let o = RunOutcome::finished(Some(3), "out".to_string(), "err".to_string());
    assert_eq!(parts(&o), (3, false, "out", "err"));
    let o = RunOutcome::finished(None, String::new(), String::new());
    assert_eq!(parts(&o), (-1, false, "", ""));
    let o = RunOutcome::finished(Some(0), String::new(), "warn".to_string());
    assert_eq!(o.status, 0);
    let t = RunOutcome::timeout();
    assert_eq!(parts(&t), (-1, true, "", "timeout"));
}
