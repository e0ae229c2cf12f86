//! Triage: what a run is worth, and whether its failure is new.
use crate::engine::RunOutcome;
use crate::signature::{crash_signature, signature_of};
use crate::text::{
    contains, decimal, find, from_chars, push_decimal, push_str, same_text, to_chars, views,
};
use vstd::prelude::*;

verus! {

/// What kind of outcome a run had.
#[derive(Debug, Clone, Copy, PartialEq, Eq, Structural)]
pub enum Class {
    /// The engine had to be ended.
    Timeout,
    /// The engine failed, and not over a mere syntax error or an undefined
    /// name.
    Crash,
    /// The engine failed over an undefined name.
    Boring,
    /// The engine succeeded, or rejected the program's syntax.
    Plain,
}

/// What triage made of one run.
#[derive(Debug)]
pub struct Verdict {
    pub class: Class,
    /// Whether the error text speaks of a syntax error.
    pub syntax_error: bool,
    /// Whether the run was a timeout or a crash and yet passed over because
    /// its score did not exceed the best one.
    pub passed_over: bool,
    /// The signature, for a timeout or a crash that was not passed over.
    pub signature: Option<String>,
    /// Whether the signature is new, so that the run is to be recorded.
    pub fresh: bool,
}

/// The state of triage over a session.
#[derive(Debug)]
pub struct Triage {
    /// The signatures met so far, each once, in the order they were met.
    /// A list, not a hash set: vstd has no model of hashing for strings.
    pub seen: Vec<String>,
    pub syntax_errors: usize,
    /// The number of distinct crash signatures.
    pub crashes: usize,
    /// The number of timeouts that were not passed over.
    pub timeouts: usize,
    /// The best score met so far.
    pub best_score: u64,
    /// Whether only runs that raise the score are kept.
    pub keep_only_increasing: bool,
}

/// What triage reads of one run: the outcome, and the score of the program
/// where scoring is set up.
pub struct Event {
    pub stderr: Seq<char>,
    pub status: i32,
    pub timed_out: bool,
    pub score: Option<u64>,
}

/// The state of triage, with the signatures as texts.
pub struct TriageView {
    pub seen: Seq<Seq<char>>,
    pub syntax_errors: nat,
    pub crashes: nat,
    pub timeouts: nat,
    pub best_score: u64,
    pub keep_only_increasing: bool,
}

/// What triage made of one run, with the signature as a text.
pub struct VerdictView {
    pub class: Class,
    pub syntax_error: bool,
    pub passed_over: bool,
    pub signature: Option<Seq<char>>,
    pub fresh: bool,
}

/// The error text speaks of a syntax error.
pub open spec fn is_syntax_error(stderr: Seq<char>) -> bool {
    contains(stderr, "SyntaxError"@) || contains(stderr, "Parse error"@) || contains(
        stderr,
        "Unexpected token"@,
    )
}

/// The error text speaks of an undefined name and not of a prototype.
pub open spec fn is_boring(stderr: Seq<char>) -> bool {
    contains(stderr, "ReferenceError:"@) && !contains(stderr, "prototype"@)
}

/// The kind of a run: a timeout; else, with a status other than 0 and no
/// syntax error, boring or a crash; else plain.
pub open spec fn class_of(e: Event) -> Class {
    if e.timed_out {
        Class::Timeout
    } else if e.status != 0 && !is_syntax_error(e.stderr) {
        if is_boring(e.stderr) {
            Class::Boring
        } else {
            Class::Crash
        }
    } else {
        Class::Plain
    }
}

/// The run is a timeout or a crash.
pub open spec fn is_failure(e: Event) -> bool {
    class_of(e) == Class::Timeout || class_of(e) == Class::Crash
}

/// The run's score keeps it out: only rising scores are kept, there is a
/// score, and it does not exceed the best.
pub open spec fn held_back(v: TriageView, e: Event) -> bool {
    v.keep_only_increasing && e.score is Some && e.score->0 <= v.best_score
}

/// The run is a failure that is not held back: its signature counts.
pub open spec fn is_interesting(v: TriageView, e: Event) -> bool {
    is_failure(e) && !held_back(v, e)
}

/// The greater of the best score and the run's score.
pub open spec fn raised(best: u64, score: Option<u64>) -> u64 {
    match score {
        Some(s) => if s > best {
            s
        } else {
            best
        },
        None => best,
    }
}

/// The state after a run.
pub open spec fn state_after(v: TriageView, e: Event) -> TriageView {
    let syntax: nat = if is_syntax_error(e.stderr) {
        1
    } else {
        0
    };
    let sig = signature_of(e.stderr);
    let fresh = !v.seen.contains(sig);
    if is_interesting(v, e) {
        TriageView {
            seen: if fresh {
                v.seen.push(sig)
            } else {
                v.seen
            },
            syntax_errors: v.syntax_errors + syntax,
            crashes: if class_of(e) == Class::Crash && fresh {
                v.crashes + 1
            } else {
                v.crashes
            },
            timeouts: if class_of(e) == Class::Timeout {
                v.timeouts + 1
            } else {
                v.timeouts
            },
            best_score: raised(v.best_score, e.score),
            keep_only_increasing: v.keep_only_increasing,
        }
    } else {
        TriageView { syntax_errors: v.syntax_errors + syntax, ..v }
    }
}

/// The verdict on a run.
pub open spec fn verdict_on(v: TriageView, e: Event) -> VerdictView {
    let sig = signature_of(e.stderr);
    VerdictView {
        class: class_of(e),
        syntax_error: is_syntax_error(e.stderr),
        passed_over: is_failure(e) && held_back(v, e),
        signature: if is_interesting(v, e) {
            Some(sig)
        } else {
            None
        },
        fresh: is_interesting(v, e) && !v.seen.contains(sig),
    }
}

/// What triage reads of an outcome and a score. Standard output is left
/// out: triage does not read it.
pub open spec fn event_of(outcome: RunOutcome, score: Option<u64>) -> Event {
    Event { stderr: outcome.stderr@, status: outcome.status, timed_out: outcome.timed_out, score }
}

/// The first `n` characters of `s`, or all of it where it has fewer.
pub open spec fn first_chars(s: Seq<char>, n: int) -> Seq<char> {
    if s.len() <= n {
        s
    } else {
        s.take(n)
    }
}

/// The name, without its ending, of the two files that record a run.
pub open spec fn stem_of(kind: Seq<char>, iter: nat, signature: Seq<char>) -> Seq<char> {
    kind + "_iter"@ + decimal(iter) + "_sig"@ + first_chars(signature, 8)
}

/// The word that names a class in file names.
pub open spec fn kind_word(class: Class) -> Seq<char> {
    if class == Class::Timeout {
        "timeout"@
    } else {
        "crash"@
    }
}

/// The line that reports progress.
pub open spec fn progress_text(iter: nat, v: TriageView) -> Seq<char> {
    "iter "@ + decimal(iter) + " | "@ + counters_text(v)
}

/// The three counters in words.
pub open spec fn counters_text(v: TriageView) -> Seq<char> {
    "syntax="@ + decimal(v.syntax_errors) + " unique_crashes="@ + decimal(v.crashes)
        + " timeouts="@ + decimal(v.timeouts)
}

impl View for Verdict {
    type V = VerdictView;

    open spec fn view(&self) -> VerdictView {
        VerdictView {
            class: self.class,
            syntax_error: self.syntax_error,
            passed_over: self.passed_over,
            signature: match self.signature {
                Some(s) => Some(s@),
                None => None,
            },
            fresh: self.fresh,
        }
    }
}

impl View for Triage {
    type V = TriageView;

    open spec fn view(&self) -> TriageView {
        TriageView {
            seen: views(self.seen@),
            syntax_errors: self.syntax_errors as nat,
            crashes: self.crashes as nat,
            timeouts: self.timeouts as nat,
            best_score: self.best_score,
            keep_only_increasing: self.keep_only_increasing,
        }
    }
}

/// Whether `needle` stands somewhere in `hay`.
pub fn holds(hay: &Vec<char>, needle: &str) -> (b: bool)
    ensures
        b == contains(hay@, needle@),
{
    let pat = to_chars(needle);
    find(hay, &pat).is_some()
}

/// The kind of a run.
pub fn classify(outcome: &RunOutcome) -> (c: Class)
    ensures
        c == class_of(event_of(*outcome, None)),
{
    let text = to_chars(outcome.stderr.as_str());
    if outcome.timed_out {
        Class::Timeout
    } else if outcome.status != 0 && !syntax_error_in(&text) {
        if holds(&text, "ReferenceError:") && !holds(&text, "prototype") {
            Class::Boring
        } else {
            Class::Crash
        }
    } else {
        Class::Plain
    }
}

/// Whether the error text speaks of a syntax error.
pub fn syntax_error_in(text: &Vec<char>) -> (b: bool)
    ensures
        b == is_syntax_error(text@),
{
    holds(text, "SyntaxError") || holds(text, "Parse error") || holds(text, "Unexpected token")
}

impl Triage {
    /// No signature is held twice, and every crash counted has its
    /// signature among them.
    pub open spec fn valid(&self) -> bool {
        self@.seen.no_duplicates() && self.crashes <= self.seen.len()
    }

    /// Neither the syntax counter nor the timeout counter is at its limit.
    pub open spec fn countable(&self) -> bool {
        self.syntax_errors < usize::MAX && self.timeouts < usize::MAX
    }

    /// The state at the start of a session: nothing seen, nothing counted.
    pub fn new(keep_only_increasing: bool) -> (t: Triage)
        ensures
            t.valid(),
            t.countable(),
            t@.seen.len() == 0,
            t@.syntax_errors == 0 && t@.crashes == 0 && t@.timeouts == 0,
            t@.best_score == 0,
            t@.keep_only_increasing == keep_only_increasing,
    {
        Triage {
            seen: Vec::new(),
            syntax_errors: 0,
            crashes: 0,
            timeouts: 0,
            best_score: 0,
            keep_only_increasing,
        }
    }

    /// Whether the signature has been met.
    pub fn has_seen(&self, signature: &str) -> (b: bool)
        ensures
            b == self@.seen.contains(signature@),
    {
        let mut i: usize = 0;
        while i < self.seen.len()
            invariant
                i <= self.seen.len(),
                forall|j: int| 0 <= j < i ==> views(self.seen@)[j] != signature@,
            decreases self.seen.len() - i,
        {
            if same_text(self.seen[i].as_str(), signature) {
                assert(views(self.seen@)[i as int] == signature@);
                return true;
            }
            i += 1;
        }
        false
    }

    /// Whether another run can be counted.
    pub fn has_room(&self) -> (b: bool)
        ensures
            b == self.countable(),
    {
        self.syntax_errors < usize::MAX && self.timeouts < usize::MAX
    }

    /// Takes in one run: counts it, and tells what it is worth.
    ///
    /// `score` is the score of the program where scoring is set up. A
    /// timeout or a crash whose score is held back leaves everything but the
    /// syntax counter as it was. Otherwise its signature is looked up; a
    /// signature met for the first time is kept, and the verdict is `fresh`.
    pub fn observe(&mut self, outcome: &RunOutcome, score: Option<u64>) -> (verdict: Verdict)
        requires
            old(self).valid(),
            old(self).countable(),
        ensures
            final(self)@ == state_after(old(self)@, event_of(*outcome, score)),
            verdict@ == verdict_on(old(self)@, event_of(*outcome, score)),
            final(self).valid(),
    {
        let ghost e = event_of(*outcome, score);
        let ghost v = self@;
        let text = to_chars(outcome.stderr.as_str());
        let syntax_error = syntax_error_in(&text);
        if syntax_error {
            self.syntax_errors = self.syntax_errors + 1;
        }
        let class = classify(outcome);
        let failure = class == Class::Timeout || class == Class::Crash;
        let held = self.keep_only_increasing && match score {
            Some(s) => s <= self.best_score,
            None => false,
        };
        if !failure || held {
            let verdict = Verdict {
                class,
                syntax_error,
                passed_over: failure && held,
                signature: None,
                fresh: false,
            };
            assert(self@ =~= state_after(v, e));
            return verdict;
        }
        match score {
            Some(s) => {
                if s > self.best_score {
                    self.best_score = s;
                }
            },
            None => {},
        }
        if class == Class::Timeout {
            self.timeouts = self.timeouts + 1;
        }
        let signature = crash_signature(outcome.stderr.as_str());
        let fresh = !self.has_seen(signature.as_str());
        if fresh {
            let ghost before = views(self.seen@);
            self.seen.push(signature.clone());
            assert(views(self.seen@) =~= before.push(signature@));
            if class == Class::Crash {
                assert(self.crashes < self.seen.len());
                self.crashes = self.crashes + 1;
            }
        }
        assert(self@ =~= state_after(v, e));
        Verdict { class, syntax_error, passed_over: false, signature: Some(signature), fresh }
    }

    /// The progress line for iteration `iter`.
    pub fn progress_line(&self, iter: u64) -> (r: String)
        ensures
            r@ == progress_text(iter as nat, self@),
    {
        let mut out: Vec<char> = Vec::new();
        push_str(&mut out, "iter ");
        push_decimal(&mut out, iter);
        push_str(&mut out, " | ");
        self.push_counters(&mut out);
        from_chars(&out)
    }

    /// The line that sums up a session.
    pub fn summary_line(&self) -> (r: String)
        ensures
            r@ == counters_text(self@),
    {
        let mut out: Vec<char> = Vec::new();
        self.push_counters(&mut out);
        from_chars(&out)
    }

    fn push_counters(&self, out: &mut Vec<char>)
        ensures
            final(out)@ == old(out)@ + counters_text(self@),
    {
        push_str(out, "syntax=");
        push_decimal(out, self.syntax_errors as u64);
        push_str(out, " unique_crashes=");
        push_decimal(out, self.crashes as u64);
        push_str(out, " timeouts=");
        push_decimal(out, self.timeouts as u64);
        assert(out@ =~= old(out)@ + counters_text(self@));
    }
}

/// Whether progress is reported at iteration `iter`: at every hundredth,
/// starting with iteration 0.
pub fn reports_progress(iter: u64) -> (b: bool)
    ensures
        b == (iter % 100 == 0),
{
    iter % 100 == 0
}

/// The name, without its ending, of the two files that record a run:
/// the kind, the iteration, and the first 8 characters of the signature.
pub fn artifact_stem(class: Class, iter: u64, signature: &str) -> (r: String)
    ensures
        r@ == stem_of(kind_word(class), iter as nat, signature@),
{
    let mut out: Vec<char> = Vec::new();
    if class == Class::Timeout {
        push_str(&mut out, "timeout");
    } else {
        push_str(&mut out, "crash");
    }
    push_str(&mut out, "_iter");
    push_decimal(&mut out, iter);
    push_str(&mut out, "_sig");
    let sig = to_chars(signature);
    let ghost head = out@;
    let mut i: usize = 0;
    while i < sig.len() && i < 8
        invariant
            i <= sig.len(),
            i <= 8,
            out@ == head + sig@.take(i as int),
        decreases sig.len() - i,
    {
        out.push(sig[i]);
        i += 1;
    }
    assert(sig@.take(i as int) == first_chars(signature@, 8)) by {
        if sig.len() <= 8 {
            assert(sig@.take(sig.len() as int) == sig@);
        }
    }
    from_chars(&out)
}

/// The names of the two files that record a run: the program and the error
/// text.
pub fn artifact_names(class: Class, iter: u64, signature: &str) -> (r: (String, String))
    ensures
        r.0@ == stem_of(kind_word(class), iter as nat, signature@) + ".js"@,
        r.1@ == stem_of(kind_word(class), iter as nat, signature@) + ".stderr.txt"@,
{
    let stem = artifact_stem(class, iter, signature);
    let mut program = to_chars(stem.as_str());
    push_str(&mut program, ".js");
    let mut errors = to_chars(stem.as_str());
    push_str(&mut errors, ".stderr.txt");
    (from_chars(&program), from_chars(&errors))
}

/// The state after a session of runs, from the first to the last.
pub open spec fn state_after_all(v: TriageView, events: Seq<Event>) -> TriageView
    decreases events.len(),
{
    if events.len() == 0 {
        v
    } else {
        state_after(state_after_all(v, events.drop_last()), events.last())
    }
}

/// How many runs of a session were fresh, that is, recorded.
pub open spec fn recorded(v: TriageView, events: Seq<Event>) -> nat
    decreases events.len(),
{
    if events.len() == 0 {
        0
    } else {
        let before = state_after_all(v, events.drop_last());
        recorded(v, events.drop_last()) + if verdict_on(before, events.last()).fresh {
            1nat
        } else {
            0nat
        }
    }
}

/// The signatures of the runs of a session that were interesting when they
/// were met.
pub open spec fn interesting_signatures(v: TriageView, events: Seq<Event>) -> Set<Seq<char>>
    decreases events.len(),
{
    if events.len() == 0 {
        Set::empty()
    } else {
        let before = state_after_all(v, events.drop_last());
        let earlier = interesting_signatures(v, events.drop_last());
        if is_interesting(before, events.last()) {
            earlier.insert(signature_of(events.last().stderr))
        } else {
            earlier
        }
    }
}

/// A run never takes a signature away, and keeps each one once: the
/// signatures seen before are the first ones seen after, and a new one is
/// added only by a fresh verdict.
pub proof fn lemma_seen_grows(v: TriageView, e: Event)
    requires
        v.seen.no_duplicates(),
    ensures
        state_after(v, e).seen.no_duplicates(),
        v.seen.is_prefix_of(state_after(v, e).seen),
        verdict_on(v, e).fresh ==> state_after(v, e).seen == v.seen.push(signature_of(e.stderr))
            && !v.seen.contains(signature_of(e.stderr)),
        !verdict_on(v, e).fresh ==> state_after(v, e).seen == v.seen,
{
}

/// In a session that starts with nothing seen, the number of runs recorded
/// is the number of distinct signatures of its interesting runs, and those
/// are the signatures seen at its end.
pub proof fn lemma_one_record_per_signature(v: TriageView, events: Seq<Event>)
    requires
        v.seen.len() == 0,
    ensures
        state_after_all(v, events).seen.no_duplicates(),
        state_after_all(v, events).seen.to_set() == interesting_signatures(v, events),
        interesting_signatures(v, events).finite(),
        recorded(v, events) == interesting_signatures(v, events).len(),
        recorded(v, events) == state_after_all(v, events).seen.len(),
    decreases events.len(),
{
    broadcast use vstd::seq_lib::group_seq_properties;

    if events.len() == 0 {
        assert(v.seen.to_set() =~= Set::<Seq<char>>::empty());
    } else {
        lemma_one_record_per_signature(v, events.drop_last());
        let before = state_after_all(v, events.drop_last());
        let e = events.last();
        let after = state_after(before, e);
        let sig = signature_of(e.stderr);
        lemma_seen_grows(before, e);
        if is_interesting(before, e) {
            if before.seen.contains(sig) {
                assert(before.seen.to_set().insert(sig) =~= before.seen.to_set());
            } else {
                before.seen.lemma_push_to_set_commute(sig);
            }
        }
        assert(after.seen.to_set() =~= interesting_signatures(v, events));
        after.seen.unique_seq_to_set();
        vstd::seq_lib::seq_to_set_is_finite(after.seen);
    }
}

/// Triage of the same run twice in a row: the second verdict names the same
/// class as the first, it is never fresh, and it leaves the signatures as
/// the first left them. Where scores hold nothing back, the second verdict
/// also carries the signature of the first.
pub proof fn lemma_second_look_is_stale(v: TriageView, e: Event)
    ensures
        verdict_on(state_after(v, e), e).class == verdict_on(v, e).class,
        !verdict_on(state_after(v, e), e).fresh,
        state_after(state_after(v, e), e).seen == state_after(v, e).seen,
        !v.keep_only_increasing ==> verdict_on(state_after(v, e), e).signature == verdict_on(
            v,
            e,
        ).signature,
{
    let once = state_after(v, e);
    let sig = signature_of(e.stderr);
    if is_interesting(v, e) {
        if !v.seen.contains(sig) {
            assert(once.seen == v.seen.push(sig));
            assert(once.seen[v.seen.len() as int] == sig);
        }
        assert(once.seen.contains(sig)) by {
            if v.seen.contains(sig) {
                assert(once.seen == v.seen);
            }
        }
    }
}

} // verus!
