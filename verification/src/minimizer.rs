//! Shrinking a program line by line.
//!
//! The reducer tries to drop one line after the other. A caller runs each
//! candidate and says whether it still shows what the program showed; a
//! line whose removal keeps that is gone for good.
use crate::engine::RunOutcome;
use crate::error::FuzzError;
use crate::pattern::captured;
use crate::score::{capped, score_of, score_with_regex, Scorer};
use crate::text::{
    buffers, free_of, from_chars, join_lines, join_with_newline, lemma_join_split,
    lemma_split_join, lemma_split_lines_shape, push_chars, split_lines, split_on_newline, to_chars,
};
use vstd::prelude::*;

verus! {

/// A reduction in progress: the lines still kept, and the index of the line
/// to try next.
pub struct Reducer {
    pub lines: Vec<Vec<char>>,
    pub index: usize,
}

/// `kept` is what is left of `from` when only the lines at the indices
/// `picks` are kept, in their order.
pub open spec fn selects(picks: Seq<int>, from: Seq<Seq<char>>, kept: Seq<Seq<char>>) -> bool {
    &&& picks.len() == kept.len()
    &&& forall|k: int|
        0 <= k < picks.len() ==> 0 <= #[trigger] picks[k] < from.len() && kept[k] == from[picks[k]]
    &&& forall|j: int, k: int| 0 <= j < k < picks.len() ==> picks[j] < picks[k]
}

/// `kept` is a selection of the lines of `from`, in their order, and not
/// empty.
pub open spec fn is_selection(from: Seq<Seq<char>>, kept: Seq<Seq<char>>) -> bool {
    kept.len() >= 1 && exists|picks: Seq<int>| selects(picks, from, kept)
}

/// What the reducer leaves of `lines`, trying from line `index` on.
/// `verdict` says of each candidate whether it still shows the failure, or
/// `None` where running it fails; the reduction then fails as well.
pub open spec fn reduced(
    lines: Seq<Seq<char>>,
    index: int,
    verdict: spec_fn(Seq<char>) -> Option<bool>,
) -> Option<Seq<Seq<char>>>
    decreases 2 * lines.len() - index,
{
    if 0 <= index < lines.len() && lines.len() > 1 {
        match verdict(join_lines(lines.remove(index))) {
            Some(keeps) => if keeps {
                reduced(lines.remove(index), index, verdict)
            } else {
                reduced(lines, index + 1, verdict)
            },
            None => None,
        }
    } else {
        Some(lines)
    }
}

/// The program that comes of `prog`: what the reducer leaves of its lines,
/// or `prog` itself where the reduction fails.
pub open spec fn minimized(prog: Seq<char>, verdict: spec_fn(Seq<char>) -> Option<bool>) -> Seq<
    char,
> {
    match reduced(split_lines(prog), 0, verdict) {
        Some(kept) => join_lines(kept),
        None => prog,
    }
}

/// The verdict on each candidate is the one that `verdict` gives: `None`
/// where running it fails, else what `same_bug` says of its error text.
pub open spec fn decided_by<R: Fn(&str) -> Result<RunOutcome, FuzzError>, F: Fn(&str) -> bool>(
    run: R,
    same_bug: F,
    verdict: spec_fn(Seq<char>) -> Option<bool>,
) -> bool {
    forall|candidate: &str, result: Result<RunOutcome, FuzzError>|
        #[trigger] call_ensures(run, (candidate,), result) ==> match result {
            Ok(outcome) => forall|stderr: &str, same: bool|
                stderr@ == outcome.stderr@ && #[trigger] call_ensures(same_bug, (stderr,), same)
                    ==> verdict(candidate@) == Some(same),
            Err(_) => verdict(candidate@) is None,
        }
}

/// The score that the expression of `pattern` finds in the two streams of
/// a run.
pub open spec fn streams_score(pattern: Seq<char>, stdout: Seq<char>, stderr: Seq<char>) -> u64 {
    capped(score_of(captured(pattern, stdout)) + score_of(captured(pattern, stderr)))
}

/// The verdict on each candidate is the one that `verdict` gives: `None`
/// where running it fails, else whether the score of its two streams
/// reaches `target`.
pub open spec fn scored_by<R: Fn(&str) -> Result<RunOutcome, FuzzError>>(
    run: R,
    pattern: Seq<char>,
    target: u64,
    verdict: spec_fn(Seq<char>) -> Option<bool>,
) -> bool {
    forall|candidate: &str, result: Result<RunOutcome, FuzzError>|
        #[trigger] call_ensures(run, (candidate,), result) ==> match result {
            Ok(outcome) => verdict(candidate@) == Some(
                streams_score(pattern, outcome.stdout@, outcome.stderr@) >= target,
            ),
            Err(_) => verdict(candidate@) is None,
        }
}

/// Where every candidate still shows the failure, the last line alone is
/// left.
pub proof fn lemma_all_kept_leaves_last_line(
    lines: Seq<Seq<char>>,
    verdict: spec_fn(Seq<char>) -> Option<bool>,
)
    requires
        lines.len() >= 1,
        forall|candidate: Seq<char>| #[trigger] verdict(candidate) == Some(true),
    ensures
        reduced(lines, 0, verdict) == Some(seq![lines.last()]),
    decreases lines.len(),
{
    if lines.len() > 1 {
        assert(verdict(join_lines(lines.remove(0))) == Some(true));
        assert(lines.remove(0).last() == lines.last());
        lemma_all_kept_leaves_last_line(lines.remove(0), verdict);
    } else {
        assert(lines =~= seq![lines.last()]);
    }
}

/// Rising indices below `n` are at most `n` many.
pub proof fn lemma_picks_bounded(picks: Seq<int>, n: int)
    requires
        0 <= n,
        forall|k: int| 0 <= k < picks.len() ==> 0 <= #[trigger] picks[k] < n,
        forall|j: int, k: int| 0 <= j < k < picks.len() ==> picks[j] < picks[k],
    ensures
        picks.len() <= n,
        forall|k: int| 0 <= k < picks.len() ==> k <= #[trigger] picks[k],
    decreases picks.len(),
{
    if picks.len() > 0 {
        let shorter = picks.drop_last();
        assert forall|k: int| 0 <= k < shorter.len() implies 0 <= #[trigger] shorter[k] < n by {
            assert(shorter[k] == picks[k]);
        }
        assert forall|j: int, k: int| 0 <= j < k < shorter.len() implies shorter[j]
            < shorter[k] by {
            assert(shorter[j] == picks[j]);
            assert(shorter[k] == picks[k]);
        }
        lemma_picks_bounded(shorter, n);
        let last = picks.len() - 1;
        assert forall|k: int| 0 <= k < picks.len() implies k <= #[trigger] picks[k] by {
            if k < last {
                assert(shorter[k] == picks[k]);
            } else if k > 0 {
                assert(shorter[k - 1] == picks[k - 1]);
                assert(picks[k - 1] < picks[k]);
            }
        }
        assert(last <= picks[last]);
        assert(picks[last] < n);
    }
}

/// A copy of the lines without line `skip`.
fn without(lines: &Vec<Vec<char>>, skip: usize) -> (r: Vec<Vec<char>>)
    requires
        skip < lines.len(),
    ensures
        buffers(r@) == buffers(lines@).remove(skip as int),
{
    let mut out: Vec<Vec<char>> = Vec::new();
    let mut i: usize = 0;
    while i < lines.len()
        invariant
            i <= lines.len(),
            skip < lines.len(),
            out@.len() == if i <= skip {
                i as int
            } else {
                i - 1
            },
            forall|k: int| 0 <= k < out@.len() ==> (#[trigger] out@[k])@ == if k < skip {
                lines@[k]@
            } else {
                lines@[k + 1]@
            },
        decreases lines.len() - i,
    {
        if i != skip {
            let mut copy: Vec<char> = Vec::new();
            push_chars(&mut copy, &lines[i]);
            out.push(copy);
        }
        i += 1;
    }
    assert(buffers(out@) =~= buffers(lines@).remove(skip as int));
    out
}

impl Reducer {
    /// There is a line, and no line holds a line feed.
    pub open spec fn wf(&self) -> bool {
        &&& self.lines@.len() >= 1
        &&& forall|k: int| 0 <= k < self.lines@.len() ==> free_of(#[trigger] self.lines@[k]@, '\n')
    }

    /// The lines still kept.
    pub open spec fn kept(&self) -> Seq<Seq<char>> {
        buffers(self.lines@)
    }

    /// There is a line left to try: the index is within the lines, and more
    /// than one line is kept.
    pub open spec fn pending(&self) -> bool {
        self.index < self.lines@.len() && self.lines@.len() > 1
    }

    /// The reduction of `prog` at its start: all lines kept, the first one
    /// to be tried.
    pub fn new(prog: &str) -> (r: Reducer)
        ensures
            r.wf(),
            r.kept() == split_lines(prog@),
            r.index == 0,
    {
        let s = to_chars(prog);
        let lines = split_on_newline(&s);
        proof {
            lemma_split_lines_shape(s@);
            assert forall|k: int| 0 <= k < lines@.len() implies free_of(
                #[trigger] lines@[k]@,
                '\n',
            ) by {
                assert(buffers(lines@)[k] == lines@[k]@);
            }
        }
        Reducer { lines, index: 0 }
    }

    /// The program to try next: the kept lines without the line at the
    /// index. `None` when the index is past the last line, or a single line
    /// is left.
    pub fn candidate(&self) -> (r: Option<String>)
        ensures
            r is Some <==> self.pending(),
            r matches Some(c) ==> c@ == join_lines(self.kept().remove(self.index as int)),
    {
        if self.index < self.lines.len() && self.lines.len() > 1 {
            let rest = without(&self.lines, self.index);
            let text = join_with_newline(&rest);
            Some(from_chars(&text))
        } else {
            None
        }
    }

    /// The candidate still shows the failure: the line at the index is
    /// dropped, and the line that takes its place is tried next.
    pub fn accept(&mut self)
        requires
            old(self).wf(),
            old(self).pending(),
        ensures
            final(self).wf(),
            final(self).kept() == old(self).kept().remove(old(self).index as int),
            final(self).index == old(self).index,
    {
        let ghost before = self.lines@;
        let _ = self.lines.remove(self.index);
        proof {
            assert(buffers(self.lines@) =~= buffers(before).remove(self.index as int));
            assert forall|k: int| 0 <= k < self.lines@.len() implies free_of(
                #[trigger] self.lines@[k]@,
                '\n',
            ) by {
                if k < self.index {
                    assert(self.lines@[k] == before[k]);
                } else {
                    assert(self.lines@[k] == before[k + 1]);
                }
            }
        }
    }

    /// The candidate does not show the failure: the line stays, and the
    /// next one is tried.
    pub fn reject(&mut self)
        requires
            old(self).pending(),
        ensures
            final(self).lines == old(self).lines,
            final(self).index == old(self).index + 1,
    {
        assert(self.index < self.lines.len());
        self.index = self.index + 1;
    }

    /// The kept lines as a program.
    pub fn program(&self) -> (r: String)
        ensures
            r@ == join_lines(self.kept()),
    {
        let text = join_with_newline(&self.lines);
        from_chars(&text)
    }
}

/// Dropping one kept line leaves a selection of the same lines.
pub proof fn lemma_selection_shrinks(
    picks: Seq<int>,
    from: Seq<Seq<char>>,
    kept: Seq<Seq<char>>,
    i: int,
)
    requires
        selects(picks, from, kept),
        0 <= i < kept.len(),
    ensures
        selects(picks.remove(i), from, kept.remove(i)),
{
    let fewer = picks.remove(i);
    assert forall|k: int| 0 <= k < fewer.len() implies 0 <= #[trigger] fewer[k] < from.len()
        && kept.remove(i)[k] == from[fewer[k]] by {
        if k < i {
            assert(fewer[k] == picks[k]);
        } else {
            assert(fewer[k] == picks[k + 1]);
        }
    }
    assert forall|j: int, k: int| 0 <= j < k < fewer.len() implies fewer[j] < fewer[k] by {
        let a = if j < i {
            j
        } else {
            j + 1
        };
        let b = if k < i {
            k
        } else {
            k + 1
        };
        assert(fewer[j] == picks[a]);
        assert(fewer[k] == picks[b]);
    }
}

/// All lines are a selection of themselves.
pub proof fn lemma_selection_whole(from: Seq<Seq<char>>)
    ensures
        selects(Seq::new(from.len(), |k: int| k), from, from),
{
}

/// Shrinks `prog` while the failure stays the same.
///
/// `run` runs a candidate; `same_bug` reads the error text of the run and
/// says whether it shows the failure. From the first line on, each line is
/// dropped if the program without it still shows the failure. Should a run
/// fail, `prog` is returned as it is.
pub fn minimize_by<R, F>(prog: &str, run: R, same_bug: F) -> (m: String) where
    R: Fn(&str) -> Result<RunOutcome, FuzzError>,
    F: Fn(&str) -> bool,

    requires
        forall|candidate: &str| call_requires(run, (candidate,)),
        forall|stderr: &str| call_requires(same_bug, (stderr,)),
    ensures
        is_selection(split_lines(prog@), split_lines(m@)),
        split_lines(m@).len() <= split_lines(prog@).len(),
        m@ == prog@ || exists|candidate: &str, outcome: RunOutcome, stderr: &str|
            candidate@ == m@ && call_ensures(
                run,
                (candidate,),
                Ok::<RunOutcome, FuzzError>(outcome),
            )
                && stderr@ == outcome.stderr@ && call_ensures(same_bug, (stderr,), true),
        forall|verdict: spec_fn(Seq<char>) -> Option<bool>|
            decided_by(run, same_bug, verdict) ==> m@ == #[trigger] minimized(prog@, verdict),
{
    let mut reducer = Reducer::new(prog);
    let ghost origin = split_lines(prog@);
    let ghost mut picks: Seq<int> = Seq::new(origin.len(), |k: int| k);
    proof {
        lemma_selection_whole(origin);
        lemma_join_split(prog@);
        lemma_split_lines_shape(prog@);
    }
    loop
        invariant
            forall|candidate: &str| call_requires(run, (candidate,)),
            forall|stderr: &str| call_requires(same_bug, (stderr,)),
            origin == split_lines(prog@),
            origin.len() >= 1,
            join_lines(origin) == prog@,
            reducer.wf(),
            selects(picks, origin, reducer.kept()),
            join_lines(reducer.kept()) == prog@ || exists|
                candidate: &str,
                outcome: RunOutcome,
                stderr: &str,
            |
                candidate@ == join_lines(reducer.kept()) && call_ensures(
                    run,
                    (candidate,),
                    Ok::<RunOutcome, FuzzError>(outcome),
                ) && stderr@ == outcome.stderr@ && call_ensures(same_bug, (stderr,), true),
            forall|verdict: spec_fn(Seq<char>) -> Option<bool>|
                decided_by(run, same_bug, verdict) ==> #[trigger] reduced(origin, 0, verdict)
                    == reduced(reducer.kept(), reducer.index as int, verdict),
        ensures
            !reducer.pending(),
        decreases 2 * reducer.lines@.len() - reducer.index,
    {
        let candidate = match reducer.candidate() {
            Some(c) => c,
            None => {
                break;
            },
        };
        let text = candidate.as_str();
        let result = run(text);
        let outcome = match result {
            Ok(outcome) => outcome,
            Err(_) => {
                proof {
                    lemma_selection_whole(origin);
                    assert(is_selection(origin, origin));
                    assert forall|verdict: spec_fn(Seq<char>) -> Option<bool>|
                        decided_by(run, same_bug, verdict) implies prog@ == #[trigger] minimized(
                        prog@,
                        verdict,
                    ) by {
                        assert(call_ensures(run, (text,), result));
                        assert(verdict(candidate@) is None);
                        assert(reduced(reducer.kept(), reducer.index as int, verdict) is None);
                        assert(reduced(origin, 0, verdict) is None);
                    }
                }
                return prog.to_owned();
            },
        };
        let errors = outcome.stderr.as_str();
        let same = same_bug(errors);
        proof {
            assert forall|verdict: spec_fn(Seq<char>) -> Option<bool>|
                decided_by(run, same_bug, verdict) implies verdict(candidate@) == Some(same) by {
                assert(call_ensures(run, (text,), result));
                assert(call_ensures(same_bug, (errors,), same));
            }
        }
        if same {
            proof {
                lemma_selection_shrinks(picks, origin, reducer.kept(), reducer.index as int);
                picks = picks.remove(reducer.index as int);
            }
            reducer.accept();
        } else {
            reducer.reject();
        }
    }
    proof {
        lemma_split_join(reducer.kept());
        lemma_picks_bounded(picks, origin.len() as int);
        assert forall|verdict: spec_fn(Seq<char>) -> Option<bool>|
            decided_by(run, same_bug, verdict) implies join_lines(reducer.kept())
            == #[trigger] minimized(prog@, verdict) by {
            assert(reduced(origin, 0, verdict) == reduced(
                reducer.kept(),
                reducer.index as int,
                verdict,
            ));
        }
    }
    reducer.program()
}

/// Shrinks `prog` while its score stays at `target_score` or above.
///
/// `run` makes a scoring run of a candidate; `scorer` finds the score in the
/// two streams of the run. From the first line on, each line is dropped if
/// the program without it scores at least `target_score`. Should a run
/// fail, `prog` is returned as it is.
pub fn minimize_preserving_coverage<R>(
    prog: &str,
    run: R,
    scorer: &Scorer,
    target_score: u64,
) -> (m: String) where R: Fn(&str) -> Result<RunOutcome, FuzzError>
    requires
        forall|candidate: &str| call_requires(run, (candidate,)),
    ensures
        is_selection(split_lines(prog@), split_lines(m@)),
        split_lines(m@).len() <= split_lines(prog@).len(),
        m@ == prog@ || exists|candidate: &str, outcome: RunOutcome|
            candidate@ == m@ && call_ensures(
                run,
                (candidate,),
                Ok::<RunOutcome, FuzzError>(outcome),
            )
                && streams_score(scorer.pattern(), outcome.stdout@, outcome.stderr@)
                >= target_score,
        forall|verdict: spec_fn(Seq<char>) -> Option<bool>|
            scored_by(run, scorer.pattern(), target_score, verdict) ==> m@
                == #[trigger] minimized(prog@, verdict),
{
    let mut reducer = Reducer::new(prog);
    let ghost origin = split_lines(prog@);
    let ghost pattern = scorer.pattern();
    let ghost mut picks: Seq<int> = Seq::new(origin.len(), |k: int| k);
    proof {
        lemma_selection_whole(origin);
        lemma_join_split(prog@);
        lemma_split_lines_shape(prog@);
    }
    loop
        invariant
            forall|candidate: &str| call_requires(run, (candidate,)),
            origin == split_lines(prog@),
            pattern == scorer.pattern(),
            origin.len() >= 1,
            join_lines(origin) == prog@,
            reducer.wf(),
            selects(picks, origin, reducer.kept()),
            join_lines(reducer.kept()) == prog@ || exists|candidate: &str, outcome: RunOutcome|
                candidate@ == join_lines(reducer.kept()) && call_ensures(
                    run,
                    (candidate,),
                    Ok::<RunOutcome, FuzzError>(outcome),
                ) && streams_score(pattern, outcome.stdout@, outcome.stderr@) >= target_score,
            forall|verdict: spec_fn(Seq<char>) -> Option<bool>|
                scored_by(run, pattern, target_score, verdict) ==> #[trigger] reduced(
                    origin,
                    0,
                    verdict,
                ) == reduced(reducer.kept(), reducer.index as int, verdict),
        ensures
            !reducer.pending(),
        decreases 2 * reducer.lines@.len() - reducer.index,
    {
        let candidate = match reducer.candidate() {
            Some(c) => c,
            None => {
                break;
            },
        };
        let text = candidate.as_str();
        let result = run(text);
        let outcome = match result {
            Ok(outcome) => outcome,
            Err(_) => {
                proof {
                    lemma_selection_whole(origin);
                    assert(is_selection(origin, origin));
                    assert forall|verdict: spec_fn(Seq<char>) -> Option<bool>|
                        scored_by(run, pattern, target_score, verdict) implies prog@
                        == #[trigger] minimized(prog@, verdict) by {
                        assert(call_ensures(run, (text,), result));
                        assert(verdict(candidate@) is None);
                        assert(reduced(reducer.kept(), reducer.index as int, verdict) is None);
                        assert(reduced(origin, 0, verdict) is None);
                    }
                }
                return prog.to_owned();
            },
        };
        let score = score_with_regex(outcome.stdout.as_str(), outcome.stderr.as_str(), scorer);
        let enough = score >= target_score;
        proof {
            assert forall|verdict: spec_fn(Seq<char>) -> Option<bool>|
                scored_by(run, pattern, target_score, verdict) implies verdict(candidate@) == Some(
                enough,
            ) by {
                assert(call_ensures(run, (text,), result));
            }
        }
        if enough {
            proof {
                lemma_selection_shrinks(picks, origin, reducer.kept(), reducer.index as int);
                picks = picks.remove(reducer.index as int);
            }
            reducer.accept();
        } else {
            reducer.reject();
        }
    }
    proof {
        lemma_split_join(reducer.kept());
        lemma_picks_bounded(picks, origin.len() as int);
        assert forall|verdict: spec_fn(Seq<char>) -> Option<bool>|
            scored_by(run, pattern, target_score, verdict) implies join_lines(reducer.kept())
            == #[trigger] minimized(prog@, verdict) by {
            assert(reduced(origin, 0, verdict) == reduced(
                reducer.kept(),
                reducer.index as int,
                verdict,
            ));
        }
    }
    reducer.program()
}

} // verus!
