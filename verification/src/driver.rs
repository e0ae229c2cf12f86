//! One iteration of the fuzzer, as far as it computes: from seeds to a
//! program, and the choices around minimization.
use crate::concretizer::{concretizes, Concretizer};
use crate::error::FuzzError;
use crate::extractor::{is_template_of, Extractor};
use crate::mutator::{fused, is_mutation, Mutator};
use crate::template::hole_free;
use crate::text::{same_text, to_chars, views};
use crate::triage::Class;
use rand::rngs::StdRng;
use vstd::prelude::*;

verus! {

/// What the minimizer preserves.
#[derive(Debug, Clone, Copy, PartialEq, Eq, Structural)]
pub enum MinimizeBy {
    /// The signature of the failure.
    Signature,
    /// The score of the program.
    Coverage,
}

/// The path names a seed file: its last component has the extension `js`.
/// It ends in `.js`, and something other than a `/` stands before the dot.
pub open spec fn is_seed_name(path: Seq<char>) -> bool {
    path.len() > 3 && path[path.len() - 4] != '/' && path.subrange(
        path.len() - 3,
        path.len() as int,
    ) == ".js"@
}

/// The mode that is used: `Coverage` only where it is asked for and scoring
/// is set up.
pub open spec fn effective_mode(mode: MinimizeBy, scoring: bool) -> MinimizeBy {
    if mode == MinimizeBy::Coverage && scoring {
        MinimizeBy::Coverage
    } else {
        MinimizeBy::Signature
    }
}

/// The reduction that a run of this class gets before it is recorded: a
/// crash is reduced in the mode that is used, a run of any other class is
/// recorded as it is.
pub open spec fn reduction_of(class: Class, mode: MinimizeBy, scoring: bool) -> Option<MinimizeBy> {
    if class == Class::Crash {
        Some(effective_mode(mode, scoring))
    } else {
        None
    }
}

impl MinimizeBy {
    /// The mode that a name asks for: `coverage` asks for `Coverage`, every
    /// other name for `Signature`.
    pub fn from_name(name: &str) -> (mode: MinimizeBy)
        ensures
            mode == if name@ == "coverage"@ {
                MinimizeBy::Coverage
            } else {
                MinimizeBy::Signature
            },
    {
        if same_text(name, "coverage") {
            MinimizeBy::Coverage
        } else {
            MinimizeBy::Signature
        }
    }

    /// The mode that is used: `Coverage` only where it is asked for and
    /// scoring is set up.
    pub fn effective(self, scoring: bool) -> (mode: MinimizeBy)
        ensures
            mode == effective_mode(self, scoring),
    {
        if self == MinimizeBy::Coverage && scoring {
            MinimizeBy::Coverage
        } else {
            MinimizeBy::Signature
        }
    }
}

/// The reduction that a run of this class gets before it is recorded.
pub fn reduction_for(class: Class, mode: MinimizeBy, scoring: bool) -> (r: Option<MinimizeBy>)
    ensures
        r == reduction_of(class, mode, scoring),
{
    if class == Class::Crash {
        Some(mode.effective(scoring))
    } else {
        None
    }
}

/// Whether the path names a seed file.
pub fn seed_name(path: &str) -> (b: bool)
    ensures
        b == is_seed_name(path@),
{
    let chars = to_chars(path);
    let n = chars.len();
    proof {
        reveal_strlit(".js");
    }
    if n > 3 && chars[n - 4] != '/' && chars[n - 3] == '.' && chars[n - 2] == 'j' && chars[n - 1]
        == 's' {
        assert(chars@.subrange(n - 3, n as int) =~= ".js"@);
        true
    } else {
        proof {
            if n > 3 {
                let tail = chars@.subrange(n - 3, n as int);
                assert(tail[0] == chars@[n - 3]);
                assert(tail[1] == chars@[n - 2]);
                assert(tail[2] == chars@[n - 1]);
            }
        }
        false
    }
}

/// The paths of seed files among `found`, in order.
pub open spec fn seeds_among(found: Seq<Seq<char>>) -> Seq<Seq<char>>
    decreases found.len(),
{
    if found.len() == 0 {
        Seq::<Seq<char>>::empty()
    } else if is_seed_name(found.last()) {
        seeds_among(found.drop_last()).push(found.last())
    } else {
        seeds_among(found.drop_last())
    }
}

/// The seeds among the files found: those with the extension `js`, in the
/// order found. It is an error to find none.
pub fn select_seeds(found: Vec<String>) -> (r: Result<Vec<String>, FuzzError>)
    ensures
        match r {
            Ok(seeds) => views(seeds@) == seeds_among(views(found@)) && seeds@.len() > 0,
            Err(e) => e is Other && seeds_among(views(found@)).len() == 0,
        },
{
    let mut seeds: Vec<String> = Vec::new();
    let mut i: usize = 0;
    assert(views(found@).take(0) == Seq::<Seq<char>>::empty());
    while i < found.len()
        invariant
            i <= found.len(),
            views(seeds@) == seeds_among(views(found@).take(i as int)),
        decreases found.len() - i,
    {
        let ghost upto = views(found@).take(i + 1);
        assert(upto.drop_last() == views(found@).take(i as int));
        assert(upto.last() == found@[i as int]@);
        let ghost before = views(seeds@);
        if seed_name(found[i].as_str()) {
            seeds.push(found[i].clone());
            assert(views(seeds@) == before.push(found@[i as int]@));
        }
        i += 1;
    }
    assert(views(found@).take(found.len() as int) == views(found@));
    if seeds.len() == 0 {
        Err(FuzzError::Other("no .js seeds found".to_owned()))
    } else {
        Ok(seeds)
    }
}

/// `template` is what the seeds give before mutation: a template of the
/// first seed, fused with a template of the second where there is one.
pub open spec fn is_composition(
    seed: Seq<char>,
    other: Option<Seq<char>>,
    template: Seq<char>,
) -> bool {
    match other {
        Some(text) => exists|a: Seq<char>, b: Seq<char>|
            is_template_of(seed, a) && is_template_of(text, b) && template == fused(a, b),
        None => is_template_of(seed, template),
    }
}

/// `program` is what an iteration can make of the seeds: their composition,
/// mutated once, with all holes filled.
pub open spec fn is_generated(
    seed: Seq<char>,
    other: Option<Seq<char>>,
    program: Seq<char>,
) -> bool {
    exists|template: Seq<char>, mutated: Seq<char>|
        is_composition(seed, other, template) && is_mutation(template, mutated) && concretizes(
            mutated,
            program,
        )
}

/// The view of an optional text.
pub open spec fn text_of_option(other: Option<&str>) -> Option<Seq<char>> {
    match other {
        Some(text) => Some(text@),
        None => None,
    }
}

/// Makes one program: extracts a template from `seed`, fuses it with a
/// template of `other` where there is one, applies one mutation, and fills
/// the holes.
pub fn generate(
    extractor: &Extractor,
    seed: &str,
    other: Option<&str>,
    rng: &mut StdRng,
) -> (program: String)
    requires
        extractor.wf(),
    ensures
        hole_free(program@),
        is_generated(seed@, text_of_option(other), program@),
{
    let first = extractor.extract(seed, rng);
    let template = match other {
        Some(text) => {
            let second = extractor.extract(text, rng);
            let both = Mutator::fuse(&first, &second);
            assert(is_composition(seed@, text_of_option(other), both.source@));
            both
        },
        None => first,
    };
    let mutated = Mutator::mutate(&template, rng);
    let program = Concretizer::concretize(&mutated, rng);
    assert(is_composition(seed@, text_of_option(other), template.source@) && is_mutation(
        template.source@,
        mutated.source@,
    ) && concretizes(mutated.source@, program@));
    program
}

} // verus!
