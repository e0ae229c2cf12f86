//! Template-based generation, triage and reduction of JavaScript test programs.
//!
//! The crate holds the decision logic of a fuzzer for JavaScript engines:
//! turning a seed program into a template with typed holes, mutating and
//! instantiating templates, classifying the outcome of a run, deduplicating
//! failures by a normalized signature, and shrinking a failing program line by
//! line. Running the engine itself is left to the caller.
pub mod ast;
pub mod closure;
pub mod concretizer;
pub mod dataflow;
pub mod driver;
pub mod engine;
pub mod error;
pub mod extractor;
pub mod minimizer;
pub mod mutator;
pub mod pattern;
pub mod random;
pub mod score;
pub mod signature;
pub mod signature_laws;
pub mod template;
pub mod text;
pub mod triage;

pub use concretizer::Concretizer;
pub use engine::{Engine, RunOutcome};
pub use error::FuzzError;
pub use extractor::Extractor;
pub use minimizer::minimize_preserving_coverage;
pub use mutator::Mutator;
pub use score::Scorer;
pub use template::{Placeholder, Template};
