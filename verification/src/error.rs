//! The error of the library.
use crate::text::{from_chars, push_chars, push_str, signed_decimal, signed_numeral};
use vstd::prelude::*;

verus! {

#[verifier::external_type_specification]
#[verifier::external_body]
pub struct ExIoError(std::io::Error);

/// What can go wrong around a run of the engine.
#[derive(Debug)]
pub enum FuzzError {
    /// The engine ended with this status.
    EngineFailed(i32),
    /// Reading, writing or starting a process failed.
    Io(std::io::Error),
    /// Anything else, in words.
    Other(String),
}

/// `to_string` on a `std::io::Error`: the text that its `Display` writes.
/// The text comes from the operating system, so nothing is promised of it.
#[verifier::external_body]
fn io_text(e: &std::io::Error) -> String {
    e.to_string()
}

/// What the words for a failure of input or output begin with.
pub open spec fn io_prefix() -> Seq<char> {
    "io: "@
}

impl FuzzError {
    /// The error in words: `engine failed with status: ` and the status,
    /// `io: ` and the cause as the system words it, or `other: ` and the
    /// words.
    pub fn message(&self) -> (r: String)
        ensures
            match *self {
                FuzzError::EngineFailed(status) => r@ == "engine failed with status: "@
                    + signed_decimal(status as int),
                FuzzError::Io(_) => io_prefix().is_prefix_of(r@),
                FuzzError::Other(words) => r@ == "other: "@ + words@,
            },
    {
        let mut out: Vec<char> = Vec::new();
        match self {
            FuzzError::EngineFailed(status) => {
                push_str(&mut out, "engine failed with status: ");
                let numeral = signed_numeral(*status as i64);
                push_chars(&mut out, &numeral);
            },
            FuzzError::Io(cause) => {
                push_str(&mut out, "io: ");
                let words = io_text(cause);
                push_str(&mut out, words.as_str());
            },
            FuzzError::Other(words) => {
                push_str(&mut out, "other: ");
                push_str(&mut out, words.as_str());
            },
        }
        from_chars(&out)
    }
}

} // verus!
