//! Templates: program text with typed holes.
use crate::text::{contains, from_chars};
use vstd::prelude::*;

verus! {

/// The kinds of hole. `Range` is reserved for bounded integers and has no
/// token of its own.
#[derive(Debug, Clone)]
pub enum Placeholder {
    Var,
    Integer,
    CodeStr,
    Range(i64, i64),
}

/// Program text in which hole tokens stand for lexemes still to be chosen,
/// as in `let <var> = <integer>;`.
#[derive(Debug, Clone)]
pub struct Template {
    pub source: String,
}

/// The token of an identifier hole.
pub open spec fn var_token() -> Seq<char> {
    "<var>"@
}

/// The token of an integer hole.
pub open spec fn integer_token() -> Seq<char> {
    "<integer>"@
}

/// The token of a hole for a quoted code snippet.
pub open spec fn code_str_token() -> Seq<char> {
    "<code_str>"@
}

/// The hole tokens, in the order in which they are searched.
pub open spec fn vocabulary() -> Seq<Seq<char>> {
    seq![var_token(), integer_token(), code_str_token()]
}

/// `t` is one of the hole tokens.
pub open spec fn is_token(t: Seq<char>) -> bool {
    t == var_token() || t == integer_token() || t == code_str_token()
}

/// No hole token stands anywhere in `s`.
pub open spec fn hole_free(s: Seq<char>) -> bool {
    !contains(s, var_token()) && !contains(s, integer_token()) && !contains(s, code_str_token())
}

/// The characters of the three tokens.
pub proof fn lemma_token_chars()
    ensures
        var_token() == seq!['<', 'v', 'a', 'r', '>'],
        integer_token() == seq!['<', 'i', 'n', 't', 'e', 'g', 'e', 'r', '>'],
        code_str_token() == seq!['<', 'c', 'o', 'd', 'e', '_', 's', 't', 'r', '>'],
{
    reveal_strlit("<var>");
    reveal_strlit("<integer>");
    reveal_strlit("<code_str>");
    assert(var_token() =~= seq!['<', 'v', 'a', 'r', '>']);
    assert(integer_token() =~= seq!['<', 'i', 'n', 't', 'e', 'g', 'e', 'r', '>']);
    assert(code_str_token() =~= seq!['<', 'c', 'o', 'd', 'e', '_', 's', 't', 'r', '>']);
}

impl Template {
    /// The template whose text is `src`.
    pub fn from_source(src: &str) -> (t: Self)
        ensures
            t.source@ == src@,
    {
        Template { source: src.to_owned() }
    }

    /// The template whose text is held in `chars`.
    pub fn from_chars(chars: &Vec<char>) -> (t: Self)
        ensures
            t.source@ == chars@,
    {
        Template { source: from_chars(chars) }
    }

    /// The hole tokens with their kinds, in search order.
    pub fn tokens() -> (r: Vec<(&'static str, Placeholder)>)
        ensures
            r@.len() == 3,
            r@[0].0@ == var_token() && r@[0].1 == Placeholder::Var,
            r@[1].0@ == integer_token() && r@[1].1 == Placeholder::Integer,
            r@[2].0@ == code_str_token() && r@[2].1 == Placeholder::CodeStr,
            forall|i: int| 0 <= i < 3 ==> (#[trigger] r@[i]).0@ == vocabulary()[i],
    {
        let mut r: Vec<(&'static str, Placeholder)> = Vec::new();
        r.push(("<var>", Placeholder::Var));
        r.push(("<integer>", Placeholder::Integer));
        r.push(("<code_str>", Placeholder::CodeStr));
        r
    }
}

} // verus!
