use vstd::prelude::*;

pub mod body;
pub mod frame;
pub mod laws;
pub mod lexical;
pub mod paths;
pub mod source;
pub mod statements;
pub mod syntax_tree;

use crate::statements::{historical_options, spec_syntax_tree, syntax_tree, ParseOptions};
use crate::syntax_tree::SyntaxTree;

verus! {

broadcast use vstd::string::group_string_axioms;

/// The characters of `input`, in order.
pub fn to_chars(input: &str) -> (r: Vec<char>)
    ensures
        r@ == input@,
{
    let mut v: Vec<char> = Vec::new();
    for c in it: input.chars()
        invariant
            it.seq() == input@,
            v@ == input@.subrange(0, it.index() as int),
    {
        proof {
            assert(input@.subrange(0, it.index() + 1) =~= v@.push(c));
        }
        v.push(c);
    }
    assert(v@ =~= input@);
    v
}

/// The message of every parse failure.
pub open spec fn parse_error_message() -> Seq<char> {
    "Could not parse correctly."@
}

/// Parses a whole program under the given options: all of `input` must be
/// statements and whitespace.
pub fn parse_with_options(input: &str, options: &ParseOptions) -> (r: Result<SyntaxTree, String>)
    ensures
        match r {
            Ok(t) => spec_syntax_tree(input@, *options) == Some(t@) && t.wf(),
            Err(e) => spec_syntax_tree(input@, *options) is None && e@ == parse_error_message(),
        },
{
    let chars = to_chars(input);
    match syntax_tree(chars.as_slice(), options) {
        Some(t) => Ok(t),
        None => Err(String::from_str("Could not parse correctly.")),
    }
}

/// Parses a whole program, reading `provider` declarations as `.land` files
/// have always been read.
pub fn parse(input: &str) -> (r: Result<SyntaxTree, String>)
    ensures
        match r {
            Ok(t) => spec_syntax_tree(input@, historical_options()) == Some(t@) && t.wf(),
            Err(e) => spec_syntax_tree(input@, historical_options()) is None && e@
                == parse_error_message(),
        },
{
    parse_with_options(input, &ParseOptions::historical())
}

} // verus!
