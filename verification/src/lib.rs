//! Parse command lines the way the platform's shell conventions do.
//!
//! Two tokenizer engines split a single command-line string into arguments,
//! honoring the quoting and escaping rules of their shell family and
//! reporting, for each argument, the byte range of the raw input that
//! produced it. Malformed input (an unterminated quote, a trailing escape)
//! is tolerated: the scanner closes the construct implicitly instead of
//! failing, so partially typed lines still tokenize.

use vstd::prelude::*;

pub mod chars;
pub mod unix;
pub mod windows;

pub use unix::Parser;

verus! {

/// The text that results from resolving `cs` as one single argument:
/// quoting and escaping are interpreted, but no separator splits it.
pub open spec fn single_spec(cs: Seq<char>) -> Seq<char> {
    match unix::spec_next(cs, Seq::<char>::empty(), 0) {
        Option::None => Seq::<char>::empty(),
        Option::Some(t) => t.2,
    }
}

/// Parse the given string as a single argument.
///
/// Resolves quoting and escaping, but does not split arguments.
pub fn parse_single(argument: &str) -> (r: String)
    ensures
        r@ == single_spec(argument@),
{
    let mut parser = Parser::new(argument);
    let no_separators: Vec<char> = Vec::new();
    parser.set_separators(no_separators.as_slice());
    match parser.next() {
        Option::Some(t) => t.1,
        Option::None => String::new(),
    }
}

/// Law: the single-argument convenience operation round-trips one token of
/// the Unix engine. Resolving the raw span that produced a token, with no
/// separators configured, yields exactly that token's resolved text.
pub proof fn lemma_single_round_trip(cs: Seq<char>, seps: Seq<char>, i: int)
    requires
        0 <= i <= cs.len(),
        unix::spec_next(cs, seps, i) is Some,
    ensures
        ({
            let t = unix::spec_next(cs, seps, i)->Some_0;
            &&& 0 <= t.0 <= t.1 <= cs.len()
            &&& single_spec(cs.subrange(t.0, t.1)) == t.2
        }),
{
    unix::lemma_token_round_trip(cs, seps, i);
}

} // verus!
