//! A small finite-automaton engine: a textual rule language is parsed into rules,
//! the rules are compiled into a graph of states whose edges carry boolean
//! predicates, and the graph is walked against an input context to an
//! `Accepted` or `Rejected` verdict.
//!
//! The language:
//!
//! ```text
//! #[input(AutomatonContext)]
//! #[init(0)]
//! #[ends(3)]
//! 0 -> 1: eat("a");
//! 0 -> 2: _;
//! 2 -> 3: (eat("b") || eat("c")) && eat("d")
//! ```
//!
//! `input` optionally names the context type, `init` the initial state and
//! `ends` the final states; each rule is an edge `from -> to : predicate`,
//! where `_` alone makes an epsilon edge and a predicate combines named checks
//! (`name` or `name("arg", ...)`) and `_` with `&&`, `||` and parentheses.
//! The checks are resolved when the automaton runs, by a `Checks` set for the
//! context type; `EatCheck` provides `eat("...")` on an `AutomatonContext`.
//! A run tries the edges of the current state in the order of the rules and
//! takes the first whose predicate holds; a state entered once the input is
//! used up accepts exactly when it is final.
use vstd::prelude::*;
use vstd::string::StringSliceAdditionalSpecFns;

pub mod context;
pub mod graph;
pub mod lexer;
pub mod parse;
pub mod runtime;
pub mod transfer_fn;

pub use context::{AutomatonContext, Checks, EatCheck, Exhausted};
pub use graph::{Automaton, AutomatonType, BuildError};
pub use parse::{Body, ParseError};
pub use runtime::AutomatonResult;

use graph::{build_fails_with, buildable, built};
use parse::parse_text;

verus! {

/// Why a specification text gives no automaton.
#[derive(Clone, Copy, PartialEq, Eq, Debug)]
pub enum SpecError {
    Parse(ParseError),
    Build(BuildError),
}

/// Parses the text of a specification and builds its automaton.
pub fn rustomaton(text: &str) -> (r: Result<Automaton, SpecError>)
    ensures
        match parse_text(text.spec_bytes()) {
            Err(e) => r == Err::<Automaton, SpecError>(SpecError::Parse(e)),
            Ok(b) => match r {
                Ok(a) => buildable(b) && a@ == built(b) && a@.wf(),
                Err(SpecError::Build(e)) => !buildable(b) && build_fails_with(b, e),
                Err(SpecError::Parse(_)) => false,
            },
        },
{
    match Body::parse(text) {
        Err(e) => Err(SpecError::Parse(e)),
        Ok(body) => match Automaton::new(&body) {
            Ok(a) => Ok(a),
            Err(e) => Err(SpecError::Build(e)),
        },
    }
}

} // verus!
