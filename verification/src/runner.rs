//! Convenience entry points over the simulation engine.

use vstd::prelude::*;

use crate::nfa::{nfa_view, State};
use crate::rational::{rat_le, rat_one, Prob, Rat};
use crate::regex::{match_likelihood, spec_match_likelihood};

verus! {

/// What `match_p` returns: an empty automaton matches everything with
/// certainty; otherwise the simulator decides.
pub open spec fn spec_match_p(nfa: Seq<crate::nfa::StateV>, input: Seq<char>) -> Option<Rat> {
    if nfa.len() == 0 {
        Some(rat_one())
    } else {
        spec_match_likelihood(nfa, input)
    }
}

/// The likelihood of `string` under the automaton; an empty automaton
/// yields certainty.
pub fn match_p(nfa: &Vec<State>, string: &str) -> (r: Option<Prob>)
    requires
        nfa@.len() < usize::MAX,
    ensures
        match r {
            Some(p) => spec_match_p(nfa_view(nfa@), string@) == Some(p@),
            None => spec_match_p(nfa_view(nfa@), string@) is None,
        },
{
    if nfa.len() == 0 {
        return Some(Prob::one());
    }
    match_likelihood(nfa, string)
}

/// Whether the automaton matches the string with full certainty: the
/// likelihood exists and is at least one.
pub fn matches(nfa: &Vec<State>, string: &str) -> (r: bool)
    requires
        nfa@.len() < usize::MAX,
    ensures
        r == match spec_match_p(nfa_view(nfa@), string@) {
            Some(p) => rat_le(rat_one(), p),
            None => false,
        },
{
    match match_p(nfa, string) {
        Some(p) => p.ge_one(),
        None => false,
    }
}

} // verus!
