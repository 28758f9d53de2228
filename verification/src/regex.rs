//! The simulation engine: weighted state-set advancement over the token
//! frame of an input string.
//!
//! Per token, every active state is evaluated and the resulting
//! transitions are merged into the next active set, keeping the largest
//! weight where several paths reach the same slot (the best-path rule).
//! Visit counts advance after each step and feed the count-indexed
//! quantifier distributions of the following steps.

use vstd::prelude::*;

use crate::ast::{kind_view, Kind, KindV};
use crate::nfa::{nfa_view, State, StateV};
use crate::rational::{Prob, Rat};
use crate::regex_state::{
    apply_transitions, empty_states, evaluate_state, initial_state, spec_apply_transitions,
    spec_evaluate, spec_initial_state, spec_terminal_state_p, spec_tokens, states_seq_view,
    terminal_state_p, Token, Tokens,
};

verus! {

/// The next active set: every active state evaluated against the token,
/// transitions max-merged, beginning from slot `i`.
pub open spec fn spec_step_states_from(
    states: Seq<Option<Rat>>,
    acc: Seq<Option<Rat>>,
    counts: Seq<u64>,
    token: KindV,
    nfa: Seq<StateV>,
    i: int,
) -> Seq<Option<Rat>>
    decreases nfa.len() - i,
{
    if i < 0 || i >= nfa.len() {
        acc
    } else {
        let acc2 = if i < states.len() && states[i] is Some {
            spec_apply_transitions(
                acc,
                spec_evaluate(
                    nfa,
                    counts,
                    Some(i as usize),
                    token,
                    states[i]->Some_0,
                    false,
                    nfa.len() + 1,
                ),
                0,
            )
        } else {
            acc
        };
        spec_step_states_from(states, acc2, counts, token, nfa, i + 1)
    }
}

pub open spec fn spec_step_states(
    states: Seq<Option<Rat>>,
    counts: Seq<u64>,
    token: KindV,
    nfa: Seq<StateV>,
) -> Seq<Option<Rat>> {
    spec_step_states_from(states, empty_states(nfa.len()), counts, token, nfa, 0)
}

/// Advance the active set by one token.
pub fn step_states(
    states: &Vec<Option<Prob>>,
    counts: &Vec<u64>,
    token: &Token,
    nfa: &Vec<State>,
) -> (r: Vec<Option<Prob>>)
    requires
        nfa@.len() < usize::MAX,
    ensures
        states_seq_view(r@) == spec_step_states(
            states_seq_view(states@),
            counts@,
            kind_view(*token),
            nfa_view(nfa@),
        ),
{
    let n = nfa.len();
    let mut next: Vec<Option<Prob>> = Vec::new();
    let mut i: usize = 0;
    while i < n
        invariant
            0 <= i <= n,
            states_seq_view(next@) =~= empty_states(i as nat),
        decreases n - i,
    {
        let ghost pre = next@;
        next.push(None);
        proof {
            crate::regex_state::lemma_push_none(pre, i as nat);
        }
        i = i + 1;
    }
    let ghost target = spec_step_states(
        states_seq_view(states@),
        counts@,
        kind_view(*token),
        nfa_view(nfa@),
    );
    let mut i: usize = 0;
    while i < n
        invariant
            0 <= i <= n,
            n == nfa@.len(),
            nfa@.len() < usize::MAX,
            target == spec_step_states_from(
                states_seq_view(states@),
                states_seq_view(next@),
                counts@,
                kind_view(*token),
                nfa_view(nfa@),
                i as int,
            ),
        decreases n - i,
    {
        let active: Option<Prob> = if i < states.len() {
            states[i]
        } else {
            None
        };
        match active {
            Some(p) => {
                let ts = evaluate_state(nfa, counts, Some(i), token, p, false, n + 1);
                next = apply_transitions(next, &ts);
            },
            None => {},
        }
        i = i + 1;
    }
    next
}

/// The visit counts after a step: one more for every active state with a
/// positive weight; counts saturate at the integer limit.
pub open spec fn spec_add_counts(states: Seq<Option<Rat>>, counts: Seq<u64>) -> Seq<u64> {
    Seq::new(
        counts.len(),
        |i: int|
            {
                let bump = i < states.len() && (states[i] matches Some(p) && p.n > 0);
                if bump && counts[i] < u64::MAX {
                    (counts[i] + 1) as u64
                } else {
                    counts[i]
                }
            },
    )
}

/// Record one more visit for every active state with positive weight.
pub fn add_counts(states: &Vec<Option<Prob>>, counts: &Vec<u64>) -> (r: Vec<u64>)
    ensures
        r@ == spec_add_counts(states_seq_view(states@), counts@),
{
    let n = counts.len();
    let mut out: Vec<u64> = Vec::new();
    let mut i: usize = 0;
    while i < n
        invariant
            0 <= i <= n,
            n == counts@.len(),
            out@.len() == i,
            forall|j: int|
                0 <= j < i ==> out@[j] == spec_add_counts(states_seq_view(states@), counts@)[j],
        decreases n - i,
    {
        let bump = if i < states.len() {
            match &states[i] {
                Some(p) => p.is_positive(),
                None => false,
            }
        } else {
            false
        };
        let c = counts[i];
        let c2 = if bump && c < u64::MAX {
            c + 1
        } else {
            c
        };
        out.push(c2);
        i = i + 1;
    }
    proof {
        assert(out@ =~= spec_add_counts(states_seq_view(states@), counts@));
    }
    out
}

/// The run over a token list: step, then count, per token in order.
pub open spec fn spec_run(
    nfa: Seq<StateV>,
    states: Seq<Option<Rat>>,
    counts: Seq<u64>,
    tokens: Seq<KindV>,
) -> Seq<Option<Rat>>
    decreases tokens.len(),
{
    if tokens.len() == 0 {
        states
    } else {
        let s2 = spec_step_states(states, counts, tokens[0], nfa);
        let c2 = spec_add_counts(s2, counts);
        spec_run(nfa, s2, c2, tokens.drop_first())
    }
}

/// What `match_likelihood` returns on an automaton and an input.
pub open spec fn spec_match_likelihood(nfa: Seq<StateV>, input: Seq<char>) -> Option<Rat> {
    let init = spec_initial_state(nfa, false);
    let finals = spec_run(
        nfa,
        init,
        crate::regex_state::zero_counts(nfa.len()),
        spec_tokens(input),
    );
    spec_terminal_state_p(finals, nfa)
}

/// The likelihood that the pattern compiled into `nfa` produced `input`:
/// the terminal state's weight after consuming the framed token stream,
/// or `None` when the terminal state ends inactive or at weight zero.
///
/// The run takes exactly `input.len() + 2` steps: one per input
/// character, plus one each for the synthetic start and terminal tokens.
pub fn match_likelihood(nfa: &Vec<State>, input: &str) -> (r: Option<Prob>)
    requires
        nfa@.len() < usize::MAX,
    ensures
        match r {
            Some(p) => spec_match_likelihood(nfa_view(nfa@), input@) == Some(p@),
            None => spec_match_likelihood(nfa_view(nfa@), input@) is None,
        },
{
    let mut states = initial_state(nfa, false);
    let n = nfa.len();
    let mut counts: Vec<u64> = Vec::new();
    let mut i: usize = 0;
    while i < n
        invariant
            0 <= i <= n,
            counts@ =~= crate::regex_state::zero_counts(i as nat),
        decreases n - i,
    {
        counts.push(0);
        proof {
            assert(counts@ =~= crate::regex_state::zero_counts(i as nat + 1));
        }
        i = i + 1;
    }
    let tokens = Tokens::from(input).as_vec();
    let ghost toks = crate::regex_state::tokens_view(tokens@);
    proof {
        assert(toks.skip(0) =~= toks);
        assert(counts@ =~= crate::regex_state::zero_counts(nfa@.len()));
    }
    let mut k: usize = 0;
    let m = tokens.len();
    while k < m
        invariant
            0 <= k <= m,
            m == tokens@.len(),
            nfa@.len() < usize::MAX,
            toks == crate::regex_state::tokens_view(tokens@),
            spec_run(
                nfa_view(nfa@),
                spec_initial_state(nfa_view(nfa@), false),
                crate::regex_state::zero_counts(nfa@.len()),
                toks,
            ) == spec_run(nfa_view(nfa@), states_seq_view(states@), counts@, toks.skip(k as int)),
        decreases m - k,
    {
        proof {
            assert(toks.skip(k as int)[0] == kind_view(tokens@[k as int]));
            assert(toks.skip(k as int).drop_first() =~= toks.skip(k as int + 1));
        }
        states = step_states(&states, &counts, &tokens[k], nfa);
        counts = add_counts(&states, &counts);
        k = k + 1;
    }
    proof {
        assert(toks.skip(m as int) =~= Seq::<KindV>::empty());
    }
    terminal_state_p(&states, nfa)
}

} // verus!
