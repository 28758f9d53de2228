//! Evaluation of single automaton states against one input token.
//!
//! A token is a node kind: the synthetic `Start` and `Terminal` tokens
//! frame the input, and each input character arrives as a `Literal`
//! token. Evaluating a state yields weighted transitions; epsilon moves
//! are followed by recursion, bounded by a fuel that callers set to more
//! than the state count, so that a cycle of epsilon edges through nested
//! quantifiers cuts off instead of recursing forever.

use vstd::prelude::*;

use crate::ast::{kind_view, Kind, KindV};
use crate::distribution::{spec_pmf_link, DistLinkV};
use crate::nfa::{nfa_view, state_view, State, StateV};
use crate::rational::{rat_le, rat_mul, rat_one, rat_zero, Prob, Rat};

verus! {

/// An input token: `Start`, `Terminal`, or a `Literal` character.
pub type Token = Kind;

/// A weighted transition: the target slot (when any) and its weight.
#[derive(Debug, Clone, Copy)]
pub struct Transition(pub Option<usize>, pub Prob);

pub open spec fn trans_view(t: Transition) -> (Option<usize>, Rat) {
    (t.0, t.1@)
}

pub open spec fn trans_seq_view(v: Seq<Transition>) -> Seq<(Option<usize>, Rat)> {
    v.map_values(|t: Transition| trans_view(t))
}

/// The input string framed by the synthetic start and terminal tokens.
pub struct Tokens(pub Vec<Kind>);

/// The literal token of one character.
pub open spec fn lit_of(c: char) -> KindV {
    KindV::Literal(c)
}

/// The input characters as literal tokens.
pub open spec fn lit_tokens(s: Seq<char>) -> Seq<KindV> {
    s.map_values(|c: char| lit_of(c))
}

/// One zero count.
pub open spec fn zero_count(i: int) -> u64 {
    0u64
}

/// All-zero visit counts.
pub open spec fn zero_counts(n: nat) -> Seq<u64> {
    Seq::new(n, |i: int| zero_count(i))
}

pub open spec fn spec_tokens(s: Seq<char>) -> Seq<KindV> {
    seq![KindV::Start] + lit_tokens(s) + seq![KindV::Terminal]
}

pub open spec fn tokens_view(v: Seq<Kind>) -> Seq<KindV> {
    v.map_values(|k: Kind| kind_view(k))
}

impl Tokens {
    pub fn as_vec(self) -> (r: Vec<Token>)
        ensures
            r == self.0,
    {
        self.0
    }

    /// The token frame of an input string.
    pub fn from(s: &str) -> (r: Tokens)
        ensures
            tokens_view(r.0@) == spec_tokens(s@),
            r.0@.len() == s@.len() + 2,
    {
        let n = s.unicode_len();
        let mut v: Vec<Kind> = Vec::new();
        v.push(Kind::Start);
        let mut i: usize = 0;
        while i < n
            invariant
                0 <= i <= n,
                n == s@.len(),
                v@.len() == i + 1,
                v@[0] == Kind::Start,
                forall|j: int| 1 <= j <= i ==> v@[j] == Kind::Literal(s@[j - 1]),
            decreases n - i,
        {
            let c = s.get_char(i);
            v.push(Kind::Literal(c));
            i = i + 1;
        }
        v.push(Kind::Terminal);
        proof {
            assert forall|j: int| 0 <= j < v@.len() implies #[trigger] tokens_view(v@)[j]
                == spec_tokens(s@)[j] by {
                crate::ast::lemma_kind_view(v@[j]);
                assert(tokens_view(v@)[j] == kind_view(v@[j]));
                if j == 0 {
                    assert(spec_tokens(s@)[0] == KindV::Start);
                } else if j <= n {
                    assert(v@[j] == Kind::Literal(s@[j - 1]));
                    assert(spec_tokens(s@)[j] == lit_tokens(s@)[j - 1]);
                    assert(lit_tokens(s@)[j - 1] == lit_of(s@[j - 1]));
                } else {
                    assert(v@[j] == Kind::Terminal);
                    assert(spec_tokens(s@)[j] == KindV::Terminal);
                }
            }
            assert(tokens_view(v@).len() == spec_tokens(s@).len());
            assert(tokens_view(v@) =~= spec_tokens(s@));
        }
        Tokens(v)
    }
}

/// The position of `c` in a class's member list, if any.
pub open spec fn spec_char_index(chars: Seq<char>, c: char) -> Option<u64>
    decreases chars.len(),
{
    if chars.len() == 0 {
        None
    } else if chars[0] == c {
        Some(0)
    } else {
        match spec_char_index(chars.drop_first(), c) {
            Some(i) => Some((i + 1) as u64),
            None => None,
        }
    }
}

fn char_index(chars: &Vec<char>, c: char) -> (r: Option<u64>)
    ensures
        r == spec_char_index(chars@, c),
        r matches Some(i) ==> i < chars@.len(),
{
    let mut i: usize = 0;
    let n = chars.len();
    proof {
        assert(chars@.skip(0) =~= chars@);
    }
    while i < n
        invariant
            0 <= i <= n,
            n == chars@.len(),
            forall|j: int| 0 <= j < i ==> chars@[j] != c,
            spec_char_index(chars@.skip(i as int), c) matches Some(k) ==> spec_char_index(
                chars@,
                c,
            ) == Some((k + i) as u64),
            spec_char_index(chars@.skip(i as int), c) is None ==> spec_char_index(chars@, c)
                is None,
        decreases n - i,
    {
        proof {
            assert(chars@.skip(i as int)[0] == chars@[i as int]);
            assert(chars@.skip(i as int).drop_first() =~= chars@.skip(i as int + 1));
            lemma_char_index_bound(chars@.skip(i as int), c);
            lemma_char_index_bound(chars@.skip(i as int + 1), c);
        }
        if chars[i] == c {
            return Some(i as u64);
        }
        i = i + 1;
    }
    proof {
        assert(chars@.skip(n as int) =~= Seq::<char>::empty());
    }
    None
}

/// What evaluating one state against a token yields. Mirrors
/// `evaluate_state`; `fuel` bounds the epsilon recursion.
pub open spec fn spec_evaluate(
    nfa: Seq<StateV>,
    counts: Seq<u64>,
    idx: Option<usize>,
    token: KindV,
    p: Rat,
    is_epsilon: bool,
    fuel: nat,
) -> Seq<(Option<usize>, Rat)>
    decreases fuel,
{
    if fuel == 0 {
        Seq::empty()
    } else {
        match idx {
            None => Seq::empty(),
            Some(idx) => {
                if idx >= nfa.len() {
                    Seq::empty()
                } else {
                    let st = nfa[idx as int];
                    match st.kind {
                        KindV::Terminal => seq![(Some(idx), p)],
                        KindV::Start => {
                            if is_epsilon {
                                seq![(Some(idx), rat_one())]
                            } else {
                                seq![(Some(idx), rat_one())] + spec_evaluate(
                                    nfa,
                                    counts,
                                    st.outs.0,
                                    token,
                                    p,
                                    true,
                                    (fuel - 1) as nat,
                                ) + spec_evaluate(
                                    nfa,
                                    counts,
                                    st.outs.1,
                                    token,
                                    p,
                                    true,
                                    (fuel - 1) as nat,
                                )
                            }
                        },
                        KindV::AnchorStart => {
                            if is_epsilon {
                                seq![(Some(idx), rat_one())]
                            } else if token is Start {
                                spec_evaluate(
                                    nfa,
                                    counts,
                                    st.outs.0,
                                    token,
                                    p,
                                    true,
                                    (fuel - 1) as nat,
                                )
                            } else {
                                Seq::empty()
                            }
                        },
                        KindV::AnchorEnd => {
                            if is_epsilon {
                                seq![(Some(idx), p)]
                            } else if token is Terminal {
                                seq![(st.outs.0, p)]
                            } else {
                                Seq::empty()
                            }
                        },
                        KindV::Split => {
                            spec_evaluate(nfa, counts, st.outs.0, token, p, true, (fuel - 1) as nat)
                                + spec_evaluate(
                                nfa,
                                counts,
                                st.outs.1,
                                token,
                                p,
                                true,
                                (fuel - 1) as nat,
                            )
                        },
                        KindV::Quantifier(_) | KindV::ExactQuantifier(_) => {
                            if !is_epsilon {
                                Seq::empty()
                            } else {
                                let n = if idx < counts.len() {
                                    counts[idx as int]
                                } else {
                                    0
                                };
                                let p1 = match st.dist {
                                    Some(link) => spec_pmf_link(link, token, Some(n), false).1,
                                    None => rat_one(),
                                };
                                seq![(Some(idx), p)] + spec_evaluate(
                                    nfa,
                                    counts,
                                    st.outs.0,
                                    token,
                                    p,
                                    true,
                                    (fuel - 1) as nat,
                                ) + spec_evaluate(
                                    nfa,
                                    counts,
                                    st.outs.1,
                                    token,
                                    rat_mul(p, p1),
                                    true,
                                    (fuel - 1) as nat,
                                )
                            }
                        },
                        KindV::Dot => {
                            if is_epsilon {
                                seq![(Some(idx), p)]
                            } else if token is Literal {
                                spec_evaluate(nfa, counts, st.outs.0, token, p, true, (fuel - 1) as nat)
                                    + spec_evaluate(
                                    nfa,
                                    counts,
                                    st.outs.1,
                                    token,
                                    p,
                                    true,
                                    (fuel - 1) as nat,
                                )
                            } else {
                                Seq::empty()
                            }
                        },
                        KindV::Literal(mc) => {
                            if is_epsilon {
                                seq![(Some(idx), p)]
                            } else if token matches KindV::Literal(c) && c == mc {
                                spec_evaluate(nfa, counts, st.outs.0, token, p, true, (fuel - 1) as nat)
                            } else {
                                Seq::empty()
                            }
                        },
                        KindV::Class(negated, chars) => {
                            if is_epsilon {
                                seq![(Some(idx), p)]
                            } else if token is Literal {
                                let pos = spec_char_index(chars, token->Literal_0);
                                let p1 = match st.dist {
                                    Some(link) => spec_pmf_link(link, token, pos, negated).1,
                                    None => match (pos, negated) {
                                        (None, false) => rat_zero(),
                                        (None, true) => rat_one(),
                                        (Some(_), false) => rat_one(),
                                        (Some(_), true) => rat_zero(),
                                    },
                                };
                                spec_evaluate(
                                    nfa,
                                    counts,
                                    st.outs.0,
                                    token,
                                    rat_mul(p, p1),
                                    true,
                                    (fuel - 1) as nat,
                                )
                            } else {
                                Seq::empty()
                            }
                        },
                        _ => Seq::empty(),
                    }
                }
            },
        }
    }
}

/// Evaluate the state `idx` against `token` at weight `p`, yielding the
/// transitions to the next active states. Epsilon recursion is bounded by
/// `fuel`; callers pass at least one more than the state count, which a
/// chain of distinct states can never exhaust.
pub fn evaluate_state(
    nfa: &Vec<State>,
    counts: &Vec<u64>,
    idx: Option<usize>,
    token: &Token,
    p: Prob,
    is_epsilon: bool,
    fuel: usize,
) -> (r: Vec<Transition>)
    ensures
        trans_seq_view(r@) == spec_evaluate(
            nfa_view(nfa@),
            counts@,
            idx,
            kind_view(*token),
            p@,
            is_epsilon,
            fuel as nat,
        ),
    decreases fuel,
{
    let mut out: Vec<Transition> = Vec::new();
    if fuel == 0 {
        proof {
            assert(trans_seq_view(out@) =~= spec_evaluate(
                nfa_view(nfa@),
                counts@,
                idx,
                kind_view(*token),
                p@,
                is_epsilon,
                fuel as nat,
            ));
        }
        return out;
    }
    let i = match idx {
        None => {
            proof {
                assert(trans_seq_view(out@) =~= spec_evaluate(
                    nfa_view(nfa@),
                    counts@,
                    idx,
                    kind_view(*token),
                    p@,
                    is_epsilon,
                    fuel as nat,
                ));
            }
            return out;
        },
        Some(i) => i,
    };
    if i >= nfa.len() {
        proof {
            assert(trans_seq_view(out@) =~= spec_evaluate(
                nfa_view(nfa@),
                counts@,
                idx,
                kind_view(*token),
                p@,
                is_epsilon,
                fuel as nat,
            ));
        }
        return out;
    }
    let st = &nfa[i];
    proof {
        crate::ast::lemma_kind_view(st.kind);
        assert(nfa_view(nfa@)[i as int] == state_view(nfa@[i as int]));
    }
    match &st.kind {
        Kind::Terminal => {
            out.push(Transition(Some(i), p));
        },
        Kind::Start => {
            if is_epsilon {
                out.push(Transition(Some(i), Prob::one()));
            } else {
                out.push(Transition(Some(i), Prob::one()));
                let mut a = evaluate_state(nfa, counts, st.outs.0, token, p, true, fuel - 1);
                let mut b = evaluate_state(nfa, counts, st.outs.1, token, p, true, fuel - 1);
                out.append(&mut a);
                out.append(&mut b);
            }
        },
        Kind::AnchorStart => {
            if is_epsilon {
                out.push(Transition(Some(i), Prob::one()));
            } else if matches!(token, Kind::Start) {
                let mut a = evaluate_state(nfa, counts, st.outs.0, token, p, true, fuel - 1);
                out.append(&mut a);
            }
        },
        Kind::AnchorEnd => {
            if is_epsilon {
                out.push(Transition(Some(i), p));
            } else if matches!(token, Kind::Terminal) {
                out.push(Transition(st.outs.0, p));
            }
        },
        Kind::Split => {
            let mut a = evaluate_state(nfa, counts, st.outs.0, token, p, true, fuel - 1);
            let mut b = evaluate_state(nfa, counts, st.outs.1, token, p, true, fuel - 1);
            out.append(&mut a);
            out.append(&mut b);
        },
        Kind::Quantifier(_) | Kind::ExactQuantifier(_) => {
            if is_epsilon {
                let n = if i < counts.len() {
                    counts[i]
                } else {
                    0
                };
                let p1 = match &st.dist {
                    Some(link) => link.pmf_link(token, Some(n), false).1,
                    None => Prob::one(),
                };
                out.push(Transition(Some(i), p));
                let mut a = evaluate_state(nfa, counts, st.outs.0, token, p, true, fuel - 1);
                let mut b = evaluate_state(nfa, counts, st.outs.1, token, p.mul(p1), true, fuel - 1);
                out.append(&mut a);
                out.append(&mut b);
            }
        },
        Kind::Dot => {
            if is_epsilon {
                out.push(Transition(Some(i), p));
            } else if matches!(token, Kind::Literal(_)) {
                let mut a = evaluate_state(nfa, counts, st.outs.0, token, p, true, fuel - 1);
                let mut b = evaluate_state(nfa, counts, st.outs.1, token, p, true, fuel - 1);
                out.append(&mut a);
                out.append(&mut b);
            }
        },
        Kind::Literal(mc) => {
            if is_epsilon {
                out.push(Transition(Some(i), p));
            } else {
                let matched = match token {
                    Kind::Literal(c) => *c == *mc,
                    _ => false,
                };
                if matched {
                    let mut a = evaluate_state(nfa, counts, st.outs.0, token, p, true, fuel - 1);
                    out.append(&mut a);
                }
            }
        },
        Kind::Class(negated, chars) => {
            if is_epsilon {
                out.push(Transition(Some(i), p));
            } else {
                let lit = match token {
                    Kind::Literal(c) => Some(*c),
                    _ => None,
                };
                match lit {
                    Some(c) => {
                        let pos = char_index(chars, c);
                        let p1 = match &st.dist {
                            Some(link) => link.pmf_link(token, pos, *negated).1,
                            None => match (pos, negated) {
                                (None, false) => Prob::zero(),
                                (None, true) => Prob::one(),
                                (Some(_), false) => Prob::one(),
                                (Some(_), true) => Prob::zero(),
                            },
                        };
                        let mut a = evaluate_state(
                            nfa,
                            counts,
                            st.outs.0,
                            token,
                            p.mul(p1),
                            true,
                            fuel - 1,
                        );
                        out.append(&mut a);
                    },
                    None => {},
                }
            }
        },
        _ => {},
    }
    proof {
        assert(trans_seq_view(out@) =~= spec_evaluate(
            nfa_view(nfa@),
            counts@,
            idx,
            kind_view(*token),
            p@,
            is_epsilon,
            fuel as nat,
        ));
    }
    out
}

/// The terminal state's weight, when present and positive.
pub open spec fn spec_terminal_state_p(states: Seq<Option<Rat>>, nfa: Seq<StateV>) -> Option<Rat> {
    if nfa.len() == 0 {
        None
    } else {
        let idx = nfa.len() - 1;
        if idx < states.len() {
            match states[idx] {
                Some(p) => if p.n > 0 {
                    Some(p)
                } else {
                    None
                },
                None => None,
            }
        } else {
            None
        }
    }
}

/// Appending an inactive slot extends an all-inactive set.
pub proof fn lemma_push_none(v: Seq<Option<Prob>>, n: nat)
    requires
        states_seq_view(v) =~= empty_states(n),
    ensures
        states_seq_view(v.push(None)) =~= empty_states(n + 1),
{
    assert(states_seq_view(v).len() == v.len());
    assert(v.len() == n);
    let w = v.push(None);
    assert(forall|j: int| 0 <= j < v.len() ==> w[j] == v[j]);
    assert(states_seq_view(w).len() == n + 1);
    assert(forall|j: int|
        0 <= j < n + 1 ==> #[trigger] states_seq_view(w)[j] == (if j < n {
            states_seq_view(v)[j]
        } else {
            None
        }));
}

/// The hit position is inside the member list.
pub proof fn lemma_char_index_bound(chars: Seq<char>, c: char)
    ensures
        spec_char_index(chars, c) matches Some(k) ==> k < chars.len(),
    decreases chars.len(),
{
    if chars.len() > 0 && chars[0] != c {
        lemma_char_index_bound(chars.drop_first(), c);
    }
}

pub open spec fn states_seq_view(v: Seq<Option<Prob>>) -> Seq<Option<Rat>> {
    v.map_values(
        |o: Option<Prob>|
            match o {
                Some(p) => Some(p@),
                None => None,
            },
    )
}

/// The weight of the terminal state (the last slot), when it is active
/// with a positive weight.
pub fn terminal_state_p(states: &Vec<Option<Prob>>, nfa: &Vec<State>) -> (r: Option<Prob>)
    ensures
        match r {
            Some(p) => spec_terminal_state_p(states_seq_view(states@), nfa_view(nfa@)) == Some(p@),
            None => spec_terminal_state_p(states_seq_view(states@), nfa_view(nfa@)) is None,
        },
{
    if nfa.len() == 0 {
        return None;
    }
    let idx = nfa.len() - 1;
    if idx < states.len() {
        match &states[idx] {
            Some(p) => {
                if p.is_positive() {
                    Some(*p)
                } else {
                    None
                }
            },
            None => None,
        }
    } else {
        None
    }
}

/// The active set seeded from slot 0 before any token is consumed.
pub open spec fn spec_initial_state(nfa: Seq<StateV>, skip_start: bool) -> Seq<Option<Rat>> {
    spec_apply_transitions(
        empty_states(nfa.len()),
        spec_evaluate(
            nfa,
            Seq::empty(),
            Some(0),
            KindV::Start,
            rat_one(),
            !skip_start,
            nfa.len() + 1,
        ),
        0,
    )
}

/// One inactive slot.
pub open spec fn no_weight(i: int) -> Option<Rat> {
    None
}

pub open spec fn empty_states(n: nat) -> Seq<Option<Rat>> {
    Seq::new(n, |i: int| no_weight(i))
}

/// Fold transitions into a dense active set, keeping the larger weight
/// where two transitions reach the same slot.
pub open spec fn spec_apply_transitions(
    states: Seq<Option<Rat>>,
    ts: Seq<(Option<usize>, Rat)>,
    i: int,
) -> Seq<Option<Rat>>
    decreases ts.len() - i,
{
    if i < 0 || i >= ts.len() {
        states
    } else {
        let next = match ts[i].0 {
            Some(o) => {
                if o < states.len() {
                    match states[o as int] {
                        Some(q) => states.update(
                            o as int,
                            Some(
                                if rat_le(q, ts[i].1) {
                                    ts[i].1
                                } else {
                                    q
                                },
                            ),
                        ),
                        None => states.update(o as int, Some(ts[i].1)),
                    }
                } else {
                    states
                }
            },
            None => states,
        };
        spec_apply_transitions(next, ts, i + 1)
    }
}

/// The active set seeded from slot 0 before any token is consumed: the
/// transitions of slot 0 against the synthetic start token. With
/// `skip_start`, slot 0 is evaluated as a direct step rather than an
/// epsilon seed, which also activates its closure.
pub fn initial_state(nfa: &Vec<State>, skip_start: bool) -> (r: Vec<Option<Prob>>)
    requires
        nfa@.len() < usize::MAX,
    ensures
        states_seq_view(r@) == spec_initial_state(nfa_view(nfa@), skip_start),
{
    let n = nfa.len();
    let mut states: Vec<Option<Prob>> = Vec::new();
    let mut i: usize = 0;
    while i < n
        invariant
            0 <= i <= n,
            states_seq_view(states@) =~= empty_states(i as nat),
        decreases n - i,
    {
        let ghost pre = states@;
        states.push(None);
        proof {
            lemma_push_none(pre, i as nat);
        }
        i = i + 1;
    }
    let counts: Vec<u64> = Vec::new();
    let start_token = Kind::Start;
    proof {
        crate::ast::lemma_kind_view(Kind::Start);
        assert(counts@ =~= Seq::<u64>::empty());
        assert(nfa_view(nfa@).len() == n as nat);
    }
    let ts = evaluate_state(nfa, &counts, Some(0), &start_token, Prob::one(), !skip_start, n + 1);
    apply_transitions(states, &ts)
}

/// Fold transitions into the active set, max-merging duplicates.
pub fn apply_transitions(states: Vec<Option<Prob>>, ts: &Vec<Transition>) -> (r: Vec<Option<Prob>>)
    ensures
        states_seq_view(r@) == spec_apply_transitions(
            states_seq_view(states@),
            trans_seq_view(ts@),
            0,
        ),
{
    let ghost target = spec_apply_transitions(states_seq_view(states@), trans_seq_view(ts@), 0);
    let mut states = states;
    let mut i: usize = 0;
    let n = ts.len();
    while i < n
        invariant
            0 <= i <= n,
            n == ts@.len(),
            target == spec_apply_transitions(states_seq_view(states@), trans_seq_view(ts@), i as int),
        decreases n - i,
    {
        let ghost pre = states_seq_view(states@);
        let t = ts[i];
        match t.0 {
            Some(o) => {
                if o < states.len() {
                    let newv = match &states[o] {
                        Some(q) => {
                            if q.le(&t.1) {
                                t.1
                            } else {
                                *q
                            }
                        },
                        None => t.1,
                    };
                    states.set(o, Some(newv));
                    proof {
                        assert(states_seq_view(states@) =~= pre.update(
                            o as int,
                            Some(newv@),
                        ));
                    }
                }
            },
            None => {},
        }
        i = i + 1;
    }
    states
}

} // verus!
