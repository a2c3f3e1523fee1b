//! The compiled automaton.
//!
//! One dense automaton of the `regex-automata` crate is built from all
//! patterns, so that it reports every pattern that matches. It is opaque here:
//! what it holds is named by the functions below, and each operation that the
//! searcher uses says over those names what the crate's method returns.

use regex_automata::dfa::dense;
use regex_automata::dfa::Automaton;
use regex_automata::util::primitives::StateID;
use regex_automata::util::start;
use regex_automata::{Anchored, MatchKind};
use vstd::prelude::*;

verus! {

#[verifier::external_type_specification]
#[verifier::external_body]
#[verifier::reject_recursive_types(T)]
pub struct ExDenseDfa<T>(regex_automata::dfa::dense::DFA<T>);

/// The automaton type that the searcher owns.
pub type Dfa = regex_automata::dfa::dense::DFA<Vec<u32>>;

/// The symbol that stands for the end of the input, beside the 256 bytes.
pub open spec fn end_of_input() -> int {
    256
}

/// The identifiers of the automaton's states.
pub uninterp spec fn dfa_states(dfa: Dfa) -> Set<usize>;

/// The transitions: from a state and a symbol (a byte, or `end_of_input`)
/// to a state.
pub uninterp spec fn dfa_moves(dfa: Dfa) -> Map<(usize, int), usize>;

/// The dead states: those that no input leaves.
pub uninterp spec fn dfa_dead(dfa: Dfa) -> Set<usize>;

/// For each match state, the patterns that match in it, in the
/// automaton's order.
pub uninterp spec fn dfa_accepts(dfa: Dfa) -> Map<usize, Seq<usize>>;

/// The state in which an anchored search starts, if the automaton has one.
pub uninterp spec fn dfa_start(dfa: Dfa) -> Option<usize>;

/// The number of patterns that the automaton was built from.
pub uninterp spec fn dfa_patterns(dfa: Dfa) -> nat;

/// The dense automaton that is built from these regex texts, with every
/// pattern that matches reported; `None` where none can be built.
pub uninterp spec fn compiled(patterns: Seq<Seq<char>>) -> Option<Dfa>;

/// Whether a dense automaton can be built from these regex texts.
pub open spec fn compiles(patterns: Seq<Seq<char>>) -> bool {
    compiled(patterns) is Some
}

/// The texts of `patterns`.
pub open spec fn texts(patterns: Seq<String>) -> Seq<Seq<char>> {
    Seq::new(patterns.len(), |i: int| patterns[i]@)
}

/// `Clone` for the automaton: the copy is the same automaton.
pub assume_specification<T>[ <regex_automata::dfa::dense::DFA<T> as std::clone::Clone>::clone ](
    dfa: &regex_automata::dfa::dense::DFA<T>,
) -> (r: regex_automata::dfa::dense::DFA<T>) where T: std::clone::Clone
    ensures
        r == *dfa,
;

/// `dense::Builder::build_many` with match kind `All`: one automaton for
/// all patterns, where the crate can build one. What is built depends on the
/// texts alone. Its pattern identifiers are the indices of the patterns given.
#[verifier::external_body]
pub(crate) fn dfa_build(patterns: &Vec<String>) -> (r: Option<Dfa>)
    ensures
        r == compiled(texts(patterns@)),
        r is Some ==> dfa_patterns(r->0) == patterns.len(),
{
    let config = dense::Config::new().match_kind(MatchKind::All);
    match dense::Builder::new().configure(config).build_many(patterns) {
        Ok(dfa) => Some(dfa),
        Err(_) => None,
    }
}

/// `Automaton::start_state` for an anchored search without look-behind.
#[verifier::external_body]
pub(crate) fn dfa_start_state(dfa: &Dfa) -> (r: Option<usize>)
    ensures
        match r {
            Some(s) => dfa_start(*dfa) == Some(s) && dfa_states(*dfa).contains(s),
            None => dfa_start(*dfa) is None,
        },
{
    match dfa.start_state(&start::Config::new().anchored(Anchored::Yes)) {
        Ok(id) => Some(id.as_usize()),
        Err(_) => None,
    }
}

/// `Automaton::next_state`: the transition on one byte. From a valid state
/// it leads to a valid state.
#[verifier::external_body]
pub(crate) fn dfa_next_state(dfa: &Dfa, state: usize, byte: u8) -> (r: usize)
    requires
        dfa_states(*dfa).contains(state),
    ensures
        r == dfa_moves(*dfa)[(state, byte as int)],
        dfa_states(*dfa).contains(r),
{
    dfa.next_state(StateID::new_unchecked(state), byte).as_usize()
}

/// `Automaton::next_eoi_state`: the transition on the end of the input.
#[verifier::external_body]
pub(crate) fn dfa_next_eoi_state(dfa: &Dfa, state: usize) -> (r: usize)
    requires
        dfa_states(*dfa).contains(state),
    ensures
        r == dfa_moves(*dfa)[(state, end_of_input())],
        dfa_states(*dfa).contains(r),
{
    dfa.next_eoi_state(StateID::new_unchecked(state)).as_usize()
}

/// `Automaton::is_dead_state`.
#[verifier::external_body]
pub(crate) fn dfa_is_dead_state(dfa: &Dfa, state: usize) -> (r: bool)
    requires
        dfa_states(*dfa).contains(state),
    ensures
        r == dfa_dead(*dfa).contains(state),
{
    dfa.is_dead_state(StateID::new_unchecked(state))
}

/// `Automaton::is_match_state`.
#[verifier::external_body]
pub(crate) fn dfa_is_match_state(dfa: &Dfa, state: usize) -> (r: bool)
    requires
        dfa_states(*dfa).contains(state),
    ensures
        r == dfa_accepts(*dfa).contains_key(state),
{
    dfa.is_match_state(StateID::new_unchecked(state))
}

/// `Automaton::match_len`: the number of patterns that match in a match state.
#[verifier::external_body]
pub(crate) fn dfa_match_len(dfa: &Dfa, state: usize) -> (r: usize)
    requires
        dfa_states(*dfa).contains(state),
        dfa_accepts(*dfa).contains_key(state),
    ensures
        r == dfa_accepts(*dfa)[state].len(),
{
    dfa.match_len(StateID::new_unchecked(state))
}

/// `Automaton::match_pattern`: one of the patterns that match in a match
/// state, as the index it had when the automaton was built.
#[verifier::external_body]
pub(crate) fn dfa_match_pattern(dfa: &Dfa, state: usize, index: usize) -> (r: usize)
    requires
        dfa_states(*dfa).contains(state),
        dfa_accepts(*dfa).contains_key(state),
        index < dfa_accepts(*dfa)[state].len(),
    ensures
        r == dfa_accepts(*dfa)[state][index as int],
        r < dfa_patterns(*dfa),
{
    dfa.match_pattern(StateID::new_unchecked(state), index).as_usize()
}

} // verus!
