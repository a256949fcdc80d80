//! Whole-input classification: run the automaton over one candidate
//! lexeme and report the rule tag it lands on.

use vstd::prelude::*;

use crate::direct_afd::Dfa;
use crate::simulation::{run_from, step_state};
use crate::text::to_char_vec;
use vstd::string::*;

verus! {

/// Runs the automaton over the whole input and returns the final state,
/// or `None` when it gets stuck.
pub fn leer_cadena(d: &Dfa, input: &str) -> (r: Option<usize>)
    requires
        d.wf(),
    ensures
        match r {
            Some(s) => run_from(*d, d.start as int, input@, 0) == Some(s as int) && s < d.n(),
            None => run_from(*d, d.start as int, input@, 0) is None,
        },
{
    let cs = to_char_vec(input);
    let n = cs.len();
    let mut state: usize = d.start;
    let mut i: usize = 0;
    while i < n
        invariant
            d.wf(),
            n == cs@.len(),
            cs@ == input@,
            i <= n,
            state < d.n(),
            run_from(*d, d.start as int, cs@, 0) == run_from(*d, state as int, cs@, i as int),
        decreases n - i,
    {
        match step_state(d, state, cs[i]) {
            Some(t) => {
                state = t;
                i = i + 1;
            },
            None => {
                proof {
                    assert(run_from(*d, state as int, cs@, i as int) is None);
                }
                return None;
            },
        }
    }
    Some(state)
}

/// The rule tag the whole input is classified as: the accept tag of the
/// state the automaton lands on, or `None` when it gets stuck or lands
/// on a non-accepting state.
pub fn asignar_token(d: &Dfa, input: &str) -> (r: Option<usize>)
    requires
        d.wf(),
    ensures
        match run_from(*d, d.start as int, input@, 0) {
            Some(s) => r == d.accept@[s],
            None => r is None,
        },
{
    match leer_cadena(d, input) {
        Some(s) => d.accept[s],
        None => None,
    }
}

} // verus!

verus! {

/// The name of the rule the whole input is classified as, out of the
/// rule names in declaration order; an unclassified input gets the
/// marker name.
pub fn get_token_type(d: &Dfa, input: &str, token_list: &Vec<String>) -> (r: String)
    requires
        d.wf(),
    ensures
        match run_from(*d, d.start as int, input@, 0) {
            Some(s) => match d.accept@[s] {
                Some(g) => if 1 <= g <= token_list@.len() {
                    r@ == token_list@[g - 1]@
                } else {
                    r@ == "UNKNOWN"@
                },
                None => r@ == "UNKNOWN"@,
            },
            None => r@ == "UNKNOWN"@,
        },
{
    match asignar_token(d, input) {
        Some(g) => {
            if 1 <= g && g <= token_list.len() {
                token_list[g - 1].clone()
            } else {
                String::from_str("UNKNOWN")
            }
        },
        None => String::from_str("UNKNOWN"),
    }
}

} // verus!
