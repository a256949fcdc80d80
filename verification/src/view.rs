//! Inspection of a compiled automaton for rendering: the list of its
//! states. Drawing the transition diagram itself is left to callers.

use vstd::prelude::*;

use crate::direct_afd::Dfa;

verus! {

/// Lists every state of the automaton, in index order. Each state owns
/// a transition row, and every edge's target is again a state, so this
/// is exactly the set of sources and destinations of the table.
pub fn get_all_states(d: &Dfa) -> (r: Vec<usize>)
    requires
        d.wf(),
    ensures
        r@.len() == d.n(),
        forall|i: int| 0 <= i < r@.len() ==> #[trigger] r@[i] == i,
{
    let n = d.transitions.len();
    let mut out: Vec<usize> = Vec::new();
    let mut i: usize = 0;
    while i < n
        invariant
            i <= n,
            out@.len() == i,
            forall|j: int| 0 <= j < i ==> #[trigger] out@[j] == j,
        decreases n - i,
    {
        out.push(i);
        i = i + 1;
    }
    out
}

} // verus!
