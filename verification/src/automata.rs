//! An arena-backed transition graph: states are vector slots named
//! `s0`, `s1`, …, and edges refer to their destinations by index, so
//! the cyclic structure needs no owning references.

use vstd::prelude::*;

use crate::text::chars_to_string;

verus! {

/// One labelled edge, pointing at its destination state by index.
#[derive(Debug, Clone, PartialEq, Eq, Structural)]
pub struct Edge {
    pub destination: usize,
    pub transition_char: char,
}

/// One state: its display name and its outgoing edges.
#[derive(Debug)]
pub struct Node {
    pub name: String,
    pub edges: Vec<Edge>,
}

/// The graph: an arena of states and the index of the root, if any.
pub struct Graph {
    nodes: Vec<Node>,
    root: Option<usize>,
}

/// The decimal digits of a nonnegative number, most significant first.
pub open spec fn dec_digits(n: int) -> Seq<char>
    decreases n,
{
    if n < 10 {
        seq![((n + ('0' as int)) as u8) as char]
    } else {
        dec_digits(n / 10) + seq![((n % 10 + ('0' as int)) as u8) as char]
    }
}

/// The display name of state `i`.
pub open spec fn state_name(i: int) -> Seq<char> {
    "s"@ + dec_digits(i)
}

/// Appends the decimal digits of `n` to the buffer.
fn push_dec(buf: &mut Vec<char>, n: usize)
    ensures
        final(buf)@ == old(buf)@ + dec_digits(n as int),
    decreases n,
{
    if n >= 10 {
        push_dec(buf, n / 10);
    }
    let digit = (n % 10) as u8 + 48u8;
    buf.push(digit as char);
    proof {
        assert(buf@ =~= old(buf)@ + dec_digits(n as int));
    }
}

/// The edges leaving state `st` among the first `k` transition triples,
/// in input order; a triple whose destination lies outside the arena of
/// `q` states makes no edge.
pub open spec fn edges_for(
    trs: Seq<(usize, char, usize)>,
    k: int,
    st: int,
    q: int,
    acc: Seq<Edge>,
) -> Seq<Edge>
    decreases trs.len() - k,
{
    if k < 0 || k >= trs.len() {
        acc
    } else {
        let acc2 = if trs[k].0 == st && trs[k].2 < q {
            acc.push(Edge { destination: trs[k].2, transition_char: trs[k].1 })
        } else {
            acc
        };
        edges_for(trs, k + 1, st, q, acc2)
    }
}

impl Graph {
    /// The arena of states.
    pub closed spec fn nodes_spec(self) -> Seq<Node> {
        self.nodes@
    }

    /// The root state's index, if one was made.
    pub closed spec fn root_spec(self) -> Option<usize> {
        self.root
    }

    /// Creates an empty graph.
    pub fn new() -> (g: Graph)
        ensures
            g.nodes_spec().len() == 0,
            g.root_spec() is None,
    {
        Graph { nodes: Vec::new(), root: None }
    }

    /// The root state's index.
    pub fn get_root(&self) -> (r: Option<usize>)
        ensures
            r == self.root_spec(),
    {
        self.root
    }

    /// Builds the arena: one named state per index and, for each triple
    /// `(from, label, to)` with both ends in range, an edge; state 0,
    /// if any states exist, becomes the root.
    pub fn generate(&mut self, quantity_states: usize, transitions: Vec<(usize, char, usize)>)
        ensures
            final(self).nodes_spec().len() == quantity_states,
            forall|st: int|
                0 <= st < quantity_states ==> (#[trigger] final(self).nodes_spec()[st]).name@
                    == state_name(st) && final(self).nodes_spec()[st].edges@ == edges_for(
                    transitions@,
                    0,
                    st,
                    quantity_states as int,
                    Seq::empty(),
                ),
            final(self).root_spec() == (if quantity_states > 0 {
                Some(0usize)
            } else {
                None::<usize>
            }),
    {
        let mut nodes: Vec<Node> = Vec::new();
        let mut st: usize = 0;
        while st < quantity_states
            invariant
                st <= quantity_states,
                nodes@.len() == st,
                forall|s2: int|
                    0 <= s2 < st ==> (#[trigger] nodes@[s2]).name@ == state_name(s2)
                        && nodes@[s2].edges@ == edges_for(
                        transitions@,
                        0,
                        s2,
                        quantity_states as int,
                        Seq::empty(),
                    ),
            decreases quantity_states - st,
        {
            let mut namebuf: Vec<char> = Vec::new();
            namebuf.push('s');
            push_dec(&mut namebuf, st);
            proof {
                reveal_strlit("s");
                assert(namebuf@ =~= state_name(st as int));
            }
            let name = chars_to_string(&namebuf);
            let tn = transitions.len();
            let mut edges: Vec<Edge> = Vec::new();
            let mut k: usize = 0;
            while k < tn
                invariant
                    tn == transitions@.len(),
                    k <= tn,
                    edges_for(transitions@, k as int, st as int, quantity_states as int, edges@)
                        == edges_for(
                        transitions@,
                        0,
                        st as int,
                        quantity_states as int,
                        Seq::empty(),
                    ),
                decreases tn - k,
            {
                let tr = transitions[k];
                if tr.0 == st && tr.2 < quantity_states {
                    edges.push(Edge { destination: tr.2, transition_char: tr.1 });
                }
                k = k + 1;
            }
            nodes.push(Node { name, edges });
            st = st + 1;
        }
        self.nodes = nodes;
        self.root = if quantity_states > 0 {
            Some(0)
        } else {
            None
        };
    }
}

} // verus!
