//! Scanner runtime: whole-string acceptance and the maximal-munch
//! tokenization loop over a frozen automaton.

use vstd::prelude::*;

use crate::direct_afd::{dfa_step, row_find_lit, row_find_range, row_step, row_wf, Dfa, Sym};
use crate::errors::ScanError;
use crate::text::{chars_to_string, to_char_vec};

verus! {

/// The state after consuming `cs[i..]` from state `s`, or `None` when
/// the automaton gets stuck.
pub open spec fn run_from(d: Dfa, s: int, cs: Seq<char>, i: int) -> Option<int>
    decreases cs.len() - i,
{
    if i < 0 || i >= cs.len() {
        Some(s)
    } else {
        match dfa_step(d, s, cs[i] as int) {
            Some(t) => run_from(d, t, cs, i + 1),
            None => None,
        }
    }
}

/// Whether the automaton consumes the whole string and ends accepting.
pub open spec fn accepts(d: Dfa, cs: Seq<char>) -> bool {
    match run_from(d, d.start as int, cs, 0) {
        Some(s) => 0 <= s < d.n() && d.accept@[s] is Some,
        None => false,
    }
}

/// One transition: the literal edge for the input character wins;
/// otherwise the covering range edge fires.
pub fn step_state(d: &Dfa, s: usize, c: char) -> (r: Option<usize>)
    requires
        d.wf(),
        s < d.n(),
    ensures
        match r {
            Some(t) => dfa_step(*d, s as int, c as int) == Some(t as int) && t < d.n(),
            None => dfa_step(*d, s as int, c as int) is None,
        },
{
    let row = &d.transitions[s];
    let cp = c as u32;
    let m = row.len();
    proof {
        assert(row_wf(row@, d.n()));
    }
    let mut k: usize = 0;
    while k < m
        invariant
            k <= m,
            m == row@.len(),
            row_wf(row@, d.n()),
            row_find_lit(row@, 0, c as int) == row_find_lit(row@, k as int, c as int),
        decreases m - k,
    {
        match row[k].0 {
            Sym::Lit(l) => {
                if l == cp {
                    proof {
                        assert(row_find_lit(row@, k as int, c as int) == Some(row@[k as int].1));
                    }
                    return Some(row[k].1);
                }
            },
            _ => {},
        }
        proof {
            assert(row_find_lit(row@, k as int, c as int) == row_find_lit(
                row@,
                k + 1,
                c as int,
            ));
        }
        k = k + 1;
    }
    let mut k2: usize = 0;
    while k2 < m
        invariant
            k2 <= m,
            m == row@.len(),
            row_wf(row@, d.n()),
            row_find_lit(row@, 0, c as int) is None,
            row_find_range(row@, 0, c as int) == row_find_range(row@, k2 as int, c as int),
        decreases m - k2,
    {
        match row[k2].0 {
            Sym::Range(x, y) => {
                if x <= cp && cp <= y {
                    proof {
                        assert(row_find_range(row@, k2 as int, c as int) == Some(
                            row@[k2 as int].1,
                        ));
                    }
                    return Some(row[k2].1);
                }
            },
            _ => {},
        }
        proof {
            assert(row_find_range(row@, k2 as int, c as int) == row_find_range(
                row@,
                k2 + 1,
                c as int,
            ));
        }
        k2 = k2 + 1;
    }
    None
}

/// Runs the automaton over the whole input and reports whether it ends
/// in an accepting state.
pub fn simulate_afd(d: &Dfa, input: &str) -> (r: bool)
    requires
        d.wf(),
    ensures
        r == accepts(*d, input@),
{
    let cs = to_char_vec(input);
    let n = cs.len();
    let mut state: usize = d.start;
    let mut i: usize = 0;
    while i < n
        invariant
            d.wf(),
            n == cs@.len(),
            cs@ == input@,
            i <= n,
            state < d.n(),
            run_from(*d, d.start as int, cs@, 0) == run_from(*d, state as int, cs@, i as int),
        decreases n - i,
    {
        match step_state(d, state, cs[i]) {
            Some(t) => {
                state = t;
                i = i + 1;
            },
            None => {
                proof {
                    assert(run_from(*d, state as int, cs@, i as int) is None);
                }
                return false;
            },
        }
    }
    match d.accept[state] {
        Some(_) => true,
        None => false,
    }
}

/// The longest accepted extension from state `s` at cursor `k`: the end
/// index just past the last accepting state entered, with its tag.
pub open spec fn munch_from(d: Dfa, s: int, cs: Seq<char>, k: int) -> Option<(int, int)>
    decreases cs.len() - k,
{
    if 0 <= k < cs.len() {
        match dfa_step(d, s, cs[k] as int) {
            Some(t) => {
                let rest = munch_from(d, t, cs, k + 1);
                if rest is Some {
                    rest
                } else if 0 <= t < d.n() && d.accept@[t] is Some {
                    Some((k + 1, d.accept@[t].unwrap() as int))
                } else {
                    None
                }
            },
            None => None,
        }
    } else {
        None
    }
}

/// A successful munch ends after the cursor and within the input.
pub proof fn lemma_munch_bounds(d: Dfa, s: int, cs: Seq<char>, k: int)
    ensures
        munch_from(d, s, cs, k) matches Some(r) ==> k < r.0 <= cs.len(),
    decreases cs.len() - k,
{
    if 0 <= k < cs.len() {
        match dfa_step(d, s, cs[k] as int) {
            Some(t) => {
                lemma_munch_bounds(d, t, cs, k + 1);
            },
            None => {},
        }
    }
}

/// The token stream of the input from cursor `c`: repeated maximal
/// munch; a cursor where no munch succeeds is the error position.
pub open spec fn scan_spec(d: Dfa, cs: Seq<char>, c: int) -> Result<Seq<(int, Seq<char>)>, int>
    decreases cs.len() - c,
    when 0 <= c
    via scan_spec_dec
{
    if c >= cs.len() {
        Ok(Seq::empty())
    } else {
        match munch_from(d, d.start as int, cs, c) {
            None => Err(c),
            Some((end, tag)) => match scan_spec(d, cs, end) {
                Ok(r) => Ok(seq![(tag, cs.subrange(c, end))] + r),
                Err(e) => Err(e),
            },
        }
    }
}

#[via_fn]
proof fn scan_spec_dec(d: Dfa, cs: Seq<char>, c: int) {
    if 0 <= c < cs.len() {
        lemma_munch_bounds(d, d.start as int, cs, c);
    }
}

/// One token the scanner emits: the matched rule's tag and the matched
/// slice of the input.
#[derive(Debug, PartialEq, Eq)]
pub struct ScanToken {
    pub tag: usize,
    pub lexeme: String,
}

/// The spec view of an emitted token stream.
pub open spec fn toks_view(v: Seq<ScanToken>) -> Seq<(int, Seq<char>)> {
    v.map_values(|t: ScanToken| (t.tag as int, t.lexeme@))
}

/// Tokenizes the input by repeated longest-prefix match, emitting one
/// token per match; fails at the first cursor where no rule matches.
pub fn simulate(d: &Dfa, input: &str) -> (r: Result<Vec<ScanToken>, ScanError>)
    requires
        d.wf(),
    ensures
        match r {
            Ok(v) => scan_spec(*d, input@, 0) == Ok::<Seq<(int, Seq<char>)>, int>(toks_view(v@)),
            Err(e) => e matches ScanError::UnexpectedCharacter(pos) && scan_spec(*d, input@, 0)
                == Err::<Seq<(int, Seq<char>)>, int>(pos as int),
        },
{
    let cs = to_char_vec(input);
    let n = cs.len();
    let mut out: Vec<ScanToken> = Vec::new();
    let mut c: usize = 0;
    while c < n
        invariant
            d.wf(),
            n == cs@.len(),
            cs@ == input@,
            c <= n,
            match scan_spec(*d, cs@, c as int) {
                Ok(ts) => scan_spec(*d, cs@, 0) == Ok::<Seq<(int, Seq<char>)>, int>(
                    toks_view(out@) + ts,
                ),
                Err(e) => scan_spec(*d, cs@, 0) == Err::<Seq<(int, Seq<char>)>, int>(e),
            },
        decreases n - c,
    {
        let mut state: usize = d.start;
        let mut k: usize = c;
        let mut last: Option<(usize, usize)> = None;
        #[verifier::loop_isolation(true)]
        loop
            invariant
                d.wf(),
                n == cs@.len(),
                c <= k <= n,
                state < d.n(),
                match munch_from(*d, state as int, cs@, k as int) {
                    Some(r2) => munch_from(*d, d.start as int, cs@, c as int) == Some(r2),
                    None => munch_from(*d, d.start as int, cs@, c as int) == (match last {
                        Some(p) => Some((p.0 as int, p.1 as int)),
                        None => None,
                    }),
                },
                match last {
                    Some(p) => c < p.0 <= k,
                    None => true,
                },
            ensures
                munch_from(*d, d.start as int, cs@, c as int) == (match last {
                    Some(p) => Some((p.0 as int, p.1 as int)),
                    None => None,
                }),
                match last {
                    Some(p) => c < p.0 <= n,
                    None => true,
                },
            decreases n - k,
        {
            if k >= n {
                proof {
                    assert(munch_from(*d, state as int, cs@, k as int) is None);
                }
                break ;
            }
            match step_state(d, state, cs[k]) {
                None => {
                    proof {
                        assert(munch_from(*d, state as int, cs@, k as int) is None);
                    }
                    break ;
                },
                Some(t) => {
                    let ghost old_state = state as int;
                    let ghost old_k = k as int;
                    state = t;
                    k = k + 1;
                    match d.accept[t] {
                        Some(g) => {
                            last = Some((k, g));
                        },
                        None => {},
                    }
                    proof {
                        assert(munch_from(*d, old_state, cs@, old_k) == (match munch_from(
                            *d,
                            t as int,
                            cs@,
                            k as int,
                        ) {
                            Some(r2) => Some(r2),
                            None => if d.accept@[t as int] is Some {
                                Some((k as int, d.accept@[t as int].unwrap() as int))
                            } else {
                                None::<(int, int)>
                            },
                        }));
                    }
                },
            }
        }
        match last {
            None => {
                proof {
                    assert(scan_spec(*d, cs@, c as int) == Err::<Seq<(int, Seq<char>)>, int>(
                        c as int,
                    ));
                }
                return Err(ScanError::UnexpectedCharacter(c));
            },
            Some(p) => {
                let end = p.0;
                let tag = p.1;
                let mut piece: Vec<char> = Vec::new();
                let mut q: usize = c;
                while q < end
                    invariant
                        c <= q <= end <= n,
                        n == cs@.len(),
                        piece@ == cs@.subrange(c as int, q as int),
                    decreases end - q,
                {
                    let ch = cs[q];
                    piece.push(ch);
                    proof {
                        assert(piece@ =~= cs@.subrange(c as int, q + 1));
                    }
                    q = q + 1;
                }
                let lexeme = chars_to_string(&piece);
                let ghost out0 = out@;
                out.push(ScanToken { tag, lexeme });
                proof {
                    assert(toks_view(out@) =~= toks_view(out0) + seq![
                        (tag as int, cs@.subrange(c as int, end as int)),
                    ]);
                    match scan_spec(*d, cs@, end as int) {
                        Ok(ts) => {
                            assert(scan_spec(*d, cs@, c as int) == Ok::<
                                Seq<(int, Seq<char>)>,
                                int,
                            >(seq![(tag as int, cs@.subrange(c as int, end as int))] + ts));
                            assert(toks_view(out0) + (seq![
                                (tag as int, cs@.subrange(c as int, end as int)),
                            ] + ts) =~= toks_view(out@) + ts);
                        },
                        Err(_) => {},
                    }
                }
                c = end;
            },
        }
    }
    proof {
        assert(scan_spec(*d, cs@, c as int) == Ok::<Seq<(int, Seq<char>)>, int>(Seq::empty()));
        assert(toks_view(out@) + Seq::<(int, Seq<char>)>::empty() =~= toks_view(out@));
    }
    Ok(out)
}

} // verus!

verus! {

/// The syntax tree a single-literal rule compiles to: the literal
/// joined to its end-marker.
pub open spec fn single_literal_tree(c: char) -> crate::grammar_tree::TreeNode {
    crate::grammar_tree::TreeNode {
        value: crate::inf_to_pos::Token::Concat,
        left: Some(
            Box::new(
                crate::grammar_tree::TreeNode {
                    value: crate::inf_to_pos::Token::Literal(c),
                    left: None,
                    right: None,
                },
            ),
        ),
        right: Some(
            Box::new(
                crate::grammar_tree::TreeNode {
                    value: crate::inf_to_pos::Token::Sentinel,
                    left: None,
                    right: None,
                },
            ),
        ),
    }
}

/// The automaton built from a single-literal rule accepts exactly the
/// one-character string holding that literal.
#[verifier::rlimit(100)]
pub proof fn lemma_single_literal_language(
    c: char,
    d: crate::direct_afd::Dfa,
    sets: Seq<Vec<usize>>,
    cs: Seq<char>,
)
    requires
        crate::direct_afd::create_states_ok(
            crate::direct_afd::arena_of(single_literal_tree(c), 0),
            d,
            sets,
        ),
    ensures
        accepts(d, cs) <==> cs == seq![c],
{
    let t = single_literal_tree(c);
    let a = crate::direct_afd::arena_of(t, 0);
    let lit_node = crate::direct_afd::ArenaNode {
        value: crate::inf_to_pos::Token::Literal(c),
        left: None,
        right: None,
    };
    let sent_node = crate::direct_afd::ArenaNode {
        value: crate::inf_to_pos::Token::Sentinel,
        left: None,
        right: None,
    };
    let cat_node = crate::direct_afd::ArenaNode {
        value: crate::inf_to_pos::Token::Concat,
        left: Some(0usize),
        right: Some(1usize),
    };
    let lt = crate::grammar_tree::TreeNode {
        value: crate::inf_to_pos::Token::Literal(c),
        left: None,
        right: None,
    };
    let st = crate::grammar_tree::TreeNode {
        value: crate::inf_to_pos::Token::Sentinel,
        left: None,
        right: None,
    };
    assert(crate::direct_afd::arena_of(lt, 0) =~= seq![lit_node]);
    assert(crate::direct_afd::arena_of(st, 1) =~= seq![sent_node]);
    assert(a =~= seq![lit_node, sent_node, cat_node]);
    // Positions of this three-node arena: the literal is position 1,
    // the end-marker position 2.
    assert(crate::direct_afd::pos_count(a, 0) == 0);
    assert(crate::direct_afd::pos_count(a, 1) == 1);
    assert(crate::direct_afd::pos_count(a, 2) == 2);
    assert(crate::direct_afd::pos_count(a, 3) == 2);
    assert(crate::direct_afd::idx_of_pos(a, 1, 0) == 0);
    assert(crate::direct_afd::idx_of_pos(a, 2, 0) == 1) by {
        assert(crate::direct_afd::idx_of_pos(a, 2, 1) == 1);
    }
    // The tables of this three-node arena.
    assert(crate::direct_afd::firstpos_at(a, 0) =~= set![1int]);
    assert(crate::direct_afd::lastpos_at(a, 0) =~= set![1int]);
    assert(crate::direct_afd::firstpos_at(a, 1) =~= set![2int]);
    assert(!crate::direct_afd::nullable_at(a, 0));
    assert(crate::direct_afd::firstpos_at(a, 2) =~= set![1int]);
    assert(crate::direct_afd::follow_contrib(a, 2, 1) =~= set![2int]);
    assert(crate::direct_afd::follow_contrib(a, 0, 1) =~= Set::<int>::empty());
    assert(crate::direct_afd::follow_contrib(a, 1, 1) =~= Set::<int>::empty());
    assert(crate::direct_afd::followpos_upto(a, 0, 1) =~= Set::<int>::empty());
    assert(crate::direct_afd::followpos_upto(a, 1, 1) =~= Set::<int>::empty());
    assert(crate::direct_afd::followpos_upto(a, 2, 1) =~= Set::<int>::empty());
    assert(crate::direct_afd::followpos_upto(a, 3, 1) =~= set![2int]);
    assert(crate::direct_afd::spec_followpos(a, 1) =~= set![2int]);
    assert(crate::direct_afd::follow_contrib(a, 2, 2) =~= Set::<int>::empty());
    assert(crate::direct_afd::follow_contrib(a, 0, 2) =~= Set::<int>::empty());
    assert(crate::direct_afd::follow_contrib(a, 1, 2) =~= Set::<int>::empty());
    assert(crate::direct_afd::followpos_upto(a, 0, 2) =~= Set::<int>::empty());
    assert(crate::direct_afd::followpos_upto(a, 1, 2) =~= Set::<int>::empty());
    assert(crate::direct_afd::followpos_upto(a, 2, 2) =~= Set::<int>::empty());
    assert(crate::direct_afd::followpos_upto(a, 3, 2) =~= Set::<int>::empty());
    assert(crate::direct_afd::spec_followpos(a, 2) =~= Set::<int>::empty());
    // The construction steps from the two reachable state sets.
    assert forall|cp: int| crate::direct_afd::delta_set(a, set![1int], cp) =~= (if cp
        == c as u32 as int {
        set![2int]
    } else {
        Set::<int>::empty()
    }) by {
        assert forall|q: int| crate::direct_afd::delta_set(a, set![1int], cp).contains(q) implies
            cp == c as u32 as int && q == 2 by {
            let p = choose|p: int|
                set![1int].contains(p) && #[trigger] crate::direct_afd::pos_covers(a, p, cp)
                    && crate::direct_afd::spec_followpos(a, p).contains(q);
            assert(p == 1);
        }
        if cp == c as u32 as int {
            assert(set![1int].contains(1int) && crate::direct_afd::pos_covers(a, 1, cp)
                && crate::direct_afd::spec_followpos(a, 1).contains(2int));
        }
    }
    assert forall|cp: int| crate::direct_afd::delta_set(a, set![2int], cp)
        =~= Set::<int>::empty() by {
        assert forall|q: int| !crate::direct_afd::delta_set(a, set![2int], cp).contains(q) by {
            if crate::direct_afd::delta_set(a, set![2int], cp).contains(q) {
                let p = choose|p: int|
                    set![2int].contains(p) && #[trigger] crate::direct_afd::pos_covers(a, p, cp)
                        && crate::direct_afd::spec_followpos(a, p).contains(q);
                assert(p == 2);
                assert(!crate::direct_afd::pos_covers(a, 2, cp));
            }
        }
    }
    // The start state holds position 1 and does not accept.
    assert(pos_set_of(sets, 0) == set![1int]) by {
        assert(crate::direct_afd::pos_set(sets[0]@) == crate::direct_afd::firstpos_at(a, 2));
    }
    if cs.len() == 0 {
        assert(run_from(d, d.start as int, cs, 0) == Some(d.start as int));
        assert(!accepts(d, cs));
        assert(cs != seq![c]);
    } else {
        let cp = cs[0] as int;
        assert(crate::direct_afd::step_matches(
            a,
            sets,
            crate::direct_afd::pos_set(sets[0]@),
            d.transitions@[0]@,
            cp,
        ));
        if cs[0] == c {
            assert(cp == c as u32 as int);
            assert(crate::direct_afd::delta_set(a, crate::direct_afd::pos_set(sets[0]@), cp)
                == set![2int]);
            let t1 = crate::direct_afd::row_step(d.transitions@[0]@, cp).unwrap() as int;
            assert(crate::direct_afd::pos_set(sets[t1]@) == set![2int]);
            // The canonical vector of the accepting state is `[2]`.
            assert(sets[t1]@ =~= seq![2usize]) by {
                crate::direct_afd::lemma_pos_set_iff(sets[t1]@, 2int);
                assert(sets[t1]@.len() >= 1) by {
                    if sets[t1]@.len() == 0 {
                        assert(crate::direct_afd::pos_set(sets[t1]@)
                            =~= Set::<int>::empty());
                    }
                }
                assert(sets[t1]@.len() < 2) by {
                    if sets[t1]@.len() >= 2 {
                        crate::direct_afd::lemma_pos_set_iff(sets[t1]@, sets[t1]@[0] as int);
                        crate::direct_afd::lemma_pos_set_iff(sets[t1]@, sets[t1]@[1] as int);
                        assert(crate::direct_afd::pos_set(sets[t1]@).contains(
                            sets[t1]@[0] as int,
                        ));
                        assert(crate::direct_afd::pos_set(sets[t1]@).contains(
                            sets[t1]@[1] as int,
                        ));
                        assert(sets[t1]@[0] == 2usize && sets[t1]@[1] == 2usize);
                    }
                }
                assert(crate::direct_afd::pos_set(sets[t1]@).contains(2int));
                let k = choose|k: int| 0 <= k < sets[t1]@.len() && 2int == sets[t1]@[k] as int;
                assert(sets[t1]@[0] == 2usize);
            }
            assert(crate::direct_afd::accept_tag(a, sets[t1]@, 0) == Some(1int)) by {
                assert(crate::direct_afd::sentinel_at(a, 2));
                assert(crate::direct_afd::sent_count_upto(a, 0) == 0);
                assert(crate::direct_afd::sent_count_upto(a, 1) == 0);
                assert(crate::direct_afd::sent_count_upto(a, 2) == 1);
            }
            assert(d.accept@[t1] is Some);
            assert(dfa_step(d, 0, cp) == Some(t1));
            if cs.len() == 1 {
                assert(run_from(d, t1, cs, 1) == Some(t1));
                assert(accepts(d, cs));
                assert(cs =~= seq![c]);
            } else {
                let cp2 = cs[1] as int;
                assert(crate::direct_afd::step_matches(
                    a,
                    sets,
                    crate::direct_afd::pos_set(sets[t1]@),
                    d.transitions@[t1]@,
                    cp2,
                ));
                assert(crate::direct_afd::delta_set(a, crate::direct_afd::pos_set(sets[t1]@), cp2)
                    == Set::<int>::empty());
                assert(dfa_step(d, t1, cp2) is None);
                assert(run_from(d, t1, cs, 1) is None);
                assert(!accepts(d, cs));
                assert(cs != seq![c]) by {
                    if cs == seq![c] {
                        assert(cs.len() == 1);
                    }
                }
            }
        } else {
            assert(cp != c as u32 as int) by {
                if cp == c as u32 as int {
                    assert(cs[0] as int == c as int);
                }
            }
            assert(crate::direct_afd::delta_set(a, crate::direct_afd::pos_set(sets[0]@), cp)
                == Set::<int>::empty());
            assert(dfa_step(d, 0, cp) is None);
            assert(run_from(d, d.start as int, cs, 0) is None);
            assert(!accepts(d, cs));
            assert(cs != seq![c]) by {
                if cs == seq![c] {
                    assert(cs[0] == c);
                }
            }
        }
    }
}

/// A helper name for one state's position set.
pub open spec fn pos_set_of(sets: Seq<Vec<usize>>, s: int) -> Set<int> {
    crate::direct_afd::pos_set(sets[s]@)
}

} // verus!
